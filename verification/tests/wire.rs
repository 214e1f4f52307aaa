#![allow(non_snake_case)]

use ferveo::bls12_381::fr::Scalar;
use ferveo::bls12_381::g1::G1Point;
use ferveo::hybridvss::commitment::Commitment;
use ferveo::hybridvss::sh::{Context, Echo, Ready, Send, Share, Shared};
use ferveo::hybridvss::wire::{
    decode, encode, get_scalar, get_u32, put_scalar, put_u32, Message, KIND_ECHO, KIND_READY,
    KIND_SEND, KIND_SHARED,
};
use ferveo::hybridvss::Params;
use rand::rngs::StdRng;
use rand::SeedableRng;

fn fr(x: u64) -> Scalar {
    Scalar::from_u64(x)
}

fn sends(seed: u64) -> Vec<Send> {
    let mut rng = StdRng::seed_from_u64(seed);
    let params = Params { f: 0, t: 1, w: vec![1; 3], d: 0 };
    let mut dealer = Context::init(params, 0);
    dealer.share(&mut rng, Share { s: fr(77) })
}

fn same_matrix(a: &Commitment, b: &Commitment) -> bool {
    a.equals(b)
}

#[test]
fn integers_are_written_big_endian() {
    let mut out = vec![9u8];
    put_u32(&mut out, 0x0102_0304);
    put_u32(&mut out, 97);
    put_u32(&mut out, u32::MAX);
    assert_eq!(out, vec![9, 1, 2, 3, 4, 0, 0, 0, 97, 255, 255, 255, 255]);
    assert_eq!(get_u32(&out, 1), 0x0102_0304);
    assert_eq!(get_u32(&out, 5), 97);
    assert_eq!(get_u32(&out, 9), u32::MAX);
}

#[test]
fn field_elements_are_written_as_32_big_endian_bytes() {
    let mut out = Vec::new();
    put_scalar(&mut out, &fr(0x0102));
    let mut expected = vec![0u8; 32];
    expected[30] = 1;
    expected[31] = 2;
    assert_eq!(out, expected);
    assert!(get_scalar(&out, 0).unwrap() == fr(0x0102));
    // The modulus itself is no field element.
    let modulus_be: [u8; 32] = [
        0x73, 0xed, 0xa7, 0x53, 0x29, 0x9d, 0x7d, 0x48, 0x33, 0x39, 0xd8, 0x08, 0x09, 0xa1, 0xd8,
        0x05, 0x53, 0xbd, 0xa4, 0x02, 0xff, 0xfe, 0x5b, 0xfe, 0xff, 0xff, 0xff, 0xff, 0x00, 0x00,
        0x00, 0x01,
    ];
    assert!(get_scalar(&modulus_be, 0).is_none());
    let mut below = modulus_be;
    below[31] = 0;
    let largest = get_scalar(&below, 0).unwrap();
    assert!(largest.add(&fr(1)) == fr(0));
    let mut again = Vec::new();
    put_scalar(&mut again, &largest);
    assert_eq!(again, below.to_vec());
}

#[test]
fn a_send_has_the_stated_layout() {
    let send = sends(61).remove(1);
    let bytes = encode(&Message::Send(send.clone())).unwrap();
    // kind, length of the matrix, matrix, length of the payload, payload.
    let matrix_len = 12 + 3 * 2 * 97;
    let payload_len = 2 * 32;
    assert_eq!(bytes.len(), 1 + 4 + matrix_len + 4 + payload_len);
    assert_eq!(bytes[0], KIND_SEND);
    assert_eq!(get_u32(&bytes, 1) as usize, matrix_len);
    // rows, columns, length of a point.
    assert_eq!(get_u32(&bytes, 5), 3);
    assert_eq!(get_u32(&bytes, 9), 2);
    assert_eq!(get_u32(&bytes, 13), 97);
    // The points follow row by row.
    assert_eq!(&bytes[17..17 + 97], &send.C.rows[0][0].to_bytes()[..]);
    assert_eq!(&bytes[17 + 97..17 + 2 * 97], &send.C.rows[0][1].to_bytes()[..]);
    assert_eq!(&bytes[17 + 2 * 97..17 + 3 * 97], &send.C.rows[1][0].to_bytes()[..]);
    assert_eq!(get_u32(&bytes, 5 + matrix_len) as usize, payload_len);
    assert!(get_scalar(&bytes, 9 + matrix_len).unwrap() == send.a[0]);
    assert!(get_scalar(&bytes, 9 + matrix_len + 32).unwrap() == send.a[1]);
}

#[test]
fn every_kind_of_message_is_read_back() {
    let send = sends(62).remove(2);
    let C = send.C.clone();
    let messages = vec![
        Message::Send(send.clone()),
        Message::Echo(Echo { C: C.clone(), alpha: fr(5) }),
        Message::Ready(Ready { C: C.clone(), alpha: fr(6) }),
        Message::Shared(Shared { C: C.clone(), s: fr(7) }),
    ];
    let kinds = [KIND_SEND, KIND_ECHO, KIND_READY, KIND_SHARED];
    for (message, kind) in messages.iter().zip(kinds.iter()) {
        let bytes = encode(message).unwrap();
        assert_eq!(bytes[0], *kind);
        match (decode(&bytes).unwrap(), message) {
            (Message::Send(read), Message::Send(written)) => {
                assert!(same_matrix(&read.C, &written.C));
                assert_eq!(read.a.len(), written.a.len());
                assert!(read.a.iter().zip(written.a.iter()).all(|(x, y)| x == y));
            }
            (Message::Echo(read), Message::Echo(written)) => {
                assert!(same_matrix(&read.C, &written.C));
                assert!(read.alpha == written.alpha);
            }
            (Message::Ready(read), Message::Ready(written)) => {
                assert!(same_matrix(&read.C, &written.C));
                assert!(read.alpha == written.alpha);
            }
            (Message::Shared(read), Message::Shared(written)) => {
                assert!(same_matrix(&read.C, &written.C));
                assert!(read.s == written.s);
            }
            _ => panic!("a message was read back as one of another kind"),
        }
        // What was read is written as it was.
        assert_eq!(encode(&decode(&bytes).unwrap()).unwrap(), bytes);
    }
}

#[test]
fn a_message_without_rows_is_read_back() {
    let empty = Message::Echo(Echo { C: Commitment { rows: vec![] }, alpha: fr(9) });
    let bytes = encode(&empty).unwrap();
    assert_eq!(bytes.len(), 1 + 4 + 12 + 4 + 32);
    match decode(&bytes).unwrap() {
        Message::Echo(echo) => {
            assert!(echo.C.rows.is_empty());
            assert!(echo.alpha == fr(9));
        }
        _ => panic!("an Echo was read back as another message"),
    }
    let no_coefficients = Message::Send(Send { C: Commitment { rows: vec![] }, a: vec![] });
    let bytes = encode(&no_coefficients).unwrap();
    assert!(matches!(decode(&bytes).unwrap(), Message::Send(send) if send.a.is_empty()));
}

#[test]
fn a_ragged_matrix_is_not_written() {
    let g = G1Point::generator();
    let ragged = Commitment { rows: vec![vec![g, g], vec![g]] };
    assert!(encode(&Message::Echo(Echo { C: ragged, alpha: fr(1) })).is_none());
    let without_columns = Commitment { rows: vec![vec![], vec![]] };
    assert!(encode(&Message::Echo(Echo { C: without_columns, alpha: fr(1) })).is_none());
}

#[test]
fn malformed_bytes_are_refused() {
    let send = sends(63).remove(0);
    let bytes = encode(&Message::Echo(Echo { C: send.C.clone(), alpha: fr(5) })).unwrap();
    assert!(decode(&bytes).is_some());
    // Too short, or cut anywhere.
    assert!(decode(&[]).is_none());
    assert!(decode(&[KIND_ECHO]).is_none());
    for cut in [1usize, 4, 5, 16, 17, 100, bytes.len() - 33, bytes.len() - 1] {
        assert!(decode(&bytes[..cut]).is_none());
    }
    // Bytes after the end.
    let mut longer = bytes.clone();
    longer.push(0);
    assert!(decode(&longer).is_none());
    // An unknown kind.
    let mut unknown = bytes.clone();
    unknown[0] = 0;
    assert!(decode(&unknown).is_none());
    unknown[0] = 5;
    assert!(decode(&unknown).is_none());
    // Another length of a point.
    let mut point_len = bytes.clone();
    point_len[16] = 96;
    assert!(decode(&point_len).is_none());
    // More rows than the field holds.
    let mut rows = bytes.clone();
    rows[8] += 1;
    assert!(decode(&rows).is_none());
    // A point outside the group.
    let mut point = bytes.clone();
    point[17] ^= 1;
    assert!(decode(&point).is_none());
    // A field element that is not below the modulus.
    let mut element = bytes.clone();
    let at = bytes.len() - 32;
    for b in element[at..].iter_mut() {
        *b = 0xff;
    }
    assert!(decode(&element).is_none());
    // An Echo with two field elements.
    let two = encode(&Message::Send(Send { C: send.C.clone(), a: vec![fr(1), fr(2)] })).unwrap();
    let mut as_echo = two.clone();
    as_echo[0] = KIND_ECHO;
    assert!(decode(&two).is_some());
    assert!(decode(&as_echo).is_none());
    // Rows without columns, and columns without rows.
    let header_only = |n: u8, cols: u8| {
        let mut b = vec![KIND_SEND, 0, 0, 0, 12, 0, 0, 0, n, 0, 0, 0, cols, 0, 0, 0, 97];
        b.extend_from_slice(&[0, 0, 0, 0]);
        b
    };
    assert!(decode(&header_only(0, 0)).is_some());
    assert!(decode(&header_only(1, 0)).is_none());
    assert!(decode(&header_only(0, 1)).is_none());
}
