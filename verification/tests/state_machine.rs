#![allow(non_snake_case)]

use ferveo::bls12_381::fr::Scalar;
use ferveo::bls12_381::g1::G1Point;
use ferveo::hybridvss::bivariate::BivariatePoly;
use ferveo::hybridvss::commitment::Commitment;
use ferveo::hybridvss::rec;
use ferveo::hybridvss::sh::{Context, Echo, Either, Ready, Send, Share, Shared, State};
use ferveo::hybridvss::Params;
use rand::rngs::StdRng;
use rand::SeedableRng;

fn fr(x: u64) -> Scalar {
    Scalar::from_u64(x)
}

// The nodes of an instance with unit weights and the dealer 0.
fn nodes_of(f: u32, t: u32, n: u32) -> Vec<Context> {
    let params = Params { f, t, w: vec![1; n as usize], d: 0 };
    (0..n).map(|i| Context::init(params.duplicate(), i)).collect()
}

// The nodes, the secret, the Sends of the dealer and the Echos of every node.
fn dealt(f: u32, t: u32, n: u32, seed: u64) -> (Vec<Context>, Scalar, Vec<Send>, Vec<Vec<Echo>>) {
    let mut rng = StdRng::seed_from_u64(seed);
    let mut nodes = nodes_of(f, t, n);
    let s = Scalar::random(&mut rng);
    let sends = nodes[0].share(&mut rng, Share { s });
    let echos = nodes
        .iter_mut()
        .zip(sends.iter())
        .map(|(node, send)| node.send(send.clone()).unwrap())
        .collect();
    (nodes, s, sends, echos)
}

// The Ready messages of every node after it has handled the Echos of all.
fn readys_of(nodes: &mut Vec<Context>, echos: &Vec<Vec<Echo>>) -> Vec<Vec<Ready>> {
    let mut readys = Vec::new();
    for (i, node) in nodes.iter_mut().enumerate() {
        let mut answer = None;
        for (m, from_m) in echos.iter().enumerate() {
            let response = node.echo(m as u32, &from_m[i]);
            if answer.is_none() {
                answer = response;
            }
        }
        readys.push(answer.unwrap());
    }
    readys
}

#[test]
fn a_fresh_node_is_in_the_initial_state() {
    let nodes = nodes_of(1, 1, 6);
    assert!(matches!(nodes[3].state(), State::Init));
    assert!(nodes[3].accepted().is_none());
    assert!(!nodes[3].ready_sent());
    assert_eq!(nodes[3].index(), 3);
    assert_eq!(nodes[3].params().t, 1);
    assert_eq!(nodes[3].domain().len(), 6);
}

#[test]
fn the_dealer_hands_each_node_its_polynomial() {
    let (nodes, s, sends, _) = dealt(1, 1, 6, 31);
    assert_eq!(sends.len(), 6);
    let domain = nodes[0].domain();
    for (m, send) in sends.iter().enumerate() {
        assert_eq!(send.a.len(), 2);
        assert!(send.C.is_well_shaped(6, 1));
        assert!(send.C.equals(&sends[0].C));
        // The polynomials are the rows of a symmetric polynomial with the
        // constant term s: a_m(alpha_j) = a_j(alpha_m).
        for (j, other) in sends.iter().enumerate() {
            let left = ferveo::hybridvss::poly::evaluate(&send.a, &domain.point(j));
            let right = ferveo::hybridvss::poly::evaluate(&other.a, &domain.point(m));
            assert!(left == right);
        }
    }
    // Interpolating the constant terms a_m(0) at zero gives the secret.
    let xs = vec![domain.point(0), domain.point(1)];
    let ys = vec![sends[0].a[0], sends[1].a[0]];
    let through = ferveo::hybridvss::poly::Interpolation::new(xs, ys).unwrap();
    assert!(through.evaluate(&fr(0)) == s);
}

#[test]
fn deal_is_fixed_by_the_polynomial() {
    // phi = 5 + 2 (x + y) + 3 x y; the point of node 0 is 1: a_0 = 7 + 5 x.
    let nodes = nodes_of(0, 1, 4);
    let phi =
        BivariatePoly::from_coefficients(vec![vec![fr(5), fr(2)], vec![fr(2), fr(3)]]).unwrap();
    let sends = nodes[0].deal(&phi);
    assert_eq!(sends.len(), 4);
    assert!(sends[0].a[0] == fr(7) && sends[0].a[1] == fr(5));
    let g = G1Point::generator();
    assert!(sends[2].C.rows[0][0].equals(&g.mul(&fr(7))));
    assert!(sends[2].C.rows[0][1].equals(&g.mul(&fr(5))));
    for (i, send) in sends.iter().enumerate() {
        assert!(nodes[i].verify_share(send));
    }
    // A polynomial of another degree is not dealt.
    let cubic = BivariatePoly::from_coefficients(vec![vec![fr(5)]]).unwrap();
    assert!(nodes[0].deal(&cubic).is_empty());
}

#[test]
fn only_the_dealer_deals() {
    let mut rng = StdRng::seed_from_u64(32);
    let mut nodes = nodes_of(1, 1, 6);
    assert!(nodes[1].share(&mut rng, Share { s: fr(5) }).is_empty());
    assert_eq!(nodes[0].share(&mut rng, Share { s: fr(5) }).len(), 6);
    nodes[0].fail();
    assert!(nodes[0].share(&mut rng, Share { s: fr(5) }).is_empty());
}

#[test]
fn a_perturbed_share_fails_verification() {
    let (nodes, _, sends, _) = dealt(0, 2, 5, 33);
    for (i, send) in sends.iter().enumerate() {
        assert!(nodes[i].verify_share(send));
        for k in 0..send.a.len() {
            let mut perturbed = send.clone();
            perturbed.a[k] = perturbed.a[k].add(&fr(1));
            assert!(!nodes[i].verify_share(&perturbed));
        }
        let mut short = send.clone();
        short.a.pop();
        assert!(!nodes[i].verify_share(&short));
    }
}

#[test]
fn a_perturbed_commitment_fails_verification() {
    let (nodes, _, sends, _) = dealt(0, 2, 5, 34);
    let send = &sends[1];
    let mut rejected_by_decoding = 0;
    let mut rejected_by_the_check = 0;
    for m in 0..5 {
        for k in 0..3 {
            // Flip one bit of each byte in turn.
            for byte in 0..97 {
                let mut bytes = send.C.rows[m][k].to_bytes();
                bytes[byte] ^= 1 << (byte % 8);
                match G1Point::from_bytes(&bytes) {
                    None => rejected_by_decoding += 1,
                    Some(point) => {
                        let mut perturbed = send.clone();
                        perturbed.C.rows[m][k] = point;
                        assert!(!nodes[1].verify_share(&perturbed));
                        rejected_by_the_check += 1;
                    }
                }
            }
            // Another point of the group in the place of the entry.
            let mut perturbed = send.clone();
            perturbed.C.rows[m][k] = perturbed.C.rows[m][k].add(&G1Point::generator());
            assert!(!nodes[1].verify_share(&perturbed));
            rejected_by_the_check += 1;
        }
    }
    assert_eq!(rejected_by_decoding + rejected_by_the_check, 5 * 3 * 98);
    assert!(rejected_by_decoding > 0);
    // A matrix of another shape.
    let mut fewer_rows = send.clone();
    fewer_rows.C.rows.pop();
    assert!(!nodes[1].verify_share(&fewer_rows));
    let mut shorter_row = send.clone();
    shorter_row.C.rows[4].pop();
    assert!(!nodes[1].verify_share(&shorter_row));
}

#[test]
fn a_send_is_echoed_again_when_it_is_repeated() {
    let (mut nodes, _, sends, echos) = dealt(1, 1, 6, 35);
    let again = nodes[2].send(sends[2].clone()).unwrap();
    assert_eq!(again.len(), 6);
    for j in 0..6 {
        assert!(again[j].alpha == echos[2][j].alpha);
        assert!(again[j].C.equals(&echos[2][j].C));
    }
    assert!(matches!(nodes[2].state(), State::Init));
}

#[test]
fn an_echo_carries_the_value_at_the_receivers_point() {
    let (nodes, _, sends, echos) = dealt(1, 1, 6, 36);
    let domain = nodes[0].domain();
    for m in 0..6 {
        for j in 0..6 {
            let expected = ferveo::hybridvss::poly::evaluate(&sends[m].a, &domain.point(j));
            assert!(echos[m][j].alpha == expected);
        }
    }
}

#[test]
fn a_second_consistent_send_with_another_commitment_is_not_answered() {
    let (mut nodes, _, sends, echos) = dealt(1, 1, 6, 37);
    let (_, _, other_sends, _) = dealt(1, 1, 6, 38);
    assert!(nodes[3].accepted().unwrap().equals(&sends[3].C));
    assert!(nodes[3].verify_share(&other_sends[3]));
    assert!(nodes[3].send(other_sends[3].clone()).is_none());
    assert!(matches!(nodes[3].state(), State::Init));
    assert!(nodes[3].accepted().unwrap().equals(&sends[3].C));
    // The caller gives the instance up.
    nodes[3].fail();
    assert!(matches!(nodes[3].state(), State::Failed));
    // A node that has given up neither counts nor answers.
    assert!(nodes[3].echo(0, &echos[0][3]).is_none());
    assert_eq!(nodes[3].echo_count(&echos[0][3].C), 0);
    assert!(nodes[3].send(sends[3].clone()).is_none());
}

#[test]
fn an_inconsistent_send_changes_nothing() {
    let mut rng = StdRng::seed_from_u64(39);
    let mut nodes = nodes_of(1, 1, 6);
    let sends = nodes[0].share(&mut rng, Share { s: fr(5) });
    assert!(nodes[1].send(sends[2].clone()).is_none());
    assert!(matches!(nodes[1].state(), State::Init));
    assert!(nodes[1].send(sends[1].clone()).is_some());
}

#[test]
fn a_repeated_echo_is_counted_once() {
    let (mut nodes, _, _, echos) = dealt(1, 1, 6, 40);
    let C = echos[0][0].C.clone();
    assert_eq!(nodes[0].echo_count(&C), 0);
    assert!(nodes[0].echo(1, &echos[1][0]).is_none());
    assert_eq!(nodes[0].echo_count(&C), 1);
    assert!(nodes[0].echo(1, &echos[1][0]).is_none());
    assert!(nodes[0].echo(1, &echos[1][0]).is_none());
    assert_eq!(nodes[0].echo_count(&C), 1);
    assert_eq!(nodes[0].ready_count(&C), 0);
}

#[test]
fn an_invalid_echo_is_not_counted() {
    let (mut nodes, _, _, echos) = dealt(1, 1, 6, 41);
    let C = echos[0][0].C.clone();
    // The echo of node 1 for node 2, handed to node 0.
    assert!(nodes[0].echo(1, &echos[1][2]).is_none());
    // The echo of node 1, claimed to be of node 2.
    assert!(nodes[0].echo(2, &echos[1][0]).is_none());
    // A sender that is no participant.
    assert!(nodes[0].echo(6, &echos[1][0]).is_none());
    assert_eq!(nodes[0].echo_count(&C), 0);
}

#[test]
fn ready_is_first_announced_at_the_echo_threshold() {
    // W = 6, t = 1: ceil(8 / 2) = 4.
    let (mut nodes, _, _, echos) = dealt(1, 1, 6, 42);
    let C = echos[0][0].C.clone();
    for m in [5usize, 2, 0] {
        assert!(nodes[4].echo(m as u32, &echos[m][4]).is_none());
        assert!(!nodes[4].ready_sent());
    }
    assert_eq!(nodes[4].echo_count(&C), 3);
    let readys = nodes[4].echo(1, &echos[1][4]).unwrap();
    assert_eq!(nodes[4].echo_count(&C), 4);
    assert!(nodes[4].ready_sent());
    assert_eq!(readys.len(), 6);
    for (j, ready) in readys.iter().enumerate() {
        assert!(ready.C.equals(&C));
        assert!(nodes[j].verify_point(4, &ready.C, &ready.alpha));
        // The Ready for node j carries what node 4 echoed to it.
        assert!(ready.alpha == echos[4][j].alpha);
    }
    // Every later Echo is answered in the same way.
    let later = nodes[4].echo(3, &echos[3][4]).unwrap();
    for j in 0..6 {
        assert!(later[j].alpha == readys[j].alpha);
    }
    assert!(matches!(nodes[4].state(), State::Init));
}

#[test]
fn echos_for_different_commitments_are_counted_apart() {
    let (mut nodes, _, _, echos) = dealt(1, 1, 6, 43);
    let (_, _, _, other_echos) = dealt(1, 1, 6, 44);
    let C = echos[0][0].C.clone();
    let D = other_echos[0][0].C.clone();
    assert!(!C.equals(&D));
    for m in 0..3 {
        assert!(nodes[0].echo(m as u32, &echos[m][0]).is_none());
        assert!(nodes[0].echo(m as u32, &other_echos[m][0]).is_none());
    }
    assert_eq!(nodes[0].echo_count(&C), 3);
    assert_eq!(nodes[0].echo_count(&D), 3);
    assert!(nodes[0].echo(3, &other_echos[3][0]).is_some());
    assert_eq!(nodes[0].echo_count(&C), 3);
    assert_eq!(nodes[0].echo_count(&D), 4);
}

#[test]
fn ready_is_announced_in_turn_once_at_the_amplification_threshold() {
    // f = 1: the second Ready is answered, if Ready was not announced.
    let (mut nodes, _, _, echos) = dealt(1, 1, 6, 45);
    let C = echos[0][0].C.clone();
    let mut late = nodes.pop().unwrap();
    let readys = readys_of(&mut nodes, &echos);
    assert!(!late.ready_sent());
    assert!(late.ready(0, &readys[0][5]).is_none());
    assert!(!late.ready_sent());
    let answer = late.ready(1, &readys[1][5]).unwrap();
    assert!(answer.is_left());
    assert!(late.ready_sent());
    let amplified = answer.left().unwrap();
    assert_eq!(amplified.len(), 6);
    for (j, ready) in amplified.iter().enumerate().take(5) {
        assert!(nodes[j].verify_point(5, &ready.C, &ready.alpha));
        assert!(ready.alpha == echos[5][j].alpha);
    }
    // The third Ready is counted and not answered; the fourth gives the
    // share (W - t - f = 4); the fifth is counted and not answered.
    assert!(late.ready(2, &readys[2][5]).is_none());
    assert_eq!(late.ready_count(&C), 3);
    let output = late.ready(3, &readys[3][5]).unwrap();
    assert!(output.is_right());
    let shared: Shared = output.right().unwrap();
    assert!(matches!(late.state(), State::Shared(s) if s == shared.s));
    assert!(late.ready(4, &readys[4][5]).is_none());
    assert_eq!(late.ready_count(&C), 5);
    // A repeated Ready is not counted again.
    assert!(late.ready(4, &readys[4][5]).is_none());
    assert_eq!(late.ready_count(&C), 5);
    // After the share was output, Echos are counted and not answered.
    for m in 0..5 {
        assert!(late.echo(m as u32, &echos[m][5]).is_none());
    }
    assert_eq!(late.echo_count(&C), 5);
    assert!(late.send(Send { C: C.clone(), a: vec![] }).is_none());
}

#[test]
fn ready_is_not_announced_in_turn_after_the_echo_threshold() {
    let (mut nodes, _, _, echos) = dealt(1, 1, 6, 46);
    let readys = readys_of(&mut nodes, &echos);
    assert!(nodes[0].ready_sent());
    assert!(nodes[0].ready(1, &readys[1][0]).is_none());
    assert!(nodes[0].ready(2, &readys[2][0]).is_none());
    assert!(nodes[0].ready(3, &readys[3][0]).is_none());
    let fourth = nodes[0].ready(4, &readys[4][0]).unwrap();
    assert!(fourth.is_right());
}

#[test]
fn the_output_wins_where_the_two_thresholds_for_readys_coincide() {
    // f = 0, t = 0, W = 1: both thresholds are 1.
    let (mut nodes, s, _, echos) = dealt(0, 0, 1, 47);
    let mut fresh = nodes_of(0, 0, 1).pop().unwrap();
    let readys = nodes[0].echo(0, &echos[0][0]).unwrap();
    let answer = fresh.ready(0, &readys[0]).unwrap();
    assert!(answer.is_right());
    assert!(answer.right().unwrap().s == s);
    assert!(!fresh.ready_sent());
}

#[test]
fn an_invalid_ready_is_not_counted() {
    let (mut nodes, _, _, echos) = dealt(1, 1, 6, 48);
    let C = echos[0][0].C.clone();
    let readys = readys_of(&mut nodes, &echos);
    let tampered = Ready { C: C.clone(), alpha: readys[1][0].alpha.add(&fr(1)) };
    assert!(nodes[0].ready(1, &tampered).is_none());
    assert!(nodes[0].ready(2, &readys[1][0]).is_none());
    assert_eq!(nodes[0].ready_count(&C), 0);
}

#[test]
fn the_share_is_the_value_of_the_nodes_polynomial_at_zero() {
    let (mut nodes, _, sends, echos) = dealt(1, 1, 6, 49);
    let readys = readys_of(&mut nodes, &echos);
    for i in 0..6 {
        let mut output = None;
        for m in 0..4 {
            output = nodes[i].ready(m as u32, &readys[m][i]);
        }
        let shared = output.unwrap().right().unwrap();
        assert!(shared.s == sends[i].a[0]);
        assert!(shared.C.equals(&sends[i].C));
    }
}

#[test]
fn reconstruction_accepts_consistent_shares_of_distinct_nodes() {
    let (mut nodes, s, sends, echos) = dealt(1, 2, 8, 50);
    let domain = nodes[0].domain();
    let _ = readys_of(&mut nodes, &echos);
    let C = sends[0].C.clone();
    let params = Params { f: 1, t: 2, w: vec![1; 8], d: 0 };
    let shares: Vec<Scalar> = sends.iter().map(|send| send.a[0]).collect();
    let mut node = rec::Context::init(params, C, domain, shares[3]);
    assert_eq!(node.share_count(), 0);
    assert!(node.verify_share(6, &shares[6]));
    assert!(!node.verify_share(6, &shares[5]));
    assert!(!node.verify_share(8, &shares[6]));
    // A share that is not consistent, and one of no participant.
    assert!(node.reconstruct_share(6, shares[5]).is_none());
    assert!(node.reconstruct_share(8, shares[6]).is_none());
    assert_eq!(node.share_count(), 0);
    assert!(node.reconstruct_share(6, shares[6]).is_none());
    // A repeated share.
    assert!(node.reconstruct_share(6, shares[6]).is_none());
    assert_eq!(node.share_count(), 1);
    assert!(node.reconstruct_share(1, shares[1]).is_none());
    assert_eq!(node.share_count(), 2);
    // The share number t + 1 gives the secret.
    assert!(node.reconstruct_share(3, shares[3]).unwrap() == s);
    // Later shares are accepted and give nothing.
    assert!(node.reconstruct_share(0, shares[0]).is_none());
    assert_eq!(node.share_count(), 4);
}

#[test]
fn reconstruction_with_a_domain_of_another_size_gives_nothing() {
    let (nodes, _, sends, _) = dealt(1, 1, 6, 51);
    let small = nodes_of(0, 0, 1);
    let params = Params { f: 1, t: 1, w: vec![1; 6], d: 0 };
    let mut node = rec::Context::init(params, sends[0].C.clone(), small[0].domain(), sends[0].a[0]);
    assert!(node.reconstruct_share(0, sends[0].a[0]).is_none());
    assert!(node.reconstruct_share(1, sends[1].a[0]).is_none());
    assert_eq!(node.share_count(), 0);
    let _ = nodes;
}

#[test]
fn either_tells_its_side() {
    let left: Either<u8, u16> = Either::Left(1);
    let right: Either<u8, u16> = Either::Right(2);
    assert!(left.is_left() && !left.is_right());
    assert!(right.is_right() && !right.is_left());
    assert_eq!(left.clone().left(), Some(1));
    assert_eq!(left.right(), None);
    assert_eq!(right.clone().right(), Some(2));
    assert_eq!(right.left(), None);
}

#[test]
fn a_commitment_of_the_wrong_shape_verifies_no_point() {
    let (nodes, _, _, echos) = dealt(1, 1, 6, 52);
    let echo = &echos[1][0];
    assert!(nodes[0].verify_point(1, &echo.C, &echo.alpha));
    let mut short = echo.C.clone();
    short.rows[5].pop();
    assert!(!nodes[0].verify_point(1, &short, &echo.alpha));
    assert!(!nodes[0].verify_point(1, &Commitment { rows: vec![] }, &echo.alpha));
}
