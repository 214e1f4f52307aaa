//! The wire format of the messages.
//!
//! A message is one byte that tells its kind, followed by two fields, each
//! with its length before it as four big-endian bytes: the commitment
//! matrix, and the payload. The matrix is written as its number of rows,
//! its number of columns and the length of a point, four big-endian bytes
//! each, followed by the points row by row. A field element is written as
//! 32 big-endian bytes. The payload of a Send is the coefficients of its
//! polynomial, that of every other message one field element.

#![allow(non_snake_case)]

use crate::bls12_381::fr::{modulus, Scalar};
use crate::bls12_381::g1::{valid_encoding, G1Point};
use crate::encoding::{append, le_value};
use crate::hybridvss::commitment::{row_view, Commitment, CommitmentView};
use crate::hybridvss::model::{MessageModel, SendModel, SharedModel};
use crate::hybridvss::sh::{Echo, Ready, Send, Shared};
use vstd::arithmetic::div_mod::lemma_fundamental_div_mod_converse;
use vstd::prelude::*;
use vstd::slice::slice_subrange;

verus! {

/// The four big-endian bytes of a number below 2^32.
pub open spec fn be32(x: nat) -> Seq<u8> {
    seq![
        ((x / 0x100_0000) % 256) as u8,
        ((x / 0x1_0000) % 256) as u8,
        ((x / 0x100) % 256) as u8,
        (x % 256) as u8,
    ]
}

/// The number that four big-endian bytes stand for.
pub open spec fn be32_value(b: Seq<u8>) -> nat {
    (b[0] as nat) * 0x100_0000 + (b[1] as nat) * 0x1_0000 + (b[2] as nat) * 0x100 + (b[3] as nat)
}

/// Reading the four bytes of a number gives the number back.
pub proof fn lemma_be32_round_trip(x: nat)
    requires
        x <= u32::MAX,
    ensures
        be32(x).len() == 4,
        be32_value(be32(x)) == x,
{
}

/// Appends the four big-endian bytes of `x`.
pub fn put_u32(out: &mut Vec<u8>, x: u32)
    ensures
        final(out)@ == old(out)@ + be32(x as nat),
{
    let b0 = (x / 0x100_0000) as u8;
    let b1 = ((x / 0x1_0000) % 256) as u8;
    let b2 = ((x / 0x100) % 256) as u8;
    let b3 = (x % 256) as u8;
    out.push(b0);
    out.push(b1);
    out.push(b2);
    out.push(b3);
    assert(out@ =~= old(out)@ + be32(x as nat));
}

/// The number that the four bytes from `at` on stand for.
pub fn get_u32(bytes: &[u8], at: usize) -> (x: u32)
    requires
        at + 4 <= bytes@.len(),
    ensures
        x == be32_value(bytes@.subrange(at as int, at + 4)),
{
    (bytes[at] as u32) * 0x100_0000 + (bytes[at + 1] as u32) * 0x1_0000 + (bytes[at + 2] as u32)
        * 0x100 + (bytes[at + 3] as u32)
}

/// The `len` little-endian digits to the base 256 of a number.
pub open spec fn le_digits(v: nat, len: nat) -> Seq<u8>
    decreases len,
{
    if len == 0 {
        Seq::empty()
    } else {
        seq![(v % 256) as u8] + le_digits(v / 256, (len - 1) as nat)
    }
}

/// The least number that `len` digits to the base 256 cannot hold.
pub open spec fn capacity(len: nat) -> nat
    decreases len,
{
    if len == 0 {
        1
    } else {
        256 * capacity((len - 1) as nat)
    }
}

/// There are as many digits as were asked for.
pub proof fn lemma_le_digits_len(v: nat, len: nat)
    ensures
        le_digits(v, len).len() == len,
    decreases len,
{
    if len > 0 {
        lemma_le_digits_len(v / 256, (len - 1) as nat);
    }
}

/// The digits of a number that fits stand for the number.
pub proof fn lemma_le_digits_value(v: nat, len: nat)
    requires
        v < capacity(len),
    ensures
        le_value(le_digits(v, len)) == v,
    decreases len,
{
    if len > 0 {
        let digits = le_digits(v, len);
        lemma_le_digits_value(v / 256, (len - 1) as nat);
        assert(digits.drop_first() =~= le_digits(v / 256, (len - 1) as nat));
    }
}

/// The bytes that stand for a number are its digits.
pub proof fn lemma_le_digits_unique(b: Seq<u8>)
    ensures
        b == le_digits(le_value(b), b.len()),
        le_value(b) < capacity(b.len()),
    decreases b.len(),
{
    if b.len() > 0 {
        let rest = b.drop_first();
        lemma_le_digits_unique(rest);
        let v = le_value(b) as int;
        let first = b[0] as int;
        let high = le_value(rest) as int;
        assert(v == 256 * high + first);
        lemma_fundamental_div_mod_converse(v, 256, high, first);
        assert(le_digits(v as nat, b.len()) == seq![(v % 256) as u8] + le_digits(
            (v / 256) as nat,
            (b.len() - 1) as nat,
        ));
        assert(b =~= seq![b[0]] + rest);
        assert(capacity(b.len()) == 256 * capacity((b.len() - 1) as nat));
    } else {
        assert(b =~= Seq::<u8>::empty());
    }
}

/// 32 digits hold every number below the modulus.
pub proof fn lemma_modulus_fits()
    ensures
        modulus() <= capacity(32),
{
    reveal_with_fuel(capacity, 33);
}

/// A field element on the wire: the 32 big-endian bytes of its
/// representative.
pub open spec fn scalar_bytes(v: nat) -> Seq<u8> {
    le_digits(v, 32).reverse()
}

/// The field element that 32 bytes on the wire stand for, if their number
/// is below the modulus.
pub open spec fn scalar_of(b: Seq<u8>) -> Option<nat> {
    if b.len() == 32 && le_value(b.reverse()) < modulus() {
        Some(le_value(b.reverse()))
    } else {
        None
    }
}

/// Reading the bytes of a field element gives the element back.
pub proof fn lemma_scalar_round_trip(v: nat)
    requires
        v < modulus(),
    ensures
        scalar_bytes(v).len() == 32,
        scalar_of(scalar_bytes(v)) == Some(v),
{
    lemma_le_digits_len(v, 32);
    lemma_modulus_fits();
    lemma_le_digits_value(v, 32);
    assert(scalar_bytes(v).reverse() =~= le_digits(v, 32));
}

/// Appends a field element.
pub fn put_scalar(out: &mut Vec<u8>, x: &Scalar)
    ensures
        final(out)@ == old(out)@ + scalar_bytes(x.value()),
{
    let le = x.to_le_bytes();
    proof {
        lemma_le_digits_unique(le@);
    }
    let mut k: usize = 32;
    while k > 0
        invariant
            k <= 32,
            le@.len() == 32,
            out@ == old(out)@ + le@.reverse().subrange(0, 32 - k),
        decreases k,
    {
        k -= 1;
        out.push(le[k]);
        assert(out@ =~= old(out)@ + le@.reverse().subrange(0, 32 - k));
    }
    assert(le@.reverse().subrange(0, 32) =~= le@.reverse());
}

/// The field element that the 32 bytes from `at` on stand for, if their
/// number is below the modulus.
pub fn get_scalar(bytes: &[u8], at: usize) -> (x: Option<Scalar>)
    requires
        at + 32 <= bytes@.len(),
    ensures
        match x {
            Some(s) => scalar_of(bytes@.subrange(at as int, at + 32)) == Some(s.value()),
            None => scalar_of(bytes@.subrange(at as int, at + 32)).is_none(),
        },
{
    let ghost b = bytes@.subrange(at as int, at + 32);
    assert(bytes@.len() == bytes.len());
    let mut le = [0u8; 32];
    let mut k: usize = 0;
    while k < 32
        invariant
            k <= 32,
            at + 32 <= bytes@.len(),
            at + 32 <= usize::MAX,
            b == bytes@.subrange(at as int, at + 32),
            forall|j: int| 0 <= j < k ==> le@[j] == b[31 - j],
        decreases 32 - k,
    {
        le[k] = bytes[at + 31 - k];
        k += 1;
    }
    assert(le@ =~= b.reverse());
    Scalar::from_le_bytes(&le)
}

/// The points of a row, one after the other.
pub open spec fn row_bytes(row: Seq<Seq<u8>>) -> Seq<u8>
    decreases row.len(),
{
    if row.len() == 0 {
        Seq::empty()
    } else {
        row_bytes(row.drop_last()) + row.last()
    }
}

/// The `k`-th run of 97 bytes.
pub open spec fn point_at(b: Seq<u8>, k: int) -> Seq<u8> {
    b.subrange(k * 97, k * 97 + 97)
}

/// The row of `cols` points that the bytes hold, if they hold just that:
/// `cols` encodings of points of the group.
pub open spec fn row_of(b: Seq<u8>, cols: nat) -> Option<Seq<Seq<u8>>> {
    if b.len() == cols * 97 && forall|k: int| 0 <= k < cols ==> valid_encoding(
        #[trigger] point_at(b, k),
    ) {
        Some(Seq::new(cols, |k: int| point_at(b, k)))
    } else {
        None
    }
}

/// Every entry of the row is the encoding of a point of the group.
pub open spec fn valid_row(row: Seq<Seq<u8>>) -> bool {
    forall|k: int| 0 <= k < row.len() ==> valid_encoding(#[trigger] row[k])
}

/// The bytes of a row of points have 97 bytes for each point.
pub proof fn lemma_row_bytes_len(row: Seq<Seq<u8>>)
    requires
        valid_row(row),
    ensures
        row_bytes(row).len() == row.len() * 97,
    decreases row.len(),
{
    if row.len() > 0 {
        let init = row.drop_last();
        assert(valid_row(init)) by {
            assert forall|k: int| 0 <= k < init.len() implies valid_encoding(
                #[trigger] init[k],
            ) by {
                assert(init[k] == row[k]);
            }
        }
        lemma_row_bytes_len(init);
        assert(valid_encoding(row[row.len() - 1]));
    }
}

/// Each point of a row is found again at its place in the bytes of the row.
pub proof fn lemma_row_bytes_point(row: Seq<Seq<u8>>, k: int)
    requires
        valid_row(row),
        0 <= k < row.len(),
    ensures
        point_at(row_bytes(row), k) == row[k],
    decreases row.len(),
{
    let init = row.drop_last();
    assert(valid_row(init)) by {
        assert forall|j: int| 0 <= j < init.len() implies valid_encoding(#[trigger] init[j]) by {
            assert(init[j] == row[j]);
        }
    }
    lemma_row_bytes_len(init);
    lemma_row_bytes_len(row);
    assert(valid_encoding(row[row.len() - 1]));
    if k < row.len() - 1 {
        lemma_row_bytes_point(init, k);
        assert(point_at(row_bytes(row), k) =~= point_at(row_bytes(init), k));
        assert(init[k] == row[k]);
    } else {
        assert(point_at(row_bytes(row), k) =~= row.last());
    }
}

/// Reading the bytes of a row of points gives the row back.
pub proof fn lemma_row_round_trip(row: Seq<Seq<u8>>)
    requires
        valid_row(row),
    ensures
        row_bytes(row).len() == row.len() * 97,
        row_of(row_bytes(row), row.len()) == Some(row),
{
    let b = row_bytes(row);
    lemma_row_bytes_len(row);
    assert forall|k: int| 0 <= k < row.len() implies valid_encoding(#[trigger] point_at(b, k))
        && point_at(b, k) == row[k] by {
        lemma_row_bytes_point(row, k);
    }
    assert(Seq::new(row.len(), |k: int| point_at(b, k)) =~= row);
}

/// The rows of a matrix, one after the other.
pub open spec fn rows_bytes(c: CommitmentView) -> Seq<u8>
    decreases c.len(),
{
    if c.len() == 0 {
        Seq::empty()
    } else {
        row_bytes(c[0]) + rows_bytes(c.drop_first())
    }
}

/// The matrix of `n` rows of `cols` points that the bytes hold, if they hold
/// just that.
pub open spec fn rows_of(b: Seq<u8>, n: nat, cols: nat) -> Option<CommitmentView>
    decreases n,
{
    if n == 0 {
        if b.len() == 0 {
            Some(Seq::empty())
        } else {
            None
        }
    } else if b.len() < cols * 97 {
        None
    } else {
        match (
            row_of(b.take((cols * 97) as int), cols),
            rows_of(b.skip((cols * 97) as int), (n - 1) as nat, cols),
        ) {
            (Some(row), Some(rest)) => Some(seq![row] + rest),
            _ => None,
        }
    }
}

/// Every row has `cols` entries, each the encoding of a point of the group.
pub open spec fn valid_matrix(c: CommitmentView, cols: nat) -> bool {
    forall|m: int| 0 <= m < c.len() ==> (#[trigger] c[m]).len() == cols && valid_row(c[m])
}

/// The bytes of a matrix have 97 bytes for each point.
pub proof fn lemma_rows_bytes_len(c: CommitmentView, cols: nat)
    requires
        valid_matrix(c, cols),
    ensures
        rows_bytes(c).len() == c.len() * (cols * 97),
    decreases c.len(),
{
    if c.len() > 0 {
        let rest = c.drop_first();
        assert(valid_matrix(rest, cols)) by {
            assert forall|m: int| 0 <= m < rest.len() implies (#[trigger] rest[m]).len() == cols
                && valid_row(rest[m]) by {
                assert(rest[m] == c[m + 1]);
            }
        }
        lemma_rows_bytes_len(rest, cols);
        lemma_row_bytes_len(c[0]);
        let w = (cols * 97) as int;
        let n = c.len() as int;
        assert(w + (n - 1) * w == n * w) by (nonlinear_arith);
    }
}

/// Reading the bytes of a matrix gives the matrix back.
pub proof fn lemma_rows_round_trip(c: CommitmentView, cols: nat)
    requires
        valid_matrix(c, cols),
    ensures
        rows_of(rows_bytes(c), c.len(), cols) == Some(c),
    decreases c.len(),
{
    if c.len() > 0 {
        let rest = c.drop_first();
        assert(valid_matrix(rest, cols)) by {
            assert forall|m: int| 0 <= m < rest.len() implies (#[trigger] rest[m]).len() == cols
                && valid_row(rest[m]) by {
                assert(rest[m] == c[m + 1]);
            }
        }
        lemma_rows_round_trip(rest, cols);
        lemma_row_round_trip(c[0]);
        let b = rows_bytes(c);
        let w = (cols * 97) as int;
        assert(b.take(w) =~= row_bytes(c[0]));
        assert(b.skip(w) =~= rows_bytes(rest));
        assert(seq![c[0]] + rest =~= c);
    }
}

/// The number of columns of a matrix: the length of its first row, and zero
/// for a matrix without rows.
pub open spec fn columns(c: CommitmentView) -> nat {
    if c.len() == 0 {
        0
    } else {
        c[0].len()
    }
}

/// A matrix on the wire: the number of rows, the number of columns and the
/// length of a point, then the rows.
pub open spec fn commitment_bytes(c: CommitmentView) -> Seq<u8> {
    be32(c.len()) + be32(columns(c)) + be32(97) + rows_bytes(c)
}

/// The matrix that the bytes on the wire stand for, if they stand for one.
/// A matrix with rows has columns, and one without rows is written with no
/// columns.
pub open spec fn commitment_of(b: Seq<u8>) -> Option<CommitmentView> {
    if b.len() < 12 || be32_value(b.subrange(8, 12)) != 97 {
        None
    } else {
        let n = be32_value(b.subrange(0, 4));
        let cols = be32_value(b.subrange(4, 8));
        if (n == 0) != (cols == 0) {
            None
        } else {
            rows_of(b.skip(12), n, cols)
        }
    }
}

/// The matrix can be written: its rows have the same length, which is not
/// zero, its entries are encodings of points of the group, and its
/// dimensions fit.
pub open spec fn writable_matrix(c: CommitmentView) -> bool {
    &&& c.len() <= u32::MAX
    &&& columns(c) <= u32::MAX
    &&& (c.len() == 0) == (columns(c) == 0)
    &&& valid_matrix(c, columns(c))
}

/// Reading the bytes of a matrix on the wire gives the matrix back.
pub proof fn lemma_commitment_round_trip(c: CommitmentView)
    requires
        writable_matrix(c),
    ensures
        commitment_of(commitment_bytes(c)) == Some(c),
        commitment_bytes(c).len() == 12 + c.len() * (columns(c) * 97),
{
    let b = commitment_bytes(c);
    lemma_be32_round_trip(c.len());
    lemma_be32_round_trip(columns(c));
    lemma_be32_round_trip(97);
    lemma_rows_bytes_len(c, columns(c));
    lemma_rows_round_trip(c, columns(c));
    assert(b.subrange(0, 4) =~= be32(c.len()));
    assert(b.subrange(4, 8) =~= be32(columns(c)));
    assert(b.subrange(8, 12) =~= be32(97));
    assert(b.skip(12) =~= rows_bytes(c));
}

/// Field elements on the wire, one after the other.
pub open spec fn scalars_bytes(vs: Seq<nat>) -> Seq<u8>
    decreases vs.len(),
{
    if vs.len() == 0 {
        Seq::empty()
    } else {
        scalars_bytes(vs.drop_last()) + scalar_bytes(vs.last())
    }
}

/// The `k`-th run of 32 bytes.
pub open spec fn scalar_at(b: Seq<u8>, k: int) -> Seq<u8> {
    b.subrange(k * 32, k * 32 + 32)
}

/// The field elements that the bytes hold, if they hold just field
/// elements.
pub open spec fn scalars_of(b: Seq<u8>) -> Option<Seq<nat>> {
    if b.len() % 32 == 0 && forall|k: int|
        0 <= k < b.len() / 32 ==> scalar_of(#[trigger] scalar_at(b, k)).is_some() {
        Some(Seq::new(b.len() / 32, |k: int| scalar_of(scalar_at(b, k)).unwrap()))
    } else {
        None
    }
}

/// Every number is below the modulus.
pub open spec fn all_reduced(vs: Seq<nat>) -> bool {
    forall|k: int| 0 <= k < vs.len() ==> #[trigger] vs[k] < modulus()
}

/// The bytes of field elements have 32 bytes for each, and each element is
/// found again at its place.
pub proof fn lemma_scalars_bytes(vs: Seq<nat>, k: int)
    requires
        all_reduced(vs),
    ensures
        scalars_bytes(vs).len() == vs.len() * 32,
        0 <= k < vs.len() ==> scalar_at(scalars_bytes(vs), k) == scalar_bytes(vs[k]),
    decreases vs.len(),
{
    if vs.len() > 0 {
        let init = vs.drop_last();
        assert(all_reduced(init)) by {
            assert forall|j: int| 0 <= j < init.len() implies #[trigger] init[j] < modulus() by {
                assert(init[j] == vs[j]);
            }
        }
        lemma_scalars_bytes(init, k);
        lemma_scalar_round_trip(vs.last());
        if 0 <= k < vs.len() - 1 {
            assert(scalar_at(scalars_bytes(vs), k) =~= scalar_at(scalars_bytes(init), k));
            assert(init[k] == vs[k]);
        } else if k == vs.len() - 1 {
            assert(scalar_at(scalars_bytes(vs), k) =~= scalar_bytes(vs.last()));
        }
    }
}

/// Reading the bytes of field elements gives the elements back.
pub proof fn lemma_scalars_round_trip(vs: Seq<nat>)
    requires
        all_reduced(vs),
    ensures
        scalars_bytes(vs).len() == vs.len() * 32,
        scalars_of(scalars_bytes(vs)) == Some(vs),
{
    let b = scalars_bytes(vs);
    lemma_scalars_bytes(vs, 0);
    assert forall|k: int| 0 <= k < vs.len() implies scalar_of(#[trigger] scalar_at(b, k)) == Some(
        vs[k],
    ) by {
        lemma_scalars_bytes(vs, k);
        lemma_scalar_round_trip(vs[k]);
    }
    assert(Seq::new(b.len() / 32, |k: int| scalar_of(scalar_at(b, k)).unwrap()) =~= vs);
}

/// A message on the wire: the kind, then the matrix and the payload, each
/// with its length before it.
pub open spec fn frame(kind: u8, matrix: Seq<u8>, payload: Seq<u8>) -> Seq<u8> {
    seq![kind] + be32(matrix.len()) + matrix + be32(payload.len()) + payload
}

/// The kind, the bytes of the matrix and the bytes of the payload of a
/// message on the wire, if the bytes are framed as a message is.
pub open spec fn unframe(b: Seq<u8>) -> Option<(u8, Seq<u8>, Seq<u8>)> {
    if b.len() < 5 {
        None
    } else {
        let first = be32_value(b.subrange(1, 5)) as int;
        if b.len() < 9 + first {
            None
        } else {
            let second = be32_value(b.subrange(5 + first, 9 + first)) as int;
            if b.len() != 9 + first + second {
                None
            } else {
                Some((b[0], b.subrange(5, 5 + first), b.subrange(9 + first, 9 + first + second)))
            }
        }
    }
}

/// Taking the frame of a message apart gives its parts back.
pub proof fn lemma_frame_round_trip(kind: u8, matrix: Seq<u8>, payload: Seq<u8>)
    requires
        matrix.len() <= u32::MAX,
        payload.len() <= u32::MAX,
    ensures
        unframe(frame(kind, matrix, payload)) == Some((kind, matrix, payload)),
        frame(kind, matrix, payload).len() == 9 + matrix.len() + payload.len(),
{
    let b = frame(kind, matrix, payload);
    let first = matrix.len() as int;
    let second = payload.len() as int;
    lemma_be32_round_trip(matrix.len());
    lemma_be32_round_trip(payload.len());
    assert(b.subrange(1, 5) =~= be32(matrix.len()));
    assert(b.subrange(5, 5 + first) =~= matrix);
    assert(b.subrange(5 + first, 9 + first) =~= be32(payload.len()));
    assert(b.subrange(9 + first, 9 + first + second) =~= payload);
}

/// The kind byte of a Send.
pub const KIND_SEND: u8 = 1;

/// The kind byte of an Echo.
pub const KIND_ECHO: u8 = 2;

/// The kind byte of a Ready.
pub const KIND_READY: u8 = 3;

/// The kind byte of a Shared.
pub const KIND_SHARED: u8 = 4;

/// The content of a message of any kind.
pub enum WireModel {
    Send(SendModel),
    Echo(MessageModel),
    Ready(MessageModel),
    Shared(SharedModel),
}

impl WireModel {
    /// The kind byte.
    pub open spec fn kind(self) -> u8 {
        match self {
            WireModel::Send(_) => KIND_SEND,
            WireModel::Echo(_) => KIND_ECHO,
            WireModel::Ready(_) => KIND_READY,
            WireModel::Shared(_) => KIND_SHARED,
        }
    }

    /// The commitment matrix.
    pub open spec fn commitment(self) -> CommitmentView {
        match self {
            WireModel::Send(m) => m.commitment,
            WireModel::Echo(m) => m.commitment,
            WireModel::Ready(m) => m.commitment,
            WireModel::Shared(m) => m.commitment,
        }
    }

    /// The field elements of the payload.
    pub open spec fn elements(self) -> Seq<nat> {
        match self {
            WireModel::Send(m) => m.coefficients,
            WireModel::Echo(m) => seq![m.alpha],
            WireModel::Ready(m) => seq![m.alpha],
            WireModel::Shared(m) => seq![m.share],
        }
    }

    /// The message can be written: the matrix can, the field elements are
    /// below the modulus, and the lengths of the two fields fit.
    pub open spec fn writable(self) -> bool {
        &&& writable_matrix(self.commitment())
        &&& all_reduced(self.elements())
        &&& 12 + self.commitment().len() * (columns(self.commitment()) * 97) <= u32::MAX
        &&& self.elements().len() * 32 <= u32::MAX
    }

    /// The message on the wire.
    pub open spec fn bytes(self) -> Seq<u8> {
        frame(self.kind(), commitment_bytes(self.commitment()), scalars_bytes(self.elements()))
    }
}

/// The message that the bytes on the wire stand for, if they stand for one:
/// the frame is that of a message, the kind is known, the matrix is one of
/// points of the group, and the payload is one field element, or for a Send
/// any number of them.
pub open spec fn message_of(b: Seq<u8>) -> Option<WireModel> {
    match unframe(b) {
        None => None,
        Some((kind, matrix, payload)) => match (commitment_of(matrix), scalars_of(payload)) {
            (Some(commitment), Some(elements)) => if kind == KIND_SEND {
                Some(WireModel::Send(SendModel { commitment, coefficients: elements }))
            } else if elements.len() != 1 {
                None
            } else if kind == KIND_ECHO {
                Some(WireModel::Echo(MessageModel { commitment, alpha: elements[0] }))
            } else if kind == KIND_READY {
                Some(WireModel::Ready(MessageModel { commitment, alpha: elements[0] }))
            } else if kind == KIND_SHARED {
                Some(WireModel::Shared(SharedModel { commitment, share: elements[0] }))
            } else {
                None
            },
            _ => None,
        },
    }
}

/// Writing and reading is the identity: the bytes of a message that can be
/// written stand for that message.
pub proof fn lemma_message_round_trip(m: WireModel)
    requires
        m.writable(),
    ensures
        message_of(m.bytes()) == Some(m),
{
    let matrix = commitment_bytes(m.commitment());
    let payload = scalars_bytes(m.elements());
    lemma_commitment_round_trip(m.commitment());
    lemma_scalars_round_trip(m.elements());
    lemma_frame_round_trip(m.kind(), matrix, payload);
}

/// A message of any kind.
#[derive(Clone, Debug)]
pub enum Message {
    Send(Send),
    Echo(Echo),
    Ready(Ready),
    Shared(Shared),
}

impl View for Message {
    type V = WireModel;

    open spec fn view(&self) -> WireModel {
        match *self {
            Message::Send(m) => WireModel::Send(m@),
            Message::Echo(m) => WireModel::Echo(m@),
            Message::Ready(m) => WireModel::Ready(m@),
            Message::Shared(m) => WireModel::Shared(m@),
        }
    }
}

/// The bytes of a matrix with a further row are those of the matrix
/// followed by those of the row.
pub proof fn lemma_rows_bytes_push(c: CommitmentView, row: Seq<Seq<u8>>)
    ensures
        rows_bytes(c.push(row)) == rows_bytes(c) + row_bytes(row),
    decreases c.len(),
{
    let longer = c.push(row);
    if c.len() == 0 {
        assert(longer[0] == row);
        assert(longer.drop_first() =~= Seq::<Seq<Seq<u8>>>::empty());
        assert(rows_bytes(longer.drop_first()) =~= Seq::<u8>::empty());
        assert(rows_bytes(longer) =~= row_bytes(row));
    } else {
        lemma_rows_bytes_push(c.drop_first(), row);
        assert(longer.drop_first() =~= c.drop_first().push(row));
        assert(rows_bytes(longer) =~= rows_bytes(c) + row_bytes(row));
    }
}

/// Appends the points of a row.
fn put_row(out: &mut Vec<u8>, row: &Vec<G1Point>)
    ensures
        final(out)@ == old(out)@ + row_bytes(row_view(row@)),
        valid_row(row_view(row@)),
{
    let ghost r = row_view(row@);
    let mut k: usize = 0;
    assert(r.take(0) =~= Seq::<Seq<u8>>::empty());
    while k < row.len()
        invariant
            k <= row.len(),
            r == row_view(row@),
            out@ == old(out)@ + row_bytes(r.take(k as int)),
            forall|j: int| 0 <= j < k ==> valid_encoding(#[trigger] r[j]),
        decreases row.len() - k,
    {
        let point = &row[k];
        proof {
            use_type_invariant(point);
            point.lemma_valid();
            assert(r.take(k + 1).drop_last() =~= r.take(k as int));
            assert(r.take(k + 1).last() == r[k as int]);
        }
        append(out, point.as_bytes());
        k += 1;
        assert(out@ =~= old(out)@ + row_bytes(r.take(k as int)));
    }
    assert(r.take(row.len() as int) =~= r);
}

/// Appends a matrix, or reports that it cannot be written: that it has rows
/// of different lengths, rows without entries, or too many rows or columns.
/// What was appended to `out` in that case is of no use.
fn put_commitment(out: &mut Vec<u8>, c: &Commitment) -> (ok: bool)
    ensures
        ok == writable_matrix(c@),
        ok ==> final(out)@ == old(out)@ + commitment_bytes(c@),
{
    let n = c.rows.len();
    let cols = if n == 0 {
        0
    } else {
        c.rows[0].len()
    };
    assert(cols == columns(c@));
    if n > u32::MAX as usize || cols > u32::MAX as usize || (n == 0) != (cols == 0) {
        return false;
    }
    put_u32(out, n as u32);
    put_u32(out, cols as u32);
    put_u32(out, 97);
    let ghost base = out@;
    assert(base =~= old(out)@ + be32(n as nat) + be32(cols as nat) + be32(97));
    let mut m: usize = 0;
    assert(c@.take(0) =~= Seq::<Seq<Seq<u8>>>::empty());
    while m < n
        invariant
            m <= n,
            n == c.rows@.len(),
            cols == columns(c@),
            out@ == base + rows_bytes(c@.take(m as int)),
            forall|j: int| 0 <= j < m ==> (#[trigger] c@[j]).len() == cols && valid_row(c@[j]),
        decreases n - m,
    {
        let row = &c.rows[m];
        if row.len() != cols {
            assert(c@[m as int].len() != cols);
            assert(!valid_matrix(c@, columns(c@)));
            return false;
        }
        put_row(out, row);
        proof {
            lemma_rows_bytes_push(c@.take(m as int), c@[m as int]);
            assert(c@.take(m + 1) =~= c@.take(m as int).push(c@[m as int]));
        }
        m += 1;
        assert(out@ =~= base + rows_bytes(c@.take(m as int)));
    }
    assert(c@.take(n as int) =~= c@);
    assert(out@ =~= old(out)@ + commitment_bytes(c@));
    true
}

/// Appends field elements.
fn put_scalars(out: &mut Vec<u8>, elements: &Vec<Scalar>)
    ensures
        final(out)@ == old(out)@ + scalars_bytes(values_of_scalars(elements@)),
        all_reduced(values_of_scalars(elements@)),
{
    let ghost vs = values_of_scalars(elements@);
    let mut k: usize = 0;
    assert(vs.take(0) =~= Seq::<nat>::empty());
    while k < elements.len()
        invariant
            k <= elements.len(),
            vs == values_of_scalars(elements@),
            out@ == old(out)@ + scalars_bytes(vs.take(k as int)),
            forall|j: int| 0 <= j < k ==> #[trigger] vs[j] < modulus(),
        decreases elements.len() - k,
    {
        let element = &elements[k];
        proof {
            use_type_invariant(element);
            element.lemma_value_bound();
            assert(vs.take(k + 1).drop_last() =~= vs.take(k as int));
            assert(vs.take(k + 1).last() == vs[k as int]);
        }
        put_scalar(out, element);
        k += 1;
        assert(out@ =~= old(out)@ + scalars_bytes(vs.take(k as int)));
    }
    assert(vs.take(elements.len() as int) =~= vs);
}

/// The representatives of a list of field elements.
pub open spec fn values_of_scalars(s: Seq<Scalar>) -> Seq<nat> {
    Seq::new(s.len(), |k: int| s[k].value())
}

/// Appends a message framed from its kind, its matrix and its field
/// elements, or reports that it cannot be written.
fn put_message(out: &mut Vec<u8>, kind: u8, c: &Commitment, elements: &Vec<Scalar>) -> (ok: bool)
    requires
        old(out)@.len() == 0,
    ensures
        ok == (writable_matrix(c@) && 12 + c@.len() * (columns(c@) * 97) <= u32::MAX
            && elements@.len() * 32 <= u32::MAX),
        all_reduced(values_of_scalars(elements@)),
        ok ==> final(out)@ == frame(
            kind,
            commitment_bytes(c@),
            scalars_bytes(values_of_scalars(elements@)),
        ),
{
    let mut matrix: Vec<u8> = Vec::new();
    let writable = put_commitment(&mut matrix, c);
    let mut payload: Vec<u8> = Vec::new();
    put_scalars(&mut payload, elements);
    proof {
        lemma_scalars_round_trip(values_of_scalars(elements@));
    }
    if !writable {
        return false;
    }
    proof {
        lemma_commitment_round_trip(c@);
    }
    assert(matrix@ =~= commitment_bytes(c@));
    assert(payload@ =~= scalars_bytes(values_of_scalars(elements@)));
    if matrix.len() > u32::MAX as usize || payload.len() > u32::MAX as usize {
        return false;
    }
    out.push(kind);
    put_u32(out, matrix.len() as u32);
    append(out, matrix.as_slice());
    put_u32(out, payload.len() as u32);
    append(out, payload.as_slice());
    assert(out@ =~= frame(kind, matrix@, payload@));
    true
}

/// The bytes of a message on the wire, or `None` where the message cannot be
/// written.
pub fn encode(message: &Message) -> (out: Option<Vec<u8>>)
    ensures
        match out {
            Some(b) => message@.writable() && b@ == message@.bytes(),
            None => !message@.writable(),
        },
{
    let mut out: Vec<u8> = Vec::new();
    let ok = match message {
        Message::Send(m) => {
            assert(message@.elements() =~= values_of_scalars(m.a@));
            put_message(&mut out, KIND_SEND, &m.C, &m.a)
        },
        Message::Echo(m) => {
            let mut elements: Vec<Scalar> = Vec::new();
            elements.push(m.alpha);
            assert(message@.elements() =~= values_of_scalars(elements@));
            put_message(&mut out, KIND_ECHO, &m.C, &elements)
        },
        Message::Ready(m) => {
            let mut elements: Vec<Scalar> = Vec::new();
            elements.push(m.alpha);
            assert(message@.elements() =~= values_of_scalars(elements@));
            put_message(&mut out, KIND_READY, &m.C, &elements)
        },
        Message::Shared(m) => {
            let mut elements: Vec<Scalar> = Vec::new();
            elements.push(m.s);
            assert(message@.elements() =~= values_of_scalars(elements@));
            put_message(&mut out, KIND_SHARED, &m.C, &elements)
        },
    };
    if ok {
        Some(out)
    } else {
        None
    }
}

/// The field elements that the bytes hold, if they hold just field
/// elements.
fn get_scalars(bytes: &[u8]) -> (elements: Option<Vec<Scalar>>)
    ensures
        match elements {
            Some(v) => scalars_of(bytes@) == Some(values_of_scalars(v@)),
            None => scalars_of(bytes@).is_none(),
        },
{
    if bytes.len() % 32 != 0 {
        return None;
    }
    let count = bytes.len() / 32;
    let mut elements: Vec<Scalar> = Vec::new();
    let mut k: usize = 0;
    while k < count
        invariant
            k <= count,
            count == bytes@.len() / 32,
            bytes@.len() % 32 == 0,
            bytes@.len() <= usize::MAX,
            elements@.len() == k,
            forall|j: int|
                0 <= j < k ==> scalar_of(#[trigger] scalar_at(bytes@, j)) == Some(
                    elements@[j].value(),
                ),
        decreases count - k,
    {
        assert(k * 32 + 32 <= bytes@.len()) by {
            assert(bytes@.len() == 32 * (bytes@.len() / 32));
        }
        match get_scalar(bytes, k * 32) {
            Some(element) => {
                elements.push(element);
            },
            None => {
                assert(scalar_of(scalar_at(bytes@, k as int)).is_none());
                return None;
            },
        }
        k += 1;
    }
    assert(values_of_scalars(elements@) =~= Seq::new(
        bytes@.len() / 32,
        |j: int| scalar_of(scalar_at(bytes@, j)).unwrap(),
    ));
    Some(elements)
}

/// The point that the 97 bytes from `at` on encode, if they encode a point
/// of the group.
fn get_point(bytes: &[u8], at: usize) -> (point: Option<G1Point>)
    requires
        at + 97 <= bytes@.len(),
    ensures
        point.is_some() == valid_encoding(bytes@.subrange(at as int, at + 97)),
        point.is_some() ==> point.unwrap()@ == bytes@.subrange(at as int, at + 97),
{
    let ghost b = bytes@.subrange(at as int, at + 97);
    assert(bytes@.len() == bytes.len());
    let mut encoded = [0u8; 97];
    let mut k: usize = 0;
    while k < 97
        invariant
            k <= 97,
            at + 97 <= bytes@.len(),
            at + 97 <= usize::MAX,
            b == bytes@.subrange(at as int, at + 97),
            forall|j: int| 0 <= j < k ==> encoded@[j] == b[j],
        decreases 97 - k,
    {
        encoded[k] = bytes[at + k];
        k += 1;
    }
    assert(encoded@ =~= b);
    G1Point::from_bytes(&encoded)
}

/// The rows read so far followed by the rows still to read, if those can be
/// read.
pub open spec fn followed_by(read: CommitmentView, rest: Option<CommitmentView>) -> Option<
    CommitmentView,
> {
    match rest {
        Some(rows) => Some(read + rows),
        None => None,
    }
}

/// The encodings of the rows of a matrix.
pub open spec fn rows_view(rows: Seq<Vec<G1Point>>) -> CommitmentView {
    Seq::new(rows.len(), |m: int| row_view(rows[m]@))
}

/// The matrix that the bytes on the wire stand for, if they stand for one.
fn get_commitment(bytes: &[u8]) -> (c: Option<Commitment>)
    ensures
        match c {
            Some(matrix) => commitment_of(bytes@) == Some(matrix@),
            None => commitment_of(bytes@).is_none(),
        },
{
    let len = bytes.len();
    if len < 12 {
        return None;
    }
    let n = get_u32(bytes, 0);
    let cols = get_u32(bytes, 4);
    let point_len = get_u32(bytes, 8);
    if point_len != 97 || (n == 0) != (cols == 0) {
        return None;
    }
    let width: u64 = cols as u64 * 97;
    let ghost body = bytes@.skip(12);
    let mut rows: Vec<Vec<G1Point>> = Vec::new();
    let mut at: usize = 12;
    let mut m: u32 = 0;
    proof {
        match rows_of(body, n as nat, cols as nat) {
            Some(all) => {
                assert(rows_view(rows@) + all =~= all);
            },
            None => {},
        }
    }
    while m < n
        invariant
            m <= n,
            12 <= at <= len,
            len == bytes@.len(),
            width == cols * 97,
            rows@.len() == m,
            commitment_of(bytes@) == followed_by(
                rows_view(rows@),
                rows_of(bytes@.skip(at as int), (n - m) as nat, cols as nat),
            ),
        decreases n - m,
    {
        let ghost rest = bytes@.skip(at as int);
        if ((len - at) as u64) < width {
            return None;
        }
        let ghost row_bytes_here = rest.take(width as int);
        let mut row: Vec<G1Point> = Vec::new();
        let mut k: u32 = 0;
        while k < cols
            invariant
                k <= cols,
                m < n,
                12 <= at,
                at + width <= len,
                len == bytes@.len(),
                width == cols * 97,
                rest == bytes@.skip(at as int),
                row_bytes_here == rest.take(width as int),
                commitment_of(bytes@) == followed_by(
                    rows_view(rows@),
                    rows_of(rest, (n - m) as nat, cols as nat),
                ),
                row@.len() == k,
                forall|j: int|
                    0 <= j < k ==> valid_encoding(#[trigger] point_at(row_bytes_here, j))
                        && row@[j]@ == point_at(row_bytes_here, j),
            decreases cols - k,
        {
            let offset = at + (k as usize) * 97;
            assert(point_at(row_bytes_here, k as int) =~= bytes@.subrange(
                offset as int,
                offset + 97,
            ));
            match get_point(bytes, offset) {
                Some(point) => {
                    row.push(point);
                },
                None => {
                    assert(!valid_encoding(point_at(row_bytes_here, k as int)));
                    assert(row_of(row_bytes_here, cols as nat).is_none());
                    return None;
                },
            }
            k += 1;
        }
        proof {
            assert(row_view(row@) =~= Seq::new(
                cols as nat,
                |j: int| point_at(row_bytes_here, j),
            ));
            assert(row_of(row_bytes_here, cols as nat) == Some(row_view(row@)));
            let after = rest.skip(width as int);
            assert(after =~= bytes@.skip(at + width));
            let before = rows_view(rows@);
            let tail = rows_of(after, (n - m - 1) as nat, cols as nat);
            match tail {
                Some(t) => {
                    assert(before + (seq![row_view(row@)] + t) =~= before.push(row_view(row@))
                        + t);
                },
                None => {},
            }
            assert(rows_view(rows@.push(row)) =~= before.push(row_view(row@)));
        }
        rows.push(row);
        at = at + width as usize;
        m += 1;
    }
    if at != len {
        assert(bytes@.skip(at as int).len() != 0);
        return None;
    }
    let c = Commitment { rows };
    assert(bytes@.skip(at as int) =~= Seq::<u8>::empty());
    assert(c@ =~= rows_view(c.rows@) + Seq::<Seq<Seq<u8>>>::empty());
    Some(c)
}

/// The message that the bytes on the wire stand for, if they stand for one.
pub fn decode(bytes: &[u8]) -> (m: Option<Message>)
    ensures
        match m {
            Some(message) => message_of(bytes@) == Some(message@),
            None => message_of(bytes@).is_none(),
        },
{
    let len = bytes.len();
    if len < 5 {
        return None;
    }
    let first = get_u32(bytes, 1);
    if (len as u64) < 9 + first as u64 {
        return None;
    }
    let matrix_end: usize = 5 + first as usize;
    let second = get_u32(bytes, matrix_end);
    if len as u64 != 9 + first as u64 + second as u64 {
        return None;
    }
    let kind = bytes[0];
    let matrix = slice_subrange(bytes, 5, matrix_end);
    let payload = slice_subrange(bytes, matrix_end + 4, len);
    assert(unframe(bytes@) == Some((kind, matrix@, payload@)));
    let commitment = match get_commitment(matrix) {
        Some(c) => c,
        None => {
            return None;
        },
    };
    let mut elements = match get_scalars(payload) {
        Some(v) => v,
        None => {
            return None;
        },
    };
    if kind == KIND_SEND {
        return Some(Message::Send(Send { C: commitment, a: elements }));
    }
    if elements.len() != 1 {
        return None;
    }
    let element = elements[0];
    if kind == KIND_ECHO {
        Some(Message::Echo(Echo { C: commitment, alpha: element }))
    } else if kind == KIND_READY {
        Some(Message::Ready(Ready { C: commitment, alpha: element }))
    } else if kind == KIND_SHARED {
        Some(Message::Shared(Shared { C: commitment, s: element }))
    } else {
        None
    }
}

} // verus!
