//! Non-interactive zero-knowledge proofs: equality of discrete logarithms on
//! Curve25519 and on the pairing curve, and knowledge of a discrete logarithm.
//!
//! Each proof is a sigma protocol made non-interactive by hashing its
//! transcript. The prover's nonce is the only randomness; every function
//! that takes the nonce as an argument is deterministic.

#![allow(non_camel_case_types)]

use crate::bls12_381::fr::{
    add_mod, fr_mul, fr_sub, modulus, mul_mod, sub_mod, Scalar,
};
use crate::bls12_381::g1::{add_spec, mul_spec, scalar_law_at, G1Point};
use crate::bls12_381::reduction::{
    lemma_add_reduce, lemma_reduce_bound, lemma_reduce_small, lemma_sub_reduce,
};
use crate::curve25519::{
    edwards_add_spec, edwards_lift_spec, edwards_mul_spec, edwards_to_montgomery_spec,
    group_order, montgomery_mul_spec, EdwardsPoint, MontgomeryPoint, Scalar25519,
};
use crate::encoding::{append, bytes_eq, le_value};
use crate::hash::{digest32, digest32_spec};
use rand::rngs::StdRng;
use vstd::arithmetic::div_mod::lemma_sub_mod_noop_right;
use vstd::prelude::*;

verus! {

/// The largest number of times that a challenge is hashed again when its
/// digest is not a field element.
pub const MAX_RETRIES: u8 = 255;

/// What is hashed at a given attempt: the transcript itself at first, and
/// the transcript followed by the attempt's number at every retry.
pub open spec fn attempt_input(transcript: Seq<u8>, attempt: nat) -> Seq<u8> {
    if attempt == 0 {
        transcript
    } else {
        transcript.push(attempt as u8)
    }
}

/// The challenge that the attempts from `attempt` on give: the first digest
/// that is a field element, and the last digest reduced if none is.
pub open spec fn challenge_from(transcript: Seq<u8>, attempt: nat) -> nat
    decreases MAX_RETRIES - attempt,
{
    let digest = digest32_spec(attempt_input(transcript, attempt));
    if le_value(digest) < modulus() {
        le_value(digest)
    } else if attempt >= MAX_RETRIES {
        le_value(digest) % modulus()
    } else {
        challenge_from(transcript, attempt + 1)
    }
}

/// The field element that a transcript is hashed to.
pub open spec fn challenge_spec(transcript: Seq<u8>) -> nat {
    challenge_from(transcript, 0)
}

/// Hashes a transcript to a field element by rejection sampling: a digest
/// that is no field element is replaced by the digest of the transcript
/// followed by a counter.
pub fn challenge(transcript: &Vec<u8>) -> (c: Scalar)
    ensures
        c.value() == challenge_spec(transcript@),
{
    let mut attempt: u8 = 0;
    let mut digest = digest32(transcript.as_slice());
    loop
        invariant
            digest@ == digest32_spec(attempt_input(transcript@, attempt as nat)),
            challenge_spec(transcript@) == challenge_from(transcript@, attempt as nat),
        decreases MAX_RETRIES - attempt,
    {
        match Scalar::from_le_bytes(&digest) {
            Some(c) => {
                return c;
            },
            None => {},
        }
        if attempt == MAX_RETRIES {
            return Scalar::from_le_bytes_mod_order(digest.as_slice());
        }
        attempt = attempt + 1;
        let mut input: Vec<u8> = Vec::new();
        append(&mut input, transcript.as_slice());
        input.push(attempt);
        assert(input@ =~= attempt_input(transcript@, attempt as nat));
        digest = digest32(input.as_slice());
    }
}

/// The concatenation of the encodings that a proof of equal discrete
/// logarithms hashes: the two bases, the two images and the two commitments.
pub open spec fn dleq_transcript(
    x_1: Seq<u8>,
    y_1: Seq<u8>,
    x_2: Seq<u8>,
    y_2: Seq<u8>,
    t_1: Seq<u8>,
    t_2: Seq<u8>,
) -> Seq<u8> {
    x_1 + y_1 + x_2 + y_2 + t_1 + t_2
}

/// Concatenates the six encodings.
fn build_dleq_transcript(
    x_1: &[u8],
    y_1: &[u8],
    x_2: &[u8],
    y_2: &[u8],
    t_1: &[u8],
    t_2: &[u8],
) -> (out: Vec<u8>)
    ensures
        out@ == dleq_transcript(x_1@, y_1@, x_2@, y_2@, t_1@, t_2@),
{
    let mut out: Vec<u8> = Vec::new();
    append(&mut out, x_1);
    append(&mut out, y_1);
    append(&mut out, x_2);
    append(&mut out, y_2);
    append(&mut out, t_1);
    append(&mut out, t_2);
    assert(out@ =~= dleq_transcript(x_1@, y_1@, x_2@, y_2@, t_1@, t_2@));
    out
}

/// A proof that two Montgomery points have the same discrete logarithm to
/// two bases: the challenge digest and the response.
#[derive(Clone, Copy, Debug)]
pub struct NIZKP {
    pub c: [u8; 32],
    pub r: Scalar25519,
}

impl NIZKP {
    /// The challenge of a proof with the nonce `w`: the digest of the bases,
    /// the images and the commitments `w · x_1` and `w · x_2`.
    pub open spec fn challenge_of(
        x_1: Seq<u8>,
        y_1: Seq<u8>,
        x_2: Seq<u8>,
        y_2: Seq<u8>,
        w: nat,
    ) -> Seq<u8> {
        digest32_spec(
            dleq_transcript(
                x_1,
                y_1,
                x_2,
                y_2,
                montgomery_mul_spec(x_1, w),
                montgomery_mul_spec(x_2, w),
            ),
        )
    }

    /// The response to the challenge `c` of a prover who knows `alpha` and
    /// chose the nonce `w`: `w - alpha · c`, modulo the group order.
    pub open spec fn response_of(alpha: nat, w: nat, c: Seq<u8>) -> nat {
        ((w - alpha * (le_value(c) % group_order())) % (group_order() as int)) as nat
    }

    /// Whether this is the proof that the nonce `w` gives.
    pub open spec fn is_proof_with_nonce(
        self,
        x_1: Seq<u8>,
        y_1: Seq<u8>,
        x_2: Seq<u8>,
        y_2: Seq<u8>,
        alpha: nat,
        w: nat,
    ) -> bool {
        &&& self.c@ == Self::challenge_of(x_1, y_1, x_2, y_2, w)
        &&& self.r.value() == Self::response_of(alpha, w, self.c@)
    }

    /// The proof for `y_1 = alpha · x_1` and `y_2 = alpha · x_2` that the
    /// nonce `w` gives.
    pub fn dleq_with_nonce(
        x_1: &MontgomeryPoint,
        y_1: &MontgomeryPoint,
        x_2: &MontgomeryPoint,
        y_2: &MontgomeryPoint,
        alpha: &Scalar25519,
        w: &Scalar25519,
    ) -> (pi: NIZKP)
        ensures
            pi.is_proof_with_nonce(x_1@, y_1@, x_2@, y_2@, alpha.value(), w.value()),
    {
        let t_1 = x_1.mul(w);
        let t_2 = x_2.mul(w);
        let transcript = build_dleq_transcript(&x_1.0, &y_1.0, &x_2.0, &y_2.0, &t_1.0, &t_2.0);
        let c = digest32(transcript.as_slice());
        let reduced = Scalar25519::from_bytes_mod_order(c);
        let r = w.sub(&alpha.mul(&reduced));
        proof {
            lemma_sub_mod_noop_right(
                w.value() as int,
                (alpha.value() * reduced.value()) as int,
                group_order() as int,
            );
        }
        NIZKP { c, r }
    }

    /// A proof for `y_1 = alpha · x_1` and `y_2 = alpha · x_2`, with a nonce
    /// drawn from `rng`.
    pub fn dleq(
        x_1: &MontgomeryPoint,
        y_1: &MontgomeryPoint,
        x_2: &MontgomeryPoint,
        y_2: &MontgomeryPoint,
        alpha: &Scalar25519,
        rng: &mut StdRng,
    ) -> (pi: NIZKP)
        ensures
            exists|w: nat|
                w < group_order() && #[trigger] pi.is_proof_with_nonce(
                    x_1@,
                    y_1@,
                    x_2@,
                    y_2@,
                    alpha.value(),
                    w,
                ),
    {
        let w = Scalar25519::random(rng);
        Self::dleq_with_nonce(x_1, y_1, x_2, y_2, alpha, &w)
    }

    /// The u-coordinate of `r · x + c · y` for the lift of `x` with sign bit
    /// zero and the lift of `y` with the sign bit `sign`, if both lift.
    pub open spec fn recomputed_commitment(
        x: Seq<u8>,
        y: Seq<u8>,
        sign: u8,
        r: nat,
        c: nat,
    ) -> Option<Seq<u8>> {
        match (edwards_lift_spec(x, 0), edwards_lift_spec(y, sign)) {
            (Some(x_e), Some(y_e)) => Some(
                edwards_to_montgomery_spec(
                    edwards_add_spec(edwards_mul_spec(x_e, r), edwards_mul_spec(y_e, c)),
                ),
            ),
            _ => None,
        }
    }

    /// Whether the proof checks when `y_1` is lifted with the sign bit
    /// `sign_1` and `y_2` with `sign_2`: all four points lift, and the digest
    /// of the transcript with the recomputed commitments is the challenge.
    pub open spec fn try_sign(
        self,
        x_1: Seq<u8>,
        y_1: Seq<u8>,
        x_2: Seq<u8>,
        y_2: Seq<u8>,
        sign_1: u8,
        sign_2: u8,
    ) -> bool {
        let c = le_value(self.c@) % group_order();
        match (
            Self::recomputed_commitment(x_1, y_1, sign_1, self.r.value(), c),
            Self::recomputed_commitment(x_2, y_2, sign_2, self.r.value(), c),
        ) {
            (Some(t_1), Some(t_2)) => digest32_spec(
                dleq_transcript(x_1, y_1, x_2, y_2, t_1, t_2),
            ) == self.c@,
            _ => false,
        }
    }

    /// Whether the proof is accepted: exactly one, or exactly three, of the
    /// four assignments of sign bits check (the exclusive or of the four).
    pub open spec fn accepts(self, x_1: Seq<u8>, y_1: Seq<u8>, x_2: Seq<u8>, y_2: Seq<u8>) -> bool {
        ((self.try_sign(x_1, y_1, x_2, y_2, 0, 0) != self.try_sign(x_1, y_1, x_2, y_2, 0, 1))
            != self.try_sign(x_1, y_1, x_2, y_2, 1, 0)) != self.try_sign(x_1, y_1, x_2, y_2, 1, 1)
    }

    /// Checks the proof against the two bases and the two images. A point
    /// that does not lift to the curve makes the proof fail.
    pub fn dleq_verify(
        &self,
        x_1: &MontgomeryPoint,
        y_1: &MontgomeryPoint,
        x_2: &MontgomeryPoint,
        y_2: &MontgomeryPoint,
    ) -> (ok: bool)
        ensures
            ok == self.accepts(x_1@, y_1@, x_2@, y_2@),
    {
        let pi_c = Scalar25519::from_bytes_mod_order(self.c);
        let a_00 = self.check_sign(x_1, y_1, x_2, y_2, 0, 0, &pi_c);
        let a_01 = self.check_sign(x_1, y_1, x_2, y_2, 0, 1, &pi_c);
        let a_10 = self.check_sign(x_1, y_1, x_2, y_2, 1, 0, &pi_c);
        let a_11 = self.check_sign(x_1, y_1, x_2, y_2, 1, 1, &pi_c);
        ((a_00 != a_01) != a_10) != a_11
    }

    /// Recomputes one commitment from the response and the challenge.
    fn recompute(
        &self,
        x: &MontgomeryPoint,
        y: &MontgomeryPoint,
        sign: u8,
        pi_c: &Scalar25519,
    ) -> (t: Option<MontgomeryPoint>)
        requires
            sign <= 1,
        ensures
            match t {
                Some(u) => Self::recomputed_commitment(x@, y@, sign, self.r.value(), pi_c.value())
                    == Some(u@),
                None => Self::recomputed_commitment(x@, y@, sign, self.r.value(), pi_c.value())
                    .is_none(),
            },
    {
        let x_e = match x.to_edwards(0) {
            Some(p) => p,
            None => {
                return None;
            },
        };
        let y_e = match y.to_edwards(sign) {
            Some(p) => p,
            None => {
                return None;
            },
        };
        let t: EdwardsPoint = x_e.mul(&self.r).add(&y_e.mul(pi_c));
        Some(t.to_montgomery())
    }

    /// Checks the proof for one assignment of sign bits.
    fn check_sign(
        &self,
        x_1: &MontgomeryPoint,
        y_1: &MontgomeryPoint,
        x_2: &MontgomeryPoint,
        y_2: &MontgomeryPoint,
        sign_1: u8,
        sign_2: u8,
        pi_c: &Scalar25519,
    ) -> (ok: bool)
        requires
            sign_1 <= 1,
            sign_2 <= 1,
            pi_c.value() == le_value(self.c@) % group_order(),
        ensures
            ok == self.try_sign(x_1@, y_1@, x_2@, y_2@, sign_1, sign_2),
    {
        let t_1 = match self.recompute(x_1, y_1, sign_1, pi_c) {
            Some(u) => u,
            None => {
                return false;
            },
        };
        let t_2 = match self.recompute(x_2, y_2, sign_2, pi_c) {
            Some(u) => u,
            None => {
                return false;
            },
        };
        let transcript = build_dleq_transcript(&x_1.0, &y_1.0, &x_2.0, &y_2.0, &t_1.0, &t_2.0);
        let c = digest32(transcript.as_slice());
        bytes_eq(&c, &self.c)
    }
}

/// A proof that two points of the pairing curve's first group have the same
/// discrete logarithm to two bases: the challenge and the response, both
/// field elements.
#[derive(Clone, Copy, Debug)]
pub struct NIZKP_Pallas {
    pub c: Scalar,
    pub r: Scalar,
}

impl NIZKP_Pallas {
    /// The challenge for the commitments `t_1` and `t_2`: the transcript of
    /// the bases, the images and the commitments, hashed to the field.
    pub open spec fn challenge_for(
        x_1: Seq<u8>,
        y_1: Seq<u8>,
        x_2: Seq<u8>,
        y_2: Seq<u8>,
        t_1: Seq<u8>,
        t_2: Seq<u8>,
    ) -> nat {
        challenge_spec(dleq_transcript(x_1, y_1, x_2, y_2, t_1, t_2))
    }

    /// Whether this is the proof that the nonce `w` gives: the challenge is
    /// that for the commitments `w · x_1` and `w · x_2`, and the response is
    /// `w - alpha · c` in the field.
    pub open spec fn is_proof_with_nonce(
        self,
        x_1: Seq<u8>,
        y_1: Seq<u8>,
        x_2: Seq<u8>,
        y_2: Seq<u8>,
        alpha: nat,
        w: nat,
    ) -> bool {
        &&& self.c.value() == Self::challenge_for(
            x_1,
            y_1,
            x_2,
            y_2,
            mul_spec(x_1, w),
            mul_spec(x_2, w),
        )
        &&& self.r.value() == sub_mod(w, mul_mod(alpha, self.c.value()))
    }

    /// The proof for `y_1 = alpha · x_1` and `y_2 = alpha · x_2` that the
    /// nonce `w` gives.
    pub fn dleq_with_nonce(
        x_1: &G1Point,
        y_1: &G1Point,
        x_2: &G1Point,
        y_2: &G1Point,
        alpha: &Scalar,
        w: &Scalar,
    ) -> (pi: NIZKP_Pallas)
        ensures
            pi.is_proof_with_nonce(x_1@, y_1@, x_2@, y_2@, alpha.value(), w.value()),
    {
        let t_1 = x_1.mul(w);
        let t_2 = x_2.mul(w);
        let transcript = build_dleq_transcript(
            x_1.as_bytes(),
            y_1.as_bytes(),
            x_2.as_bytes(),
            y_2.as_bytes(),
            t_1.as_bytes(),
            t_2.as_bytes(),
        );
        let c = challenge(&transcript);
        let r = fr_sub(w, &fr_mul(alpha, &c));
        NIZKP_Pallas { c, r }
    }

    /// A proof for `y_1 = alpha · x_1` and `y_2 = alpha · x_2`, with a nonce
    /// drawn from `rng`.
    pub fn dleq(
        x_1: &G1Point,
        y_1: &G1Point,
        x_2: &G1Point,
        y_2: &G1Point,
        alpha: &Scalar,
        rng: &mut StdRng,
    ) -> (pi: NIZKP_Pallas)
        ensures
            exists|w: nat|
                w < modulus() && #[trigger] pi.is_proof_with_nonce(
                    x_1@,
                    y_1@,
                    x_2@,
                    y_2@,
                    alpha.value(),
                    w,
                ),
    {
        let w = Scalar::random(rng);
        Self::dleq_with_nonce(x_1, y_1, x_2, y_2, alpha, &w)
    }

    /// The commitment that a verifier recomputes for one base and its
    /// image: `r · x + c · y`.
    pub open spec fn recomputed_commitment(self, x: Seq<u8>, y: Seq<u8>) -> Seq<u8> {
        add_spec(mul_spec(x, self.r.value()), mul_spec(y, self.c.value()))
    }

    /// Whether the proof is accepted: the challenge for the recomputed
    /// commitments is the challenge of the proof.
    pub open spec fn accepts(self, x_1: Seq<u8>, y_1: Seq<u8>, x_2: Seq<u8>, y_2: Seq<u8>) -> bool {
        Self::challenge_for(
            x_1,
            y_1,
            x_2,
            y_2,
            self.recomputed_commitment(x_1, y_1),
            self.recomputed_commitment(x_2, y_2),
        ) == self.c.value()
    }

    /// Checks the proof against the two bases and the two images.
    pub fn dleq_verify(&self, x_1: &G1Point, y_1: &G1Point, x_2: &G1Point, y_2: &G1Point) -> (ok:
        bool)
        ensures
            ok == self.accepts(x_1@, y_1@, x_2@, y_2@),
    {
        let t_1 = x_1.mul(&self.r).add(&y_1.mul(&self.c));
        let t_2 = x_2.mul(&self.r).add(&y_2.mul(&self.c));
        let transcript = build_dleq_transcript(
            x_1.as_bytes(),
            y_1.as_bytes(),
            x_2.as_bytes(),
            y_2.as_bytes(),
            t_1.as_bytes(),
            t_2.as_bytes(),
        );
        let c = challenge(&transcript);
        c.equals(&self.c)
    }

    /// A proof of a true statement is accepted, if the group obeys the law
    /// of scalar multiplication at the two bases: where `y_1 = alpha x_1`
    /// and `y_2 = alpha x_2`, the proof made with any nonce `w` checks.
    pub proof fn lemma_true_statement_is_accepted(
        self,
        x_1: Seq<u8>,
        x_2: Seq<u8>,
        alpha: nat,
        w: nat,
    )
        requires
            scalar_law_at(x_1),
            scalar_law_at(x_2),
            alpha < modulus(),
            w < modulus(),
            self.is_proof_with_nonce(
                x_1,
                mul_spec(x_1, alpha),
                x_2,
                mul_spec(x_2, alpha),
                alpha,
                w,
            ),
        ensures
            self.accepts(x_1, mul_spec(x_1, alpha), x_2, mul_spec(x_2, alpha)),
    {
        let c = self.c.value();
        let r = self.r.value();
        lemma_response_restores_nonce(w, alpha, c);
        lemma_reduce_bound(w - mul_mod(alpha, c));
        lemma_reduce_bound((alpha * c) as int);
        lemma_challenge_bound(
            dleq_transcript(
                x_1,
                mul_spec(x_1, alpha),
                x_2,
                mul_spec(x_2, alpha),
                mul_spec(x_1, w),
                mul_spec(x_2, w),
            ),
            0,
        );
        assert(add_spec(mul_spec(x_1, r), mul_spec(mul_spec(x_1, alpha), c)) == mul_spec(
            x_1,
            add_mod(r, mul_mod(alpha, c)),
        ));
        assert(add_spec(mul_spec(x_2, r), mul_spec(mul_spec(x_2, alpha), c)) == mul_spec(
            x_2,
            add_mod(r, mul_mod(alpha, c)),
        ));
    }
}

/// The concatenation of the encodings that a proof of knowledge hashes: the
/// commitment, the base and the image.
pub open spec fn schnorr_transcript(r: Seq<u8>, g: Seq<u8>, g_x: Seq<u8>) -> Seq<u8> {
    r + g + g_x
}

/// Concatenates the three encodings.
fn build_schnorr_transcript(r: &[u8], g: &[u8], g_x: &[u8]) -> (out: Vec<u8>)
    ensures
        out@ == schnorr_transcript(r@, g@, g_x@),
{
    let mut out: Vec<u8> = Vec::new();
    append(&mut out, r);
    append(&mut out, g);
    append(&mut out, g_x);
    assert(out@ =~= schnorr_transcript(r@, g@, g_x@));
    out
}

/// A proof of knowledge of the discrete logarithm of a point to a base: the
/// response `s` and the challenge `e`.
#[derive(Clone, Copy, Debug)]
pub struct SchnorrPoK {
    pub s: Scalar,
    pub e: Scalar,
}

impl SchnorrPoK {
    /// The challenge for the commitment `r`.
    pub open spec fn challenge_for(r: Seq<u8>, g: Seq<u8>, g_x: Seq<u8>) -> nat {
        challenge_spec(schnorr_transcript(r, g, g_x))
    }

    /// Whether this is the proof that the nonce `k` gives: the challenge is
    /// that for the commitment `k · g`, and the response is `k - x · e` in
    /// the field.
    pub open spec fn is_proof_with_nonce(self, g: Seq<u8>, x: nat, g_x: Seq<u8>, k: nat) -> bool {
        &&& self.e.value() == Self::challenge_for(mul_spec(g, k), g, g_x)
        &&& self.s.value() == sub_mod(k, mul_mod(x, self.e.value()))
    }

    /// The proof of knowledge of `x` with `g_x = x · g` that the nonce `k`
    /// gives.
    pub fn new_with_nonce(g: G1Point, x: Scalar, g_x: G1Point, k: &Scalar) -> (pi: SchnorrPoK)
        ensures
            pi.is_proof_with_nonce(g@, x.value(), g_x@, k.value()),
    {
        let r = g.mul(k);
        let transcript = build_schnorr_transcript(r.as_bytes(), g.as_bytes(), g_x.as_bytes());
        let e = challenge(&transcript);
        let s = fr_sub(k, &fr_mul(&x, &e));
        SchnorrPoK { s, e }
    }

    /// A proof of knowledge of `x` with `g_x = x · g`, with a nonce drawn
    /// from `rng`.
    pub fn new(g: G1Point, x: Scalar, g_x: G1Point, rng: &mut StdRng) -> (pi: SchnorrPoK)
        ensures
            exists|k: nat|
                k < modulus() && #[trigger] pi.is_proof_with_nonce(g@, x.value(), g_x@, k),
    {
        let k = Scalar::random(rng);
        Self::new_with_nonce(g, x, g_x, &k)
    }

    /// The commitment that a verifier recomputes: `s · g + e · g_x`.
    pub open spec fn recomputed_commitment(self, g: Seq<u8>, g_x: Seq<u8>) -> Seq<u8> {
        add_spec(mul_spec(g, self.s.value()), mul_spec(g_x, self.e.value()))
    }

    /// Whether the proof is accepted: the challenge for the recomputed
    /// commitment is the challenge of the proof.
    pub open spec fn accepts(self, g: Seq<u8>, g_x: Seq<u8>) -> bool {
        Self::challenge_for(self.recomputed_commitment(g, g_x), g, g_x) == self.e.value()
    }

    /// Checks the proof against the base and the image.
    pub fn verify(&self, g: G1Point, g_x: G1Point) -> (ok: bool)
        ensures
            ok == self.accepts(g@, g_x@),
    {
        let r = g.mul(&self.s).add(&g_x.mul(&self.e));
        let transcript = build_schnorr_transcript(r.as_bytes(), g.as_bytes(), g_x.as_bytes());
        let e = challenge(&transcript);
        e.equals(&self.e)
    }

    /// A proof of knowledge of the discrete logarithm is accepted, if the
    /// group obeys the law of scalar multiplication at the base: the proof
    /// for `x` and `x g` made with any nonce `k` checks against `g` and
    /// `x g`.
    pub proof fn lemma_honest_proof_is_accepted(self, g: Seq<u8>, x: nat, k: nat)
        requires
            scalar_law_at(g),
            x < modulus(),
            k < modulus(),
            self.is_proof_with_nonce(g, x, mul_spec(g, x), k),
        ensures
            self.accepts(g, mul_spec(g, x)),
    {
        let e = self.e.value();
        let s = self.s.value();
        lemma_response_restores_nonce(k, x, e);
        lemma_reduce_bound(k - mul_mod(x, e));
        lemma_reduce_bound((x * e) as int);
        lemma_challenge_bound(schnorr_transcript(mul_spec(g, k), g, mul_spec(g, x)), 0);
        assert(add_spec(mul_spec(g, s), mul_spec(mul_spec(g, x), e)) == mul_spec(
            g,
            add_mod(s, mul_mod(x, e)),
        ));
    }
}

/// A challenge is below the modulus.
pub proof fn lemma_challenge_bound(transcript: Seq<u8>, attempt: nat)
    ensures
        challenge_from(transcript, attempt) < modulus(),
    decreases MAX_RETRIES - attempt,
{
    let digest = digest32_spec(attempt_input(transcript, attempt));
    if le_value(digest) >= modulus() {
        if attempt >= MAX_RETRIES {
            lemma_reduce_bound(le_value(digest) as int);
        } else {
            lemma_challenge_bound(transcript, attempt + 1);
        }
    }
}

/// The response `nonce - secret * challenge` restores the nonce: adding
/// `secret * challenge` to it gives the nonce back.
pub proof fn lemma_response_restores_nonce(nonce: nat, secret: nat, challenge: nat)
    requires
        nonce < modulus(),
    ensures
        add_mod(sub_mod(nonce, mul_mod(secret, challenge)), mul_mod(secret, challenge)) == nonce,
{
    let product = mul_mod(secret, challenge) as int;
    lemma_reduce_bound((secret * challenge) as int);
    lemma_reduce_small(product as nat);
    lemma_reduce_small(nonce);
    lemma_sub_reduce(nonce as int, product);
    lemma_add_reduce(nonce - product, product);
}

} // verus!
