//! Reconstruction of the secret from the shares that participants output.

#![allow(non_snake_case)]

use crate::bls12_381::fr::Scalar;
use crate::hybridvss::commitment::{commit, Commitment, CommitmentView};
use crate::hybridvss::domain::{distinct_nonzero, nodes_ok, values, Domain};
use crate::hybridvss::model::{
    has_sender, nodes_of, reconstruct_step, reconstructed, share_consistent, values_of,
    Evaluation,
};
use crate::hybridvss::params::Params;
use crate::hybridvss::poly::{distinct, Interpolation};
use vstd::prelude::*;

verus! {

/// An accepted share with the participant that output it.
#[derive(Clone, Copy, Debug)]
struct ShareRecord {
    sender: u32,
    value: Scalar,
}

/// The shares that a list of records holds.
spec fn share_models(shares: Seq<ShareRecord>) -> Seq<Evaluation> {
    Seq::new(
        shares.len(),
        |a: int| Evaluation { sender: shares[a].sender as nat, value: shares[a].value.value() },
    )
}

/// The state of a reconstruction: the commitment that the participant
/// accepted, its own share, and the shares of others accepted so far.
#[derive(Debug)]
pub struct Context {
    params: Params,
    C: Commitment,
    domain: Domain,
    s: Scalar,
    shares: Vec<ShareRecord>,
}

impl Context {
    /// The number of participants.
    pub closed spec fn spec_n(self) -> nat {
        self.params.spec_n()
    }

    /// The reconstruction threshold.
    pub closed spec fn spec_t(self) -> nat {
        self.params.t as nat
    }

    /// The evaluation domain.
    pub closed spec fn spec_domain(self) -> Seq<nat> {
        self.domain@
    }

    /// The commitment that shares are checked against.
    pub closed spec fn spec_commitment(self) -> CommitmentView {
        self.C@
    }

    /// The share of the participant that reconstructs.
    pub closed spec fn spec_own_share(self) -> nat {
        self.s.value()
    }

    /// The shares accepted so far, in the order of arrival.
    pub closed spec fn accepted(self) -> Seq<Evaluation> {
        share_models(self.shares@)
    }

    /// The accepted shares came from distinct participants, the points of the
    /// domain are distinct, and their differences have inverses.
    pub closed spec fn wf(self) -> bool {
        &&& distinct_nonzero(self.domain@)
        &&& nodes_ok(self.domain@)
        &&& forall|a: int|
            0 <= a < self.accepted().len() ==> (#[trigger] self.accepted()[a]).sender
                < self.spec_n()
        &&& forall|a: int, b: int|
            0 <= a < b < self.accepted().len() ==> (#[trigger] self.accepted()[a]).sender != (
            #[trigger] self.accepted()[b]).sender
    }

    /// A reconstruction without any accepted share.
    pub fn init(params: Params, C: Commitment, domain: Domain, s: Scalar) -> (ctx: Context)
        ensures
            ctx.wf(),
            ctx.spec_n() == params.spec_n(),
            ctx.spec_t() == params.t,
            ctx.spec_domain() == domain@,
            ctx.spec_commitment() == C@,
            ctx.spec_own_share() == s.value(),
            ctx.accepted().len() == 0,
    {
        proof {
            use_type_invariant(&domain);
            domain.lemma_distinct_nonzero();
        }
        Context { params, C, domain, s, shares: Vec::new() }
    }

    /// The number of shares accepted so far.
    pub fn share_count(&self) -> (count: usize)
        ensures
            count == self.accepted().len(),
    {
        self.shares.len()
    }

    /// Whether `share` is what the commitment fixes as the share of
    /// participant `j`.
    pub fn verify_share(&self, j: u32, share: &Scalar) -> (ok: bool)
        ensures
            ok == share_consistent(
                self.spec_n(),
                self.spec_t(),
                self.spec_commitment(),
                j as nat,
                share.value(),
            ),
    {
        if self.params.w.len() > u32::MAX as usize {
            // No matrix has a row for each of that many participants.
            if self.C.rows.len() != self.params.w.len() {
                return false;
            }
            return self.verify_share_of_row(j, share);
        }
        if !self.C.is_well_shaped(self.params.w.len() as u32, self.params.t) {
            return false;
        }
        self.verify_share_of_row(j, share)
    }

    /// The same check once the number of rows is known to be right.
    fn verify_share_of_row(&self, j: u32, share: &Scalar) -> (ok: bool)
        requires
            self.C@.len() == self.spec_n(),
        ensures
            ok == share_consistent(
                self.spec_n(),
                self.spec_t(),
                self.spec_commitment(),
                j as nat,
                share.value(),
            ),
    {
        let mut m: usize = 0;
        while m < self.C.rows.len()
            invariant
                m <= self.C.rows.len(),
                forall|a: int| 0 <= a < m ==> (#[trigger] self.C@[a]).len() == self.params.t + 1,
            decreases self.C.rows.len() - m,
        {
            if self.C.rows[m].len() as u64 != self.params.t as u64 + 1 {
                assert(self.C@[m as int].len() != self.params.t + 1);
                return false;
            }
            m += 1;
        }
        if j as usize >= self.C.rows.len() {
            return false;
        }
        let row = &self.C.rows[j as usize];
        assert(self.C@[j as int].len() == self.params.t + 1);
        assert(self.C@[j as int][0] == row@[0]@);
        commit(share).equals(&row[0])
    }

    /// Whether a share of participant `j` was accepted.
    fn has_share_of(&self, j: u32) -> (found: bool)
        ensures
            found == has_sender(self.accepted(), j as nat),
    {
        let ghost shares = share_models(self.shares@);
        let mut k: usize = 0;
        while k < self.shares.len()
            invariant
                k <= self.shares.len(),
                shares == share_models(self.shares@),
                forall|a: int| 0 <= a < k ==> (#[trigger] shares[a]).sender != j as nat,
            decreases self.shares.len() - k,
        {
            if self.shares[k].sender == j {
                assert(shares[k as int].sender == j as nat);
                return true;
            }
            k += 1;
        }
        false
    }

    /// Handles the share `share` that participant `j` output.
    ///
    /// A share that is not consistent with the commitment, or a second share
    /// of a participant, changes nothing and gives nothing. A new consistent
    /// share is accepted; when it is the share number `t + 1`, the secret is
    /// returned: the value at zero of the polynomial through the accepted
    /// shares.
    pub fn reconstruct_share(&mut self, j: u32, share: Scalar) -> (secret: Option<Scalar>)
        requires
            old(self).wf(),
        ensures
            final(self).wf(),
            final(self).spec_n() == old(self).spec_n(),
            final(self).spec_t() == old(self).spec_t(),
            final(self).spec_domain() == old(self).spec_domain(),
            final(self).spec_commitment() == old(self).spec_commitment(),
            final(self).spec_own_share() == old(self).spec_own_share(),
            final(self).accepted() == reconstruct_step(
                old(self).spec_n(),
                old(self).spec_t(),
                old(self).spec_domain(),
                old(self).spec_commitment(),
                old(self).accepted(),
                j as nat,
                share.value(),
            ).0,
            (match secret {
                Some(z) => Some(z.value()),
                None => None,
            }) == reconstruct_step(
                old(self).spec_n(),
                old(self).spec_t(),
                old(self).spec_domain(),
                old(self).spec_commitment(),
                old(self).accepted(),
                j as nat,
                share.value(),
            ).1,
    {
        if self.domain.len() != self.params.w.len() {
            return None;
        }
        if !self.verify_share(j, &share) || self.has_share_of(j) {
            return None;
        }
        let ghost before = share_models(self.shares@);
        self.shares.push(ShareRecord { sender: j, value: share });
        let ghost accepted = share_models(self.shares@);
        assert(accepted =~= before.push(Evaluation { sender: j as nat, value: share.value() }));
        assert(self.wf()) by {
            assert forall|a: int, b: int| 0 <= a < b < accepted.len() implies (
            #[trigger] accepted[a]).sender != (#[trigger] accepted[b]).sender by {
                if b < before.len() {
                    assert(accepted[a] == before[a] && accepted[b] == before[b]);
                } else {
                    assert(accepted[a] == before[a]);
                }
            }
            assert forall|a: int| 0 <= a < accepted.len() implies (#[trigger] accepted[a]).sender
                < self.spec_n() by {
                if a < before.len() {
                    assert(accepted[a] == before[a]);
                }
            }
        }
        if self.shares.len() as u64 != self.params.t as u64 + 1 {
            return None;
        }
        let ghost domain = self.domain@;
        let mut xs: Vec<Scalar> = Vec::new();
        let mut ys: Vec<Scalar> = Vec::new();
        let mut a: usize = 0;
        while a < self.shares.len()
            invariant
                a <= self.shares.len(),
                self.wf(),
                accepted == share_models(self.shares@),
                domain == self.domain@,
                domain.len() == self.spec_n(),
                xs@.len() == a,
                ys@.len() == a,
                forall|b: int|
                    0 <= b < accepted.len() ==> (#[trigger] accepted[b]).sender < domain.len(),
                forall|b: int|
                    0 <= b < a ==> (#[trigger] xs@[b]).value() == domain[accepted[b].sender as int],
                forall|b: int| 0 <= b < a ==> (#[trigger] ys@[b]).value() == accepted[b].value,
            decreases self.shares.len() - a,
        {
            let record = &self.shares[a];
            assert(self.accepted()[a as int].sender == record.sender);
            assert(record.sender < self.spec_n());
            xs.push(self.domain.point(record.sender as usize));
            ys.push(record.value);
            a += 1;
        }
        proof {
            let t = self.spec_t();
            assert(values(xs@) =~= nodes_of(accepted, domain, t + 1));
            assert(values(ys@) =~= values_of(accepted, t + 1));
            assert(distinct(values(xs@))) by {
                assert forall|p: int, q: int| 0 <= p < q < xs@.len() implies values(xs@)[p]
                    != values(xs@)[q] by {
                    let s_p = accepted[p].sender as int;
                    let s_q = accepted[q].sender as int;
                    assert(s_p != s_q);
                    if s_p < s_q {
                        assert(domain[s_p] != domain[s_q]);
                    } else {
                        assert(domain[s_q] != domain[s_p]);
                    }
                }
            }
        }
        match Interpolation::new(xs, ys) {
            Some(interpolation) => Some(interpolation.evaluate(&Scalar::zero())),
            None => None,
        }
    }
}

} // verus!
