//! The parameters of one sharing instance and the thresholds they fix.

use rand::rngs::StdRng;
use rand::Rng;
use vstd::prelude::*;

verus! {

/// The sum of a list of weights.
pub open spec fn weight_sum(w: Seq<u32>) -> nat
    decreases w.len(),
{
    if w.len() == 0 {
        0
    } else {
        weight_sum(w.drop_last()) + w.last() as nat
    }
}

/// The number of valid Echos for one commitment at which a participant
/// announces Ready: half of `total_weight + t + 1`, rounded up.
pub open spec fn echo_threshold_spec(total_weight: nat, t: nat) -> nat {
    (total_weight + t + 2) / 2
}

/// The number of valid Readys for one commitment at which a participant
/// that has not announced Ready does so.
pub open spec fn amplify_threshold_spec(f: nat) -> nat {
    f + 1
}

/// The number of valid Readys for one commitment at which a participant
/// outputs its share.
pub open spec fn output_threshold_spec(total_weight: nat, t: nat, f: nat) -> nat {
    (total_weight - t - f) as nat
}

/// The parameters of a sharing instance.
#[derive(Clone, Debug)]
pub struct Params {
    /// The number of participants that may fail arbitrarily.
    pub f: u32,
    /// The reconstruction threshold: `t + 1` shares recover the secret.
    pub t: u32,
    /// The weight of each participant, by index.
    pub w: Vec<u32>,
    /// The index of the dealer.
    pub d: u32,
}

/// Why a set of parameters was refused.
#[derive(Clone, Copy, Debug, PartialEq, Eq, Structural)]
pub enum ParamsError {
    /// There is no participant.
    NoParticipants,
    /// There are more participants than an index can name.
    TooManyParticipants,
    /// The dealer's index names no participant.
    DealerOutOfRange,
    /// The total weight does not fit the weight type.
    WeightOverflow,
    /// The total weight is below `3t + 2f + 1`.
    InsufficientWeight,
}

impl Params {
    /// The number of participants.
    pub open spec fn spec_n(self) -> nat {
        self.w@.len()
    }

    /// The total weight of the participants.
    pub open spec fn spec_total_weight(self) -> nat {
        weight_sum(self.w@)
    }

    /// The parameters name a dealer among at least one participant, the
    /// total weight fits, and it exceeds `t + f`, so that every threshold is
    /// positive.
    pub open spec fn wf(self) -> bool {
        &&& 0 < self.spec_n() <= u32::MAX
        &&& self.d < self.spec_n()
        &&& self.spec_total_weight() <= u32::MAX
        &&& self.t + self.f < self.spec_total_weight()
    }

    /// The total weight suffices for the fault assumptions:
    /// `W >= 3t + 2f + 1`.
    pub open spec fn meets_bound(self) -> bool {
        self.spec_total_weight() >= 3 * self.t + 2 * self.f + 1
    }

    /// The error that given parameters draw, or `None` where they are
    /// accepted. The first failing condition decides.
    pub open spec fn rejection(f: u32, t: u32, w: Seq<u32>, d: u32) -> Option<ParamsError> {
        if w.len() == 0 {
            Some(ParamsError::NoParticipants)
        } else if w.len() > u32::MAX {
            Some(ParamsError::TooManyParticipants)
        } else if d >= w.len() {
            Some(ParamsError::DealerOutOfRange)
        } else if weight_sum(w) > u32::MAX {
            Some(ParamsError::WeightOverflow)
        } else if weight_sum(w) < 3 * t + 2 * f + 1 {
            Some(ParamsError::InsufficientWeight)
        } else {
            None
        }
    }

    /// Validated parameters with the dealer `d`.
    pub fn new(f: u32, t: u32, w: Vec<u32>, d: u32) -> (r: Result<Params, ParamsError>)
        ensures
            match r {
                Ok(p) => Self::rejection(f, t, w@, d).is_none() && p == (Params { f, t, w, d })
                    && p.wf() && p.meets_bound(),
                Err(e) => Self::rejection(f, t, w@, d) == Some(e),
            },
    {
        if w.len() == 0 {
            return Err(ParamsError::NoParticipants);
        }
        if w.len() > u32::MAX as usize {
            return Err(ParamsError::TooManyParticipants);
        }
        if d as usize >= w.len() {
            return Err(ParamsError::DealerOutOfRange);
        }
        let total = match checked_weight_sum(&w) {
            Some(total) => total,
            None => {
                return Err(ParamsError::WeightOverflow);
            },
        };
        if (total as u64) < 3 * (t as u64) + 2 * (f as u64) + 1 {
            return Err(ParamsError::InsufficientWeight);
        }
        Ok(Params { f, t, w, d })
    }

    /// Parameters with a dealer drawn from `rng`. The bound on the total
    /// weight is not asked for.
    pub fn random_dealer(f: u32, t: u32, w: Vec<u32>, rng: &mut StdRng) -> (p: Params)
        requires
            0 < w@.len() <= u32::MAX,
            weight_sum(w@) <= u32::MAX,
            t + f < weight_sum(w@),
        ensures
            p.f == f,
            p.t == t,
            p.w == w,
            p.wf(),
    {
        let d = random_below(rng, w.len() as u32);
        Params { f, t, w, d }
    }

    /// The number of participants.
    pub fn n(&self) -> (n: u32)
        requires
            self.wf(),
        ensures
            n == self.spec_n(),
    {
        self.w.len() as u32
    }

    /// The total weight of the participants.
    pub fn total_weight(&self) -> (total: u32)
        requires
            self.wf(),
        ensures
            total == self.spec_total_weight(),
    {
        match checked_weight_sum(&self.w) {
            Some(total) => total,
            None => 0,
        }
    }

    /// The number of valid Echos at which Ready is announced.
    pub fn echo_threshold(&self) -> (k: u64)
        requires
            self.wf(),
        ensures
            k == echo_threshold_spec(self.spec_total_weight(), self.t as nat),
            0 < k <= self.spec_total_weight(),
    {
        (self.total_weight() as u64 + self.t as u64 + 2) / 2
    }

    /// The number of valid Readys at which Ready is announced in turn.
    pub fn amplify_threshold(&self) -> (k: u64)
        ensures
            k == amplify_threshold_spec(self.f as nat),
    {
        self.f as u64 + 1
    }

    /// The number of valid Readys at which the share is output.
    pub fn output_threshold(&self) -> (k: u64)
        requires
            self.wf(),
        ensures
            k == output_threshold_spec(self.spec_total_weight(), self.t as nat, self.f as nat),
            0 < k,
    {
        self.total_weight() as u64 - self.t as u64 - self.f as u64
    }

    /// A copy of the parameters.
    pub fn duplicate(&self) -> (p: Params)
        ensures
            p.f == self.f,
            p.t == self.t,
            p.d == self.d,
            p.w@ == self.w@,
    {
        let mut w: Vec<u32> = Vec::new();
        let mut k: usize = 0;
        while k < self.w.len()
            invariant
                k <= self.w.len(),
                w@ == self.w@.subrange(0, k as int),
            decreases self.w.len() - k,
        {
            w.push(self.w[k]);
            k += 1;
            assert(w@ =~= self.w@.subrange(0, k as int));
        }
        assert(self.w@.subrange(0, self.w.len() as int) =~= self.w@);
        Params { f: self.f, t: self.t, w, d: self.d }
    }
}

/// The sum of the weights, or `None` where it does not fit.
pub fn checked_weight_sum(w: &Vec<u32>) -> (total: Option<u32>)
    ensures
        match total {
            Some(s) => s == weight_sum(w@),
            None => weight_sum(w@) > u32::MAX,
        },
{
    let mut sum: u32 = 0;
    let mut k: usize = 0;
    while k < w.len()
        invariant
            k <= w.len(),
            sum == weight_sum(w@.subrange(0, k as int)),
        decreases w.len() - k,
    {
        proof {
            assert(w@.subrange(0, k + 1).drop_last() =~= w@.subrange(0, k as int));
        }
        match sum.checked_add(w[k]) {
            Some(next) => {
                sum = next;
            },
            None => {
                proof {
                    lemma_weight_sum_monotone(w@, k + 1);
                }
                return None;
            },
        }
        k += 1;
    }
    assert(w@.subrange(0, w.len() as int) =~= w@);
    Some(sum)
}

/// The sum of a prefix of the weights is at most the sum of all of them.
pub proof fn lemma_weight_sum_monotone(w: Seq<u32>, k: int)
    requires
        0 <= k <= w.len(),
    ensures
        weight_sum(w.subrange(0, k)) <= weight_sum(w),
    decreases w.len() - k,
{
    if k < w.len() {
        lemma_weight_sum_monotone(w, k + 1);
        assert(w.subrange(0, k + 1).drop_last() =~= w.subrange(0, k));
    } else {
        assert(w.subrange(0, k) =~= w);
    }
}

/// `Rng::gen_range` of rand on the range from zero to `bound`: a number of
/// that range. Nothing more is claimed of which number it is.
#[verifier::external_body]
fn random_below(rng: &mut StdRng, bound: u32) -> (r: u32)
    requires
        bound > 0,
    ensures
        r < bound,
{
    rng.gen_range(0, bound)
}

} // verus!
