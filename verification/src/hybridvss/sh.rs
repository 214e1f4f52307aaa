//! The messages of the protocol and the state machine of one participant.

#![allow(non_snake_case)]

use crate::bls12_381::fr::Scalar;
use crate::bls12_381::g1::G1Point;
use crate::hybridvss::bivariate::{
    row_polynomial_spec, shares_secret, BivariatePoly, Coefficients,
};
use crate::hybridvss::commitment::{commit, commit_spec, row_view, Commitment, CommitmentView};
use crate::hybridvss::domain::{distinct_nonzero, domain_spec, nodes_ok, values, Domain};
use crate::hybridvss::model::{
    counted_echo, counted_ready, echo_count, echo_messages, echo_step, has_sender, initial,
    interpolated, lemma_position, lemma_position_is, node_wf, nodes_of, point_ok, points_wf,
    position, ready_count, ready_messages, ready_step, send_step, share_ok, shared_message,
    store, tally_of, used, values_of, with_point, Evaluation, MessageModel, NodeModel, Phase,
    ReadyOutcome, SendModel, Setup, SharedModel, TallyModel,
};
use crate::hybridvss::params::Params;
use crate::hybridvss::poly::{distinct, eval_spec, evaluate, Interpolation};
use rand::rngs::StdRng;
use vstd::prelude::*;

verus! {

/// One of two alternatives.
#[derive(Clone, Debug)]
pub enum Either<L, R> {
    Left(L),
    Right(R),
}

impl<L, R> Either<L, R> {
    /// Whether this is the left alternative.
    pub fn is_left(&self) -> (b: bool)
        ensures
            b == (self is Left),
    {
        match self {
            Either::Left(_) => true,
            Either::Right(_) => false,
        }
    }

    /// Whether this is the right alternative.
    pub fn is_right(&self) -> (b: bool)
        ensures
            b == (self is Right),
    {
        match self {
            Either::Left(_) => false,
            Either::Right(_) => true,
        }
    }

    /// The left alternative, if this is it.
    pub fn left(self) -> (l: Option<L>)
        ensures
            l == (match self {
                Either::Left(v) => Some(v),
                Either::Right(_) => None,
            }),
    {
        match self {
            Either::Left(v) => Some(v),
            Either::Right(_) => None,
        }
    }

    /// The right alternative, if this is it.
    pub fn right(self) -> (r: Option<R>)
        ensures
            r == (match self {
                Either::Left(_) => None,
                Either::Right(v) => Some(v),
            }),
    {
        match self {
            Either::Left(_) => None,
            Either::Right(v) => Some(v),
        }
    }
}

/// The dealer's input: the secret to share.
#[derive(Clone, Copy, Debug)]
pub struct Share {
    pub s: Scalar,
}

/// What the dealer sends to one participant: the commitment matrix and the
/// coefficients of the participant's polynomial.
#[derive(Clone, Debug)]
pub struct Send {
    pub C: Commitment,
    pub a: Vec<Scalar>,
}

/// What a participant sends to another on a consistent Send: the commitment
/// matrix and the value of its polynomial at the other's point.
#[derive(Clone, Debug)]
pub struct Echo {
    pub C: Commitment,
    pub alpha: Scalar,
}

/// What a participant sends to another once enough Echos or Readys came in:
/// the commitment matrix and the value of the interpolated polynomial at the
/// other's point.
#[derive(Clone, Debug)]
pub struct Ready {
    pub C: Commitment,
    pub alpha: Scalar,
}

/// What a participant outputs: the commitment matrix and its share.
#[derive(Clone, Debug)]
pub struct Shared {
    pub C: Commitment,
    pub s: Scalar,
}

impl View for Send {
    type V = SendModel;

    open spec fn view(&self) -> SendModel {
        SendModel { commitment: self.C@, coefficients: values(self.a@) }
    }
}

impl View for Echo {
    type V = MessageModel;

    open spec fn view(&self) -> MessageModel {
        MessageModel { commitment: self.C@, alpha: self.alpha.value() }
    }
}

impl View for Ready {
    type V = MessageModel;

    open spec fn view(&self) -> MessageModel {
        MessageModel { commitment: self.C@, alpha: self.alpha.value() }
    }
}

impl View for Shared {
    type V = SharedModel;

    open spec fn view(&self) -> SharedModel {
        SharedModel { commitment: self.C@, share: self.s.value() }
    }
}

/// The dealer's answer to a request to share: one Send for each participant.
pub type ShareResponse = Vec<Send>;

/// The answer to a Send: one Echo for each participant, or nothing.
pub type SendResponse = Option<Vec<Echo>>;

/// The answer to an Echo: one Ready for each participant, or nothing.
pub type EchoResponse = Option<Vec<Ready>>;

/// The answer to a Ready: one Ready for each participant, or the share, or
/// nothing.
pub type ReadyResponse = Option<Either<Vec<Ready>, Shared>>;

/// The contents of a list of Sends.
pub open spec fn send_views(sends: Seq<Send>) -> Seq<SendModel> {
    Seq::new(sends.len(), |j: int| sends[j]@)
}

/// The contents of a list of Echos.
pub open spec fn echo_views(echos: Seq<Echo>) -> Seq<MessageModel> {
    Seq::new(echos.len(), |j: int| echos[j]@)
}

/// The contents of a list of Readys.
pub open spec fn ready_views(readys: Seq<Ready>) -> Seq<MessageModel> {
    Seq::new(readys.len(), |j: int| readys[j]@)
}

/// The content of the answer to a Send.
pub open spec fn send_response_view(r: SendResponse) -> Option<Seq<MessageModel>> {
    match r {
        Some(echos) => Some(echo_views(echos@)),
        None => None,
    }
}

/// The content of the answer to an Echo.
pub open spec fn echo_response_view(r: EchoResponse) -> Option<Seq<MessageModel>> {
    match r {
        Some(readys) => Some(ready_views(readys@)),
        None => None,
    }
}

/// The content of the answer to a Ready.
pub open spec fn ready_response_view(r: ReadyResponse) -> ReadyOutcome {
    match r {
        Some(Either::Left(readys)) => ReadyOutcome::Amplify(ready_views(readys@)),
        Some(Either::Right(shared)) => ReadyOutcome::Output(shared@),
        None => ReadyOutcome::Silent,
    }
}

/// The Sends that a dealer with the polynomial `phi` hands out: all with the
/// matrix of commitments to the coefficients of every participant's
/// polynomial, and each with the polynomial of its receiver.
pub open spec fn deal_spec(setup: Setup, phi: Coefficients) -> Seq<SendModel> {
    Seq::new(
        setup.n,
        |m: int|
            SendModel {
                commitment: commitment_spec(setup, phi),
                coefficients: row_polynomial_spec(phi, setup.domain[m]),
            },
    )
}

/// The commitment matrix of the polynomial `phi`: entry `k` of row `m` is
/// the commitment to the coefficient of `x^k` in the polynomial of
/// participant `m`.
pub open spec fn commitment_spec(setup: Setup, phi: Coefficients) -> CommitmentView {
    Seq::new(
        setup.n,
        |m: int|
            Seq::new(
                phi.len(),
                |k: int| commit_spec(row_polynomial_spec(phi, setup.domain[m])[k]),
            ),
    )
}

/// The phase of a participant.
#[derive(Clone, Copy, Debug)]
pub enum State {
    /// No share was output yet.
    Init,
    /// The share was output.
    Shared(Scalar),
    /// The instance was given up.
    Failed,
}

impl View for State {
    type V = Phase;

    open spec fn view(&self) -> Phase {
        match *self {
            State::Init => Phase::Init,
            State::Shared(s) => Phase::Shared(s.value()),
            State::Failed => Phase::Failed,
        }
    }
}

/// A verified value with its sender.
#[derive(Clone, Copy, Debug)]
struct PointRecord {
    sender: u32,
    value: Scalar,
}

/// What was counted for one commitment matrix.
#[derive(Debug)]
struct Tally {
    commitment: Commitment,
    points: Vec<PointRecord>,
    echoed: Vec<u32>,
    readied: Vec<u32>,
}

/// The evaluations that a list of records holds.
spec fn point_models(points: Seq<PointRecord>) -> Seq<Evaluation> {
    Seq::new(
        points.len(),
        |a: int| Evaluation { sender: points[a].sender as nat, value: points[a].value.value() },
    )
}

/// The senders that a list of indices names.
spec fn sender_models(senders: Seq<u32>) -> Seq<nat> {
    Seq::new(senders.len(), |a: int| senders[a] as nat)
}

impl Tally {
    spec fn model(self) -> TallyModel {
        TallyModel {
            commitment: self.commitment@,
            points: point_models(self.points@),
            echoed: sender_models(self.echoed@),
            readied: sender_models(self.readied@),
        }
    }
}

/// The tallies that a list of records holds.
spec fn tally_models(tallies: Seq<Tally>) -> Seq<TallyModel> {
    Seq::new(tallies.len(), |k: int| tallies[k].model())
}

/// Whether `sender` is among `senders`.
fn contains_sender(senders: &Vec<u32>, sender: u32) -> (found: bool)
    ensures
        found == sender_models(senders@).contains(sender as nat),
{
    let ghost s = sender_models(senders@);
    let mut k: usize = 0;
    while k < senders.len()
        invariant
            k <= senders.len(),
            s == sender_models(senders@),
            forall|a: int| 0 <= a < k ==> s[a] != sender as nat,
        decreases senders.len() - k,
    {
        if senders[k] == sender {
            assert(s[k as int] == sender as nat);
            return true;
        }
        k += 1;
    }
    false
}

/// Whether some record came from `sender`.
fn has_record(points: &Vec<PointRecord>, sender: u32) -> (found: bool)
    ensures
        found == has_sender(point_models(points@), sender as nat),
{
    let ghost p = point_models(points@);
    let mut k: usize = 0;
    while k < points.len()
        invariant
            k <= points.len(),
            p == point_models(points@),
            forall|a: int| 0 <= a < k ==> (#[trigger] p[a]).sender != sender as nat,
        decreases points.len() - k,
    {
        if points[k].sender == sender {
            assert(p[k as int].sender == sender as nat);
            return true;
        }
        k += 1;
    }
    false
}

/// The state of one participant of a sharing instance.
#[derive(Debug)]
pub struct Context {
    params: Params,
    index: u32,
    domain: Domain,
    state: State,
    ready_sent: bool,
    accepted: Option<Commitment>,
    tallies: Vec<Tally>,
}

impl Context {
    /// What stays fixed: the parameters, the index and the domain.
    pub closed spec fn setup(self) -> Setup {
        Setup {
            n: self.params.spec_n(),
            t: self.params.t as nat,
            f: self.params.f as nat,
            total_weight: self.params.spec_total_weight(),
            index: self.index as nat,
            domain: self.domain@,
        }
    }

    /// The state as the pure state machine sees it.
    pub closed spec fn model(self) -> NodeModel {
        NodeModel {
            phase: self.state@,
            ready_sent: self.ready_sent,
            accepted: match self.accepted {
                Some(c) => Some(c@),
                None => None,
            },
            tallies: tally_models(self.tallies@),
        }
    }

    /// The parameters are well formed, the index names a participant, the
    /// setup is valid unless the participant has given up, and the
    /// evaluations of every tally came from distinct participants.
    pub closed spec fn wf(self) -> bool {
        &&& self.params.wf()
        &&& self.index < self.params.spec_n()
        &&& distinct_nonzero(self.domain@)
        &&& nodes_ok(self.domain@)
        &&& (self.state is Failed || self.domain@.len() == self.params.spec_n())
        &&& node_wf(self.model(), self.params.spec_n())
    }

    /// The parameters of the instance.
    pub closed spec fn spec_params(self) -> Params {
        self.params
    }

    /// What well-formedness says of the setup and the state.
    pub proof fn lemma_wf(self)
        requires
            self.wf(),
        ensures
            self.spec_params().wf(),
            self.setup().n == self.spec_params().spec_n(),
            self.setup().t == self.spec_params().t,
            self.setup().f == self.spec_params().f,
            self.setup().total_weight == self.spec_params().spec_total_weight(),
            self.setup().index < self.setup().n,
            self.model().phase is Failed || self.setup().valid(),
            node_wf(self.model(), self.setup().n),
    {
    }

    /// The state of participant `i` before any message. Where the field has
    /// no evaluation domain for the number of participants, the participant
    /// has given up from the start.
    pub fn init(params: Params, i: u32) -> (ctx: Context)
        requires
            params.wf(),
            i < params.spec_n(),
        ensures
            ctx.wf(),
            ctx.spec_params() == params,
            ctx.setup().index == i,
            match domain_spec(params.spec_n()) {
                Some(points) => ctx.setup().domain == points && ctx.model() == initial(),
                None => ctx.model() == (NodeModel { phase: Phase::Failed, ..initial() }),
            },
    {
        let n = params.n();
        let (domain, state) = match Domain::new(n) {
            Some(domain) => (domain, State::Init),
            None => (Domain::empty(), State::Failed),
        };
        proof {
            use_type_invariant(&domain);
            domain.lemma_distinct_nonzero();
        }
        let ctx = Context {
            params,
            index: i,
            domain,
            state,
            ready_sent: false,
            accepted: None,
            tallies: Vec::new(),
        };
        assert(ctx.model().tallies =~= Seq::empty());
        ctx
    }

    /// The parameters of the instance.
    pub fn params(&self) -> (p: &Params)
        ensures
            *p == self.spec_params(),
    {
        &self.params
    }

    /// The index of this participant.
    pub fn index(&self) -> (i: u32)
        ensures
            i == self.setup().index,
    {
        self.index
    }

    /// The evaluation domain of the instance.
    pub fn domain(&self) -> (d: Domain)
        ensures
            d@ == self.setup().domain,
    {
        self.domain.duplicate()
    }

    /// The phase of this participant.
    pub fn state(&self) -> (s: State)
        ensures
            s@ == self.model().phase,
    {
        self.state
    }

    /// Whether Ready was announced.
    pub fn ready_sent(&self) -> (sent: bool)
        ensures
            sent == self.model().ready_sent,
    {
        self.ready_sent
    }

    /// The number of Echos counted for the commitment `C`.
    pub fn echo_count(&self, C: &Commitment) -> (count: usize)
        ensures
            count == echo_count(self.model(), C@),
    {
        let at = self.find(C);
        proof {
            lemma_position(self.model().tallies, C@);
        }
        if at < self.tallies.len() {
            self.tallies[at].echoed.len()
        } else {
            0
        }
    }

    /// The number of Readys counted for the commitment `C`.
    pub fn ready_count(&self, C: &Commitment) -> (count: usize)
        ensures
            count == ready_count(self.model(), C@),
    {
        let at = self.find(C);
        proof {
            lemma_position(self.model().tallies, C@);
        }
        if at < self.tallies.len() {
            self.tallies[at].readied.len()
        } else {
            0
        }
    }

    /// The commitment of the Send that was accepted, if one was.
    pub fn accepted(&self) -> (c: Option<Commitment>)
        ensures
            match c {
                Some(c) => self.model().accepted == Some(c@),
                None => self.model().accepted.is_none(),
            },
    {
        match &self.accepted {
            Some(c) => Some(c.duplicate()),
            None => None,
        }
    }

    /// Gives the instance up: the caller's move on a contradiction that it
    /// has found, such as a second consistent Send with another commitment.
    pub fn fail(&mut self)
        requires
            old(self).wf(),
        ensures
            final(self).wf(),
            final(self).setup() == old(self).setup(),
            final(self).spec_params() == old(self).spec_params(),
            final(self).model() == (NodeModel { phase: Phase::Failed, ..old(self).model() }),
    {
        self.state = State::Failed;
    }

    /// Whether the evaluation domain has a point for every participant.
    fn has_domain(&self) -> (ok: bool)
        requires
            self.wf(),
        ensures
            ok == self.setup().valid(),
            ok == (self.domain@.len() == self.params.spec_n()),
    {
        self.domain.len() == self.params.w.len()
    }

    /// Whether `alpha` is the value at this participant's point of the
    /// polynomial that row `m` of `C` commits to.
    pub fn verify_point(&self, m: u32, C: &Commitment, alpha: &Scalar) -> (ok: bool)
        requires
            self.wf(),
        ensures
            ok == (self.setup().valid() && point_ok(self.setup(), m as nat, C@, alpha.value())),
    {
        if !self.has_domain() {
            return false;
        }
        let beta = self.domain.point(self.index as usize);
        C.verify_evaluation(self.params.n(), self.params.t, m, &beta, alpha)
    }

    /// Whether a Send is consistent for this participant.
    pub fn verify_share(&self, send: &Send) -> (ok: bool)
        requires
            self.wf(),
        ensures
            ok == (self.setup().valid() && share_ok(self.setup(), send@)),
    {
        if !self.has_domain() {
            return false;
        }
        let n = self.params.n();
        let t = self.params.t;
        if !send.C.is_well_shaped(n, t) || send.a.len() as u64 != t as u64 + 1 {
            return false;
        }
        let ghost setup = self.setup();
        let ghost coefficients = values(send.a@);
        let own_row = &send.C.rows[self.index as usize];
        assert(send.C@[self.index as int].len() == t + 1);
        let mut k: usize = 0;
        while k < send.a.len()
            invariant
                k <= send.a.len(),
                send.a.len() == t + 1,
                own_row@.len() == t + 1,
                row_view(own_row@) == send.C@[self.index as int],
                coefficients == values(send.a@),
                forall|b: int|
                    0 <= b < k ==> send.C@[self.index as int][b] == commit_spec(
                        #[trigger] coefficients[b],
                    ),
            decreases send.a.len() - k,
        {
            let committed = commit(&send.a[k]);
            if !committed.equals(&own_row[k]) {
                assert(send.C@[self.index as int][k as int] != commit_spec(coefficients[k as int]));
                return false;
            }
            k += 1;
        }
        let mut m: u32 = 0;
        while m < n
            invariant
                m <= n,
                self.wf(),
                setup == self.setup(),
                setup.valid(),
                n == self.params.spec_n(),
                coefficients == values(send.a@),
                forall|b: int|
                    0 <= b < m ==> point_ok(
                        setup,
                        b as nat,
                        send.C@,
                        eval_spec(coefficients, #[trigger] setup.domain[b]),
                    ),
            decreases n - m,
        {
            let at_m = evaluate(&send.a, &self.domain.point(m as usize));
            if !self.verify_point(m, &send.C, &at_m) {
                assert(!point_ok(
                    setup,
                    m as nat,
                    send.C@,
                    eval_spec(coefficients, setup.domain[m as int]),
                ));
                return false;
            }
            m += 1;
        }
        true
    }

    /// The index of the first tally for the commitment `c`, or the number of
    /// tallies where there is none.
    fn find(&self, c: &Commitment) -> (at: usize)
        ensures
            at == position(self.model().tallies, c@),
            at <= self.tallies@.len(),
    {
        let ghost models = tally_models(self.tallies@);
        let mut k: usize = 0;
        while k < self.tallies.len()
            invariant
                k <= self.tallies.len(),
                models == tally_models(self.tallies@),
                forall|j: int| 0 <= j < k ==> (#[trigger] models[j]).commitment != c@,
            decreases self.tallies.len() - k,
        {
            if self.tallies[k].commitment.equals(c) {
                proof {
                    lemma_position_is(models, c@, k as int);
                }
                return k;
            }
            k += 1;
        }
        proof {
            lemma_position_is(models, c@, k as int);
        }
        k
    }

    /// Counts a new valid Echo (`is_echo`) or Ready of `m` in the tally at
    /// `at`, or in a tally opened for `c` where `at` is past the last tally:
    /// the evaluation is added unless `m` has one, and `m` is noted as a
    /// sender.
    fn record(&mut self, at: usize, c: &Commitment, m: u32, alpha: &Scalar, is_echo: bool)
        requires
            old(self).wf(),
            at == position(old(self).model().tallies, c@),
            m < old(self).params.spec_n(),
        ensures
            final(self).params == old(self).params,
            final(self).index == old(self).index,
            final(self).domain == old(self).domain,
            final(self).state == old(self).state,
            final(self).ready_sent == old(self).ready_sent,
            final(self).accepted == old(self).accepted,
            final(self).wf(),
            at < final(self).tallies@.len(),
            final(self).model().tallies == store(
                old(self).model().tallies,
                if is_echo {
                    counted_echo(tally_of(old(self).model().tallies, c@), m as nat, alpha.value())
                } else {
                    counted_ready(tally_of(old(self).model().tallies, c@), m as nat, alpha.value())
                },
            ),
            final(self).model().tallies[at as int] == (if is_echo {
                counted_echo(tally_of(old(self).model().tallies, c@), m as nat, alpha.value())
            } else {
                counted_ready(tally_of(old(self).model().tallies, c@), m as nat, alpha.value())
            }),
            at == position(final(self).model().tallies, c@),
    {
        let ghost before = tally_models(self.tallies@);
        let ghost tally = tally_of(before, c@);
        let ghost after = if is_echo {
            counted_echo(tally, m as nat, alpha.value())
        } else {
            counted_ready(tally, m as nat, alpha.value())
        };
        let ghost n = self.params.spec_n();
        proof {
            lemma_position(before, c@);
        }
        let record = PointRecord { sender: m, value: *alpha };
        if at < self.tallies.len() {
            assert(before[at as int] == self.tallies@[at as int].model());
            assert(points_wf(before[at as int].points, n));
            if !has_record(&self.tallies[at].points, m) {
                let ghost old_points = self.tallies@[at as int].points@;
                self.tallies[at].points.push(record);
                assert(point_models(self.tallies@[at as int].points@) =~= point_models(
                    old_points,
                ).push(Evaluation { sender: m as nat, value: alpha.value() }));
                assert(points_wf(point_models(self.tallies@[at as int].points@), n)) by {
                    let p = point_models(self.tallies@[at as int].points@);
                    let q = point_models(old_points);
                    assert forall|a: int, b: int| 0 <= a < b < p.len() implies (
                    #[trigger] p[a]).sender != (#[trigger] p[b]).sender by {
                        if b < q.len() {
                            assert(p[a] == q[a] && p[b] == q[b]);
                        } else {
                            assert(p[a] == q[a]);
                        }
                    }
                    assert forall|a: int| 0 <= a < p.len() implies (#[trigger] p[a]).sender < n by {
                        if a < q.len() {
                            assert(p[a] == q[a]);
                        }
                    }
                }
            }
            let ghost old_echoed = self.tallies@[at as int].echoed@;
            let ghost old_readied = self.tallies@[at as int].readied@;
            if is_echo {
                self.tallies[at].echoed.push(m);
                assert(sender_models(self.tallies@[at as int].echoed@) =~= sender_models(
                    old_echoed,
                ).push(m as nat));
            } else {
                self.tallies[at].readied.push(m);
                assert(sender_models(self.tallies@[at as int].readied@) =~= sender_models(
                    old_readied,
                ).push(m as nat));
            }
            assert(self.tallies@[at as int].model() == after);
            assert(tally_models(self.tallies@) =~= before.update(at as int, after)) by {
                assert forall|k: int| 0 <= k < before.len() implies tally_models(self.tallies@)[k]
                    == before.update(at as int, after)[k] by {
                    if k != at {
                        assert(self.tallies@[k] == old(self).tallies@[k]);
                    }
                }
            }
        } else {
            let mut points: Vec<PointRecord> = Vec::new();
            points.push(record);
            let mut echoed: Vec<u32> = Vec::new();
            let mut readied: Vec<u32> = Vec::new();
            if is_echo {
                echoed.push(m);
            } else {
                readied.push(m);
            }
            let opened = Tally { commitment: c.duplicate(), points, echoed, readied };
            assert(opened.model().points =~= after.points) by {
                assert(!has_sender(Seq::<Evaluation>::empty(), m as nat));
            }
            assert(opened.model().echoed =~= after.echoed);
            assert(opened.model().readied =~= after.readied);
            assert(opened.model() == after);
            self.tallies.push(opened);
            assert(tally_models(self.tallies@) =~= before.push(after));
        }
        proof {
            let now = tally_models(self.tallies@);
            assert forall|k: int| 0 <= k < now.len() implies points_wf(
                (#[trigger] now[k]).points,
                n,
            ) by {
                if k != at {
                    assert(now[k] == before[k]);
                }
            }
            assert forall|j: int| 0 <= j < at implies (#[trigger] now[j]).commitment != c@ by {
                assert(now[j] == before[j]);
            }
            lemma_position_is(now, c@, at as int);
        }
    }

    /// The interpolation through the evaluations of the tally at `at` that an
    /// interpolation uses. It always exists: the senders are distinct, and so
    /// are their points.
    fn interpolation(&self, at: usize) -> (r: Option<Interpolation>)
        requires
            self.wf(),
            self.setup().valid(),
            at < self.tallies@.len(),
        ensures
            r.is_some(),
            r.unwrap().nodes() == nodes_of(
                self.model().tallies[at as int].points,
                self.setup().domain,
                used(self.model().tallies[at as int].points, self.setup().t),
            ),
            r.unwrap().node_values() == values_of(
                self.model().tallies[at as int].points,
                used(self.model().tallies[at as int].points, self.setup().t),
            ),
    {
        let records = &self.tallies[at].points;
        let ghost points = point_models(records@);
        let ghost domain = self.domain@;
        let ghost n = self.params.spec_n();
        assert(self.model().tallies[at as int].points == points);
        assert(points_wf(points, n));
        let limit: usize = if records.len() as u64 <= self.params.t as u64 + 1 {
            records.len()
        } else {
            (self.params.t as u64 + 1) as usize
        };
        assert(limit == used(points, self.setup().t));
        let mut xs: Vec<Scalar> = Vec::new();
        let mut ys: Vec<Scalar> = Vec::new();
        let mut a: usize = 0;
        while a < limit
            invariant
                a <= limit,
                limit <= records.len(),
                points == point_models(records@),
                points_wf(points, n),
                domain == self.domain@,
                domain.len() == n,
                xs@.len() == a,
                ys@.len() == a,
                forall|b: int|
                    0 <= b < a ==> (#[trigger] xs@[b]).value() == domain[points[b].sender as int],
                forall|b: int| 0 <= b < a ==> (#[trigger] ys@[b]).value() == points[b].value,
            decreases limit - a,
        {
            let record = &records[a];
            assert(points[a as int].sender == record.sender);
            xs.push(self.domain.point(record.sender as usize));
            ys.push(record.value);
            a += 1;
        }
        proof {
            assert(values(xs@) =~= nodes_of(points, domain, limit as nat));
            assert(values(ys@) =~= values_of(points, limit as nat));
            assert(distinct(values(xs@))) by {
                assert forall|j: int, m: int| 0 <= j < m < xs@.len() implies values(xs@)[j]
                    != values(xs@)[m] by {
                    let s_j = points[j].sender as int;
                    let s_m = points[m].sender as int;
                    assert(s_j != s_m);
                    if s_j < s_m {
                        assert(domain[s_j] != domain[s_m]);
                    } else {
                        assert(domain[s_m] != domain[s_j]);
                    }
                }
            }
        }
        Interpolation::new(xs, ys)
    }

    /// The Ready messages for the commitment `c` from the tally at `at`.
    fn announce(&self, at: usize, c: &Commitment) -> (r: Option<Vec<Ready>>)
        requires
            self.wf(),
            self.setup().valid(),
            at < self.tallies@.len(),
        ensures
            r.is_some(),
            ready_views(r.unwrap()@) == ready_messages(
                self.setup(),
                c@,
                self.model().tallies[at as int].points,
            ),
    {
        let interpolation = match self.interpolation(at) {
            Some(i) => i,
            None => {
                return None;
            },
        };
        let ghost setup = self.setup();
        let ghost points = self.model().tallies[at as int].points;
        let n = self.params.n();
        let mut readys: Vec<Ready> = Vec::new();
        let mut j: u32 = 0;
        while j < n
            invariant
                j <= n,
                self.wf(),
                setup == self.setup(),
                setup.valid(),
                n == setup.n,
                readys@.len() == j,
                interpolation.nodes() == nodes_of(points, setup.domain, used(points, setup.t)),
                interpolation.node_values() == values_of(points, used(points, setup.t)),
                forall|b: int|
                    0 <= b < j ==> (#[trigger] readys@[b])@ == (MessageModel {
                        commitment: c@,
                        alpha: interpolated(setup, points, setup.domain[b]),
                    }),
            decreases n - j,
        {
            let alpha = interpolation.evaluate(&self.domain.point(j as usize));
            readys.push(Ready { C: c.duplicate(), alpha });
            j += 1;
        }
        assert(ready_views(readys@) =~= ready_messages(setup, c@, points));
        Some(readys)
    }

    /// The Shared message for the commitment `c` from the tally at `at`.
    fn output(&self, at: usize, c: &Commitment) -> (r: Option<Shared>)
        requires
            self.wf(),
            self.setup().valid(),
            at < self.tallies@.len(),
        ensures
            r.is_some(),
            r.unwrap()@ == shared_message(self.setup(), c@, self.model().tallies[at as int].points),
    {
        let interpolation = match self.interpolation(at) {
            Some(i) => i,
            None => {
                return None;
            },
        };
        let s = interpolation.evaluate(&Scalar::zero());
        Some(Shared { C: c.duplicate(), s })
    }

    /// Handles an Echo of participant `m`.
    ///
    /// An Echo that fails the check against the commitment, or that repeats
    /// one that was counted, changes nothing and is not answered. A new
    /// valid Echo is counted; once the count for its commitment has reached
    /// the Echo threshold, and while no share was output, the answer is one
    /// Ready for each participant.
    pub fn echo(&mut self, m: u32, echo: &Echo) -> (r: EchoResponse)
        requires
            old(self).wf(),
        ensures
            final(self).wf(),
            final(self).setup() == old(self).setup(),
            final(self).spec_params() == old(self).spec_params(),
            final(self).model() == echo_step(
                old(self).setup(),
                old(self).model(),
                m as nat,
                echo@,
            ).0,
            echo_response_view(r) == echo_step(
                old(self).setup(),
                old(self).model(),
                m as nat,
                echo@,
            ).1,
    {
        if let State::Failed = self.state {
            return None;
        }
        if !self.verify_point(m, &echo.C, &echo.alpha) {
            return None;
        }
        let at = self.find(&echo.C);
        proof {
            lemma_position(self.model().tallies, echo.C@);
        }
        if at < self.tallies.len() && contains_sender(&self.tallies[at].echoed, m) {
            return None;
        }
        assert(!tally_of(self.model().tallies, echo.C@).echoed.contains(m as nat));
        self.record(at, &echo.C, m, &echo.alpha, true);
        let count = self.tallies[at].echoed.len();
        assert(count == self.model().tallies[at as int].echoed.len());
        if let State::Init = self.state {
            if count as u64 >= self.params.echo_threshold() {
                self.ready_sent = true;
                return self.announce(at, &echo.C);
            }
        }
        None
    }

    /// Handles a Ready of participant `m`.
    ///
    /// A Ready that fails the check against the commitment, or that repeats
    /// one that was counted, changes nothing and is not answered. A new
    /// valid Ready is counted. While no share was output: when the count for
    /// its commitment reaches the output threshold, the share is output, on
    /// the right; otherwise, when it reaches the amplification threshold and
    /// Ready was not announced yet, the answer is one Ready for each
    /// participant, on the left.
    pub fn ready(&mut self, m: u32, ready: &Ready) -> (r: ReadyResponse)
        requires
            old(self).wf(),
        ensures
            final(self).wf(),
            final(self).setup() == old(self).setup(),
            final(self).spec_params() == old(self).spec_params(),
            final(self).model() == ready_step(
                old(self).setup(),
                old(self).model(),
                m as nat,
                ready@,
            ).0,
            ready_response_view(r) == ready_step(
                old(self).setup(),
                old(self).model(),
                m as nat,
                ready@,
            ).1,
    {
        if let State::Failed = self.state {
            return None;
        }
        if !self.verify_point(m, &ready.C, &ready.alpha) {
            return None;
        }
        let at = self.find(&ready.C);
        proof {
            lemma_position(self.model().tallies, ready.C@);
        }
        if at < self.tallies.len() && contains_sender(&self.tallies[at].readied, m) {
            return None;
        }
        assert(!tally_of(self.model().tallies, ready.C@).readied.contains(m as nat));
        self.record(at, &ready.C, m, &ready.alpha, false);
        let count = self.tallies[at].readied.len();
        assert(count == self.model().tallies[at as int].readied.len());
        if let State::Init = self.state {
            if count as u64 == self.params.output_threshold() {
                let shared = match self.output(at, &ready.C) {
                    Some(shared) => shared,
                    None => {
                        return None;
                    },
                };
                self.state = State::Shared(shared.s);
                return Some(Either::Right(shared));
            }
            if count as u64 == self.params.amplify_threshold() && !self.ready_sent {
                let readys = match self.announce(at, &ready.C) {
                    Some(readys) => readys,
                    None => {
                        return None;
                    },
                };
                self.ready_sent = true;
                return Some(Either::Left(readys));
            }
        }
        None
    }

    /// The Echo messages for a Send.
    fn echoes(&self, send: &Send) -> (echos: Vec<Echo>)
        requires
            self.wf(),
            self.setup().valid(),
        ensures
            echo_views(echos@) == echo_messages(self.setup(), send@),
    {
        let ghost setup = self.setup();
        let n = self.params.n();
        let mut echos: Vec<Echo> = Vec::new();
        let mut j: u32 = 0;
        while j < n
            invariant
                j <= n,
                self.wf(),
                setup == self.setup(),
                setup.valid(),
                n == setup.n,
                echos@.len() == j,
                forall|b: int|
                    0 <= b < j ==> (#[trigger] echos@[b])@ == (MessageModel {
                        commitment: send.C@,
                        alpha: eval_spec(values(send.a@), setup.domain[b]),
                    }),
            decreases n - j,
        {
            let alpha = evaluate(&send.a, &self.domain.point(j as usize));
            echos.push(Echo { C: send.C.duplicate(), alpha });
            j += 1;
        }
        assert(echo_views(echos@) =~= echo_messages(setup, send@));
        echos
    }

    /// Handles a Send of the dealer.
    ///
    /// Only a participant that has neither output a share nor given up
    /// answers. A Send that is not consistent changes nothing and is not
    /// answered. A consistent Send is answered with one Echo for each
    /// participant, the first time and whenever it comes again. A consistent
    /// Send with another commitment than the one accepted before is not
    /// answered and changes nothing: on such a contradiction of the dealer
    /// the caller may give the instance up with `fail`.
    pub fn send(&mut self, send: Send) -> (r: SendResponse)
        requires
            old(self).wf(),
        ensures
            final(self).wf(),
            final(self).setup() == old(self).setup(),
            final(self).spec_params() == old(self).spec_params(),
            final(self).model() == send_step(old(self).setup(), old(self).model(), send@).0,
            send_response_view(r) == send_step(old(self).setup(), old(self).model(), send@).1,
    {
        match self.state {
            State::Init => {},
            _ => {
                return None;
            },
        }
        if !self.verify_share(&send) {
            return None;
        }
        let same = match &self.accepted {
            Some(c) => Some(c.equals(&send.C)),
            None => None,
        };
        match same {
            None => {
                self.accepted = Some(send.C.duplicate());
                Some(self.echoes(&send))
            },
            Some(true) => Some(self.echoes(&send)),
            Some(false) => None,
        }
    }

    /// The Sends for the polynomial `phi`, one for each participant. Nothing
    /// is dealt where the participant has no evaluation domain or the
    /// polynomial is not of degree `t`.
    pub fn deal(&self, phi: &BivariatePoly) -> (sends: ShareResponse)
        requires
            self.wf(),
        ensures
            self.setup().valid() && phi@.len() == self.setup().t + 1 ==> send_views(sends@)
                == deal_spec(self.setup(), phi@),
            !(self.setup().valid() && phi@.len() == self.setup().t + 1) ==> sends@.len() == 0,
    {
        let mut sends: Vec<Send> = Vec::new();
        if !self.has_domain() || phi.size() as u64 != self.params.t as u64 + 1 {
            return sends;
        }
        let ghost setup = self.setup();
        let n = self.params.n();
        let mut rows: Vec<Vec<G1Point>> = Vec::new();
        let mut polynomials: Vec<Vec<Scalar>> = Vec::new();
        let mut m: u32 = 0;
        while m < n
            invariant
                m <= n,
                self.wf(),
                setup == self.setup(),
                setup.valid(),
                n == setup.n,
                rows@.len() == m,
                polynomials@.len() == m,
                forall|b: int|
                    0 <= b < m ==> values((#[trigger] polynomials@[b])@) == row_polynomial_spec(
                        phi@,
                        setup.domain[b],
                    ),
                forall|b: int|
                    0 <= b < m ==> row_view((#[trigger] rows@[b])@) == commitment_spec(
                        setup,
                        phi@,
                    )[b],
            decreases n - m,
        {
            let polynomial = phi.row_polynomial(&self.domain.point(m as usize));
            let ghost coefficients = row_polynomial_spec(phi@, setup.domain[m as int]);
            let mut row: Vec<G1Point> = Vec::new();
            let mut k: usize = 0;
            while k < polynomial.len()
                invariant
                    k <= polynomial.len(),
                    values(polynomial@) == coefficients,
                    row@.len() == k,
                    forall|b: int|
                        0 <= b < k ==> (#[trigger] row@[b])@ == commit_spec(coefficients[b]),
                decreases polynomial.len() - k,
            {
                assert(values(polynomial@)[k as int] == polynomial@[k as int].value());
                row.push(commit(&polynomial[k]));
                k += 1;
            }
            assert(values(polynomial@).len() == polynomial@.len());
            assert(coefficients.len() == phi@.len());
            assert(row_view(row@) =~= commitment_spec(setup, phi@)[m as int]);
            rows.push(row);
            polynomials.push(polynomial);
            m += 1;
        }
        let commitment = Commitment { rows };
        assert(commitment@ =~= commitment_spec(setup, phi@));
        let mut m: usize = 0;
        while m < polynomials.len()
            invariant
                m <= polynomials.len(),
                polynomials@.len() == setup.n,
                setup.valid(),
                commitment@ == commitment_spec(setup, phi@),
                sends@.len() == m,
                forall|b: int|
                    0 <= b < polynomials@.len() ==> values((#[trigger] polynomials@[b])@)
                        == row_polynomial_spec(phi@, setup.domain[b]),
                forall|b: int| 0 <= b < m ==> (#[trigger] sends@[b])@ == deal_spec(setup, phi@)[b],
            decreases polynomials.len() - m,
        {
            let a = duplicate_scalars(&polynomials[m]);
            sends.push(Send { C: commitment.duplicate(), a });
            m += 1;
        }
        assert(send_views(sends@) =~= deal_spec(setup, phi@));
        sends
    }

    /// Whether this participant is the dealer.
    pub open spec fn is_dealer(self) -> bool {
        self.setup().index == self.spec_params().d
    }

    /// The dealer's move: shares the secret with a polynomial drawn from
    /// `rng`, and returns one Send for each participant. The polynomial is
    /// overwritten before it is dropped. The state does not change. Only the
    /// dealer deals, and only while it has neither output a share nor given
    /// up: otherwise nothing is returned.
    pub fn share(&mut self, rng: &mut StdRng, share: Share) -> (sends: ShareResponse)
        requires
            old(self).wf(),
        ensures
            *final(self) == *old(self),
            old(self).is_dealer() && old(self).model().phase is Init ==> exists|phi: Coefficients|
                shares_secret(phi, old(self).setup().t, share.s.value()) && send_views(sends@)
                    == #[trigger] deal_spec(old(self).setup(), phi),
            !(old(self).is_dealer() && old(self).model().phase is Init) ==> sends@.len() == 0,
    {
        let dealing = match self.state {
            State::Init => self.index == self.params.d,
            _ => false,
        };
        if !dealing {
            return Vec::new();
        }
        let mut phi = BivariatePoly::random(&share.s, self.params.t, rng);
        let sends = self.deal(&phi);
        assert(shares_secret(phi@, self.setup().t, share.s.value()));
        assert(send_views(sends@) == deal_spec(self.setup(), phi@));
        phi.zeroize();
        sends
    }
}

/// A copy of a list of field elements.
fn duplicate_scalars(source: &Vec<Scalar>) -> (copy: Vec<Scalar>)
    ensures
        copy@ == source@,
{
    let mut copy: Vec<Scalar> = Vec::new();
    let mut k: usize = 0;
    while k < source.len()
        invariant
            k <= source.len(),
            copy@ == source@.subrange(0, k as int),
        decreases source.len() - k,
    {
        copy.push(source[k]);
        k += 1;
        assert(copy@ =~= source@.subrange(0, k as int));
    }
    assert(source@.subrange(0, source.len() as int) =~= source@);
    copy
}

} // verus!
