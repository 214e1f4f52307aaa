//! The state machine of one participant as a pure function: from a state
//! and a message to the next state and what is sent in answer.
//!
//! Field elements stand here as their representatives, points as their
//! encodings. The handlers of a participant are stated against these
//! functions.

use crate::hybridvss::commitment::{commit_spec, evaluation_ok, well_shaped, CommitmentView};
use crate::hybridvss::domain::{distinct_nonzero, nodes_ok};
use crate::hybridvss::params::{
    amplify_threshold_spec, echo_threshold_spec, output_threshold_spec,
};
use crate::hybridvss::poly::{eval_spec, interpolate_spec};
use vstd::prelude::*;

verus! {

/// What stays fixed while a participant runs: the parameters, the
/// participant's own index and the evaluation domain.
pub struct Setup {
    pub n: nat,
    pub t: nat,
    pub f: nat,
    pub total_weight: nat,
    pub index: nat,
    pub domain: Seq<nat>,
}

impl Setup {
    /// The setup names a participant, gives every participant a point of its
    /// own, the differences of the points have inverses, and every threshold
    /// is positive.
    pub open spec fn valid(self) -> bool {
        &&& self.index < self.n
        &&& self.domain.len() == self.n
        &&& distinct_nonzero(self.domain)
        &&& nodes_ok(self.domain)
        &&& self.t + self.f < self.total_weight
    }

    /// The point of this participant.
    pub open spec fn own_point(self) -> nat {
        self.domain[self.index as int]
    }

    /// The number of valid Echos at which Ready is announced.
    pub open spec fn echo_threshold(self) -> nat {
        echo_threshold_spec(self.total_weight, self.t)
    }

    /// The number of valid Readys at which Ready is announced in turn.
    pub open spec fn amplify_threshold(self) -> nat {
        amplify_threshold_spec(self.f)
    }

    /// The number of valid Readys at which the share is output.
    pub open spec fn output_threshold(self) -> nat {
        output_threshold_spec(self.total_weight, self.t, self.f)
    }
}

/// A verified value of a participant's polynomial, with who sent it.
pub struct Evaluation {
    pub sender: nat,
    pub value: nat,
}

/// What a participant has counted for one commitment matrix: the verified
/// evaluations in the order of arrival, one for each sender, and the senders
/// of the Echos and of the Readys that were counted.
pub struct TallyModel {
    pub commitment: CommitmentView,
    pub points: Seq<Evaluation>,
    pub echoed: Seq<nat>,
    pub readied: Seq<nat>,
}

/// The phase of a participant.
pub enum Phase {
    /// No share was output yet.
    Init,
    /// The share was output.
    Shared(nat),
    /// The instance was given up.
    Failed,
}

/// The state of a participant.
pub struct NodeModel {
    pub phase: Phase,
    /// Whether Ready was announced, for whichever commitment.
    pub ready_sent: bool,
    /// The commitment of the Send that was accepted, if one was.
    pub accepted: Option<CommitmentView>,
    /// One tally for each commitment that a counted message carried.
    pub tallies: Seq<TallyModel>,
}

/// The content of an Echo or a Ready: a commitment matrix and one value.
pub struct MessageModel {
    pub commitment: CommitmentView,
    pub alpha: nat,
}

/// The content of a Send: a commitment matrix and the coefficients of the
/// receiver's polynomial.
pub struct SendModel {
    pub commitment: CommitmentView,
    pub coefficients: Seq<nat>,
}

/// The content of a Shared: a commitment matrix and the share.
pub struct SharedModel {
    pub commitment: CommitmentView,
    pub share: nat,
}

/// What a Ready is answered with.
pub enum ReadyOutcome {
    /// Nothing is sent.
    Silent,
    /// Ready is announced in turn, one message for each participant.
    Amplify(Seq<MessageModel>),
    /// The share is output.
    Output(SharedModel),
}

/// Every evaluation came from a participant, and no two from the same.
pub open spec fn points_wf(points: Seq<Evaluation>, n: nat) -> bool {
    &&& forall|a: int| 0 <= a < points.len() ==> (#[trigger] points[a]).sender < n
    &&& forall|a: int, b: int|
        0 <= a < b < points.len() ==> (#[trigger] points[a]).sender != (#[trigger] points[b]).sender
}

/// The evaluations of every tally came from distinct participants.
pub open spec fn node_wf(node: NodeModel, n: nat) -> bool {
    forall|k: int| 0 <= k < node.tallies.len() ==> points_wf((#[trigger] node.tallies[k]).points, n)
}

/// Whether some evaluation came from `sender`.
pub open spec fn has_sender(points: Seq<Evaluation>, sender: nat) -> bool {
    exists|k: int| 0 <= k < points.len() && (#[trigger] points[k]).sender == sender
}

/// The evaluations with that of `sender` added, unless it has one.
pub open spec fn with_point(points: Seq<Evaluation>, sender: nat, value: nat) -> Seq<Evaluation> {
    if has_sender(points, sender) {
        points
    } else {
        points.push(Evaluation { sender, value })
    }
}

/// The index of the first tally for the commitment `c`, or the number of
/// tallies where there is none.
pub open spec fn position(tallies: Seq<TallyModel>, c: CommitmentView) -> int
    decreases tallies.len(),
{
    if tallies.len() == 0 {
        0
    } else if tallies[0].commitment == c {
        0
    } else {
        1 + position(tallies.drop_first(), c)
    }
}

/// The tally for the commitment `c`: the first one kept for it, or an empty
/// one.
pub open spec fn tally_of(tallies: Seq<TallyModel>, c: CommitmentView) -> TallyModel {
    let at = position(tallies, c);
    if 0 <= at < tallies.len() {
        tallies[at]
    } else {
        TallyModel {
            commitment: c,
            points: Seq::empty(),
            echoed: Seq::empty(),
            readied: Seq::empty(),
        }
    }
}

/// The tallies with that for `tally.commitment` replaced by `tally`, or with
/// `tally` added where there was none.
pub open spec fn store(tallies: Seq<TallyModel>, tally: TallyModel) -> Seq<TallyModel> {
    let at = position(tallies, tally.commitment);
    if 0 <= at < tallies.len() {
        tallies.update(at, tally)
    } else {
        tallies.push(tally)
    }
}

/// The tally after a new valid Echo of `m` with the value `alpha`.
pub open spec fn counted_echo(tally: TallyModel, m: nat, alpha: nat) -> TallyModel {
    TallyModel {
        points: with_point(tally.points, m, alpha),
        echoed: tally.echoed.push(m),
        ..tally
    }
}

/// The tally after a new valid Ready of `m` with the value `alpha`.
pub open spec fn counted_ready(tally: TallyModel, m: nat, alpha: nat) -> TallyModel {
    TallyModel {
        points: with_point(tally.points, m, alpha),
        readied: tally.readied.push(m),
        ..tally
    }
}

/// The position is an index or the number of tallies; the tally at it is
/// for the commitment, and none before it is.
pub proof fn lemma_position(tallies: Seq<TallyModel>, c: CommitmentView)
    ensures
        0 <= position(tallies, c) <= tallies.len(),
        position(tallies, c) < tallies.len() ==> tallies[position(tallies, c)].commitment == c,
        forall|j: int| 0 <= j < position(tallies, c) ==> (#[trigger] tallies[j]).commitment != c,
    decreases tallies.len(),
{
    if tallies.len() > 0 && tallies[0].commitment != c {
        let rest = tallies.drop_first();
        lemma_position(rest, c);
        assert forall|j: int| 0 <= j < position(tallies, c) implies (
        #[trigger] tallies[j]).commitment != c by {
            if j > 0 {
                assert(tallies[j] == rest[j - 1]);
            }
        }
    }
}

/// An index is the position if the tally at it, where there is one, is for
/// the commitment, and none before it is.
pub proof fn lemma_position_is(tallies: Seq<TallyModel>, c: CommitmentView, at: int)
    requires
        0 <= at <= tallies.len(),
        at < tallies.len() ==> tallies[at].commitment == c,
        forall|j: int| 0 <= j < at ==> (#[trigger] tallies[j]).commitment != c,
    ensures
        position(tallies, c) == at,
{
    lemma_position(tallies, c);
    let p = position(tallies, c);
    if p < at {
        assert(tallies[p].commitment != c);
    } else if at < p {
        assert(tallies[at].commitment != c);
    }
}

/// The number of evaluations that an interpolation uses: the first `t + 1`,
/// or all where there are fewer.
pub open spec fn used(points: Seq<Evaluation>, t: nat) -> nat {
    if points.len() <= t + 1 {
        points.len()
    } else {
        t + 1
    }
}

/// The points of the senders of the first `k` evaluations.
pub open spec fn nodes_of(points: Seq<Evaluation>, domain: Seq<nat>, k: nat) -> Seq<nat> {
    Seq::new(k, |a: int| domain[points[a].sender as int])
}

/// The values of the first `k` evaluations.
pub open spec fn values_of(points: Seq<Evaluation>, k: nat) -> Seq<nat> {
    Seq::new(k, |a: int| points[a].value)
}

/// The value at `x` of the polynomial through the evaluations that an
/// interpolation uses.
pub open spec fn interpolated(setup: Setup, points: Seq<Evaluation>, x: nat) -> nat {
    let k = used(points, setup.t);
    interpolate_spec(nodes_of(points, setup.domain, k), values_of(points, k), x)
}

/// The Ready messages that a participant sends for the commitment `c`: to
/// participant `j` the value of the interpolated polynomial at its point.
pub open spec fn ready_messages(setup: Setup, c: CommitmentView, points: Seq<Evaluation>) -> Seq<
    MessageModel,
> {
    Seq::new(
        setup.n,
        |j: int|
            MessageModel { commitment: c, alpha: interpolated(setup, points, setup.domain[j]) },
    )
}

/// The Shared message that a participant outputs for the commitment `c`: the
/// value of the interpolated polynomial at zero.
pub open spec fn shared_message(
    setup: Setup,
    c: CommitmentView,
    points: Seq<Evaluation>,
) -> SharedModel {
    SharedModel { commitment: c, share: interpolated(setup, points, 0) }
}

/// Whether the value `alpha` that participant `m` sent with the commitment
/// `c` is the value of `m`'s committed polynomial at the receiver's point.
pub open spec fn point_ok(setup: Setup, m: nat, c: CommitmentView, alpha: nat) -> bool {
    evaluation_ok(c, setup.n, setup.t, m, setup.own_point(), alpha)
}

/// Whether a Send is consistent: the matrix has the right shape, the
/// polynomial has `t + 1` coefficients, each of them is committed to in the
/// receiver's row, and the value of the polynomial at every participant's
/// point is the value that this participant's row commits to at the
/// receiver's point.
pub open spec fn share_ok(setup: Setup, send: SendModel) -> bool {
    &&& well_shaped(send.commitment, setup.n, setup.t)
    &&& send.coefficients.len() == setup.t + 1
    &&& forall|k: int|
        0 <= k <= setup.t ==> send.commitment[setup.index as int][k] == commit_spec(
            #[trigger] send.coefficients[k],
        )
    &&& forall|m: int|
        0 <= m < setup.n ==> point_ok(
            setup,
            m as nat,
            send.commitment,
            eval_spec(send.coefficients, #[trigger] setup.domain[m]),
        )
}

/// The Echo messages that a participant sends on a Send: to participant `j`
/// the value of its polynomial at the point of `j`.
pub open spec fn echo_messages(setup: Setup, send: SendModel) -> Seq<MessageModel> {
    Seq::new(
        setup.n,
        |j: int|
            MessageModel {
                commitment: send.commitment,
                alpha: eval_spec(send.coefficients, setup.domain[j]),
            },
    )
}

/// The answer to a Send. Only a participant in the phase Init answers. A
/// consistent Send is echoed, the first time and whenever it comes again.
/// A consistent Send with another commitment than the accepted one is not
/// answered and changes nothing: it is for the caller to give the instance
/// up on such a contradiction of the dealer.
pub open spec fn send_step(setup: Setup, node: NodeModel, send: SendModel) -> (
    NodeModel,
    Option<Seq<MessageModel>>,
) {
    if !(node.phase is Init) || !share_ok(setup, send) {
        (node, None)
    } else {
        match node.accepted {
            None => (
                NodeModel { accepted: Some(send.commitment), ..node },
                Some(echo_messages(setup, send)),
            ),
            Some(c) => if c == send.commitment {
                (node, Some(echo_messages(setup, send)))
            } else {
                (node, None)
            },
        }
    }
}

/// The answer to an Echo of participant `m`. An Echo that fails the check,
/// or that repeats one that was counted, changes nothing. A new valid Echo is
/// counted, and in the phase Init it is answered with Ready once the count
/// for its commitment has reached the threshold: the first time when the
/// count is the threshold, and again on every later Echo.
pub open spec fn echo_step(setup: Setup, node: NodeModel, m: nat, echo: MessageModel) -> (
    NodeModel,
    Option<Seq<MessageModel>>,
) {
    let tally = tally_of(node.tallies, echo.commitment);
    if node.phase is Failed || !point_ok(setup, m, echo.commitment, echo.alpha)
        || tally.echoed.contains(m) {
        (node, None)
    } else {
        let counted = counted_echo(tally, m, echo.alpha);
        let tallies = store(node.tallies, counted);
        if node.phase is Init && counted.echoed.len() >= setup.echo_threshold() {
            (
                NodeModel { tallies, ready_sent: true, ..node },
                Some(ready_messages(setup, echo.commitment, counted.points)),
            )
        } else {
            (NodeModel { tallies, ..node }, None)
        }
    }
}

/// The answer to a Ready of participant `m`. A Ready that fails the check,
/// or that repeats one that was counted, changes nothing. A new valid Ready
/// is counted. In the phase Init, when the count for its commitment reaches
/// the output threshold the share is output, and otherwise, when it reaches
/// the amplification threshold and Ready was not announced yet, Ready is
/// announced.
pub open spec fn ready_step(setup: Setup, node: NodeModel, m: nat, ready: MessageModel) -> (
    NodeModel,
    ReadyOutcome,
) {
    let tally = tally_of(node.tallies, ready.commitment);
    if node.phase is Failed || !point_ok(setup, m, ready.commitment, ready.alpha)
        || tally.readied.contains(m) {
        (node, ReadyOutcome::Silent)
    } else {
        let counted = counted_ready(tally, m, ready.alpha);
        let tallies = store(node.tallies, counted);
        if node.phase is Init && counted.readied.len() == setup.output_threshold() {
            let shared = shared_message(setup, ready.commitment, counted.points);
            (
                NodeModel { tallies, phase: Phase::Shared(shared.share), ..node },
                ReadyOutcome::Output(shared),
            )
        } else if node.phase is Init && counted.readied.len() == setup.amplify_threshold()
            && !node.ready_sent {
            (
                NodeModel { tallies, ready_sent: true, ..node },
                ReadyOutcome::Amplify(ready_messages(setup, ready.commitment, counted.points)),
            )
        } else {
            (NodeModel { tallies, ..node }, ReadyOutcome::Silent)
        }
    }
}

/// The state of a participant that has received nothing.
pub open spec fn initial() -> NodeModel {
    NodeModel { phase: Phase::Init, ready_sent: false, accepted: None, tallies: Seq::empty() }
}

/// The number of Echos counted for the commitment `c`.
pub open spec fn echo_count(node: NodeModel, c: CommitmentView) -> nat {
    tally_of(node.tallies, c).echoed.len()
}

/// The number of Readys counted for the commitment `c`.
pub open spec fn ready_count(node: NodeModel, c: CommitmentView) -> nat {
    tally_of(node.tallies, c).readied.len()
}

/// Whether `share` is the share of participant `j` under the commitment
/// `c`: the constant term that row `j` commits to.
pub open spec fn share_consistent(n: nat, t: nat, c: CommitmentView, j: nat, share: nat) -> bool {
    &&& well_shaped(c, n, t)
    &&& j < n
    &&& c[j as int][0] == commit_spec(share)
}

/// The secret that `t + 1` accepted shares give: the value at zero of the
/// polynomial through them.
pub open spec fn reconstructed(t: nat, domain: Seq<nat>, shares: Seq<Evaluation>) -> nat {
    interpolate_spec(nodes_of(shares, domain, t + 1), values_of(shares, t + 1), 0)
}

/// The answer of a reconstruction to the share `share` of participant `j`.
/// A share that is not consistent with the commitment, or a second share of
/// a participant, changes nothing. A new consistent share is accepted, and
/// the secret is returned when it is the share number `t + 1`.
pub open spec fn reconstruct_step(
    n: nat,
    t: nat,
    domain: Seq<nat>,
    c: CommitmentView,
    shares: Seq<Evaluation>,
    j: nat,
    share: nat,
) -> (Seq<Evaluation>, Option<nat>) {
    if domain.len() != n || !share_consistent(n, t, c, j, share) || has_sender(shares, j) {
        (shares, None)
    } else {
        let accepted = shares.push(Evaluation { sender: j, value: share });
        if accepted.len() == t + 1 {
            (accepted, Some(reconstructed(t, domain, accepted)))
        } else {
            (accepted, None)
        }
    }
}

} // verus!
