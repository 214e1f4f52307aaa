//! What holds of the state machine of a participant, whatever messages
//! arrive: the thresholds at which it answers, that it answers once, that a
//! repeated message changes nothing, and that it never leaves a final phase.
//! Then what holds of a dealer's Sends: that they pass the check of their
//! receivers, as far as the law of the group is granted, and that they fail
//! it once they are changed.

use crate::bls12_381::fr::modulus;
use crate::bls12_381::g1::{generator_encoding, scalar_law_at};
use crate::bls12_381::reduction::{
    lemma_add_reduce, lemma_mul_reduce, lemma_reduce_bound, lemma_reduce_small,
};
use crate::hybridvss::bivariate::{
    row_polynomial_spec, shares_secret, square, symmetric, Coefficients,
};
use crate::hybridvss::commitment::{
    commit_spec, evaluation_ok, row_eval_spec, well_shaped, CommitmentView,
};
use crate::hybridvss::exactness::{
    lemma_eval_bound, lemma_symmetric_value, reduced, reduced_coefficients,
};
use crate::hybridvss::poly::eval_spec;
use crate::hybridvss::sh::{commitment_spec, deal_spec};
use crate::hybridvss::model::{
    counted_echo, counted_ready, echo_count, echo_step, has_sender, lemma_position,
    lemma_position_is, node_wf, point_ok, points_wf, position, ready_count, ready_messages,
    ready_step, reconstruct_step, reconstructed, send_step, share_consistent, share_ok,
    shared_message, store, tally_of, used, with_point, Evaluation, MessageModel, NodeModel, Phase,
    ReadyOutcome, SendModel, Setup, TallyModel,
};
use vstd::prelude::*;

verus! {

/// After a tally is stored, it is the tally of its commitment, and the
/// tally of every other commitment is what it was.
pub proof fn lemma_store_lookup(tallies: Seq<TallyModel>, tally: TallyModel, c: CommitmentView)
    ensures
        tally_of(store(tallies, tally), tally.commitment) == tally,
        c != tally.commitment ==> tally_of(store(tallies, tally), c) == tally_of(tallies, c),
{
    let at = position(tallies, tally.commitment);
    let stored = store(tallies, tally);
    lemma_position(tallies, tally.commitment);
    assert forall|j: int| 0 <= j < at implies (#[trigger] stored[j]).commitment
        != tally.commitment by {
        assert(stored[j] == tallies[j]);
    }
    lemma_position_is(stored, tally.commitment, at);
    if c != tally.commitment {
        let p = position(tallies, c);
        lemma_position(tallies, c);
        assert forall|j: int| 0 <= j < p implies (#[trigger] stored[j]).commitment != c by {
            if j != at {
                assert(stored[j] == tallies[j]);
            }
        }
        if p < tallies.len() {
            assert(p != at);
            assert(stored[p] == tallies[p]);
            lemma_position_is(stored, c, p);
        } else {
            lemma_position(stored, c);
            let q = position(stored, c);
            if q < stored.len() {
                if q != at {
                    assert(stored[q] == tallies[q]);
                    assert(tallies[q].commitment != c);
                }
            }
        }
    }
}

/// The evaluations stay those of distinct participants when the evaluation
/// of a participant is added.
pub proof fn lemma_with_point_wf(points: Seq<Evaluation>, n: nat, m: nat, value: nat)
    requires
        points_wf(points, n),
        m < n,
    ensures
        points_wf(with_point(points, m, value), n),
{
    let added = with_point(points, m, value);
    if !has_sender(points, m) {
        assert forall|a: int, b: int| 0 <= a < b < added.len() implies (#[trigger] added[a]).sender
            != (#[trigger] added[b]).sender by {
            if b < points.len() {
                assert(added[a] == points[a] && added[b] == points[b]);
            } else {
                assert(added[a] == points[a]);
            }
        }
        assert forall|a: int| 0 <= a < added.len() implies (#[trigger] added[a]).sender < n by {
            if a < points.len() {
                assert(added[a] == points[a]);
            }
        }
    }
}

/// The evaluations of every tally stay those of distinct participants when
/// a tally of that kind is stored.
pub proof fn lemma_store_wf(node: NodeModel, tally: TallyModel, n: nat)
    requires
        node_wf(node, n),
        points_wf(tally.points, n),
    ensures
        node_wf(NodeModel { tallies: store(node.tallies, tally), ..node }, n),
{
    let stored = store(node.tallies, tally);
    let at = position(node.tallies, tally.commitment);
    lemma_position(node.tallies, tally.commitment);
    assert forall|k: int| 0 <= k < stored.len() implies points_wf(
        (#[trigger] stored[k]).points,
        n,
    ) by {
        if k != at {
            assert(stored[k] == node.tallies[k]);
        }
    }
}

/// The tally of a commitment in a well-formed state is well formed.
pub proof fn lemma_tally_wf(node: NodeModel, c: CommitmentView, n: nat)
    requires
        node_wf(node, n),
    ensures
        points_wf(tally_of(node.tallies, c).points, n),
{
    lemma_position(node.tallies, c);
}

/// Every handler keeps the evaluations of every tally those of distinct
/// participants.
pub proof fn lemma_steps_keep_wf(
    setup: Setup,
    node: NodeModel,
    m: nat,
    message: MessageModel,
    send: SendModel,
)
    requires
        node_wf(node, setup.n),
    ensures
        node_wf(echo_step(setup, node, m, message).0, setup.n),
        node_wf(ready_step(setup, node, m, message).0, setup.n),
        node_wf(send_step(setup, node, send).0, setup.n),
{
    let tally = tally_of(node.tallies, message.commitment);
    lemma_tally_wf(node, message.commitment, setup.n);
    if point_ok(setup, m, message.commitment, message.alpha) {
        lemma_with_point_wf(tally.points, setup.n, m, message.alpha);
        lemma_store_wf(node, counted_echo(tally, m, message.alpha), setup.n);
        lemma_store_wf(node, counted_ready(tally, m, message.alpha), setup.n);
    }
}

/// A participant that has output its share keeps the share, and one that
/// has given up stays so: no handler leaves a final phase.
pub proof fn lemma_final_phases_stay(
    setup: Setup,
    node: NodeModel,
    m: nat,
    message: MessageModel,
    send: SendModel,
)
    requires
        !(node.phase is Init),
    ensures
        echo_step(setup, node, m, message).0.phase == node.phase,
        ready_step(setup, node, m, message).0.phase == node.phase,
        send_step(setup, node, send).0.phase == node.phase,
        echo_step(setup, node, m, message).1.is_none(),
        ready_step(setup, node, m, message).1 is Silent,
        send_step(setup, node, send).1.is_none(),
{
}

/// A participant that has given up changes no more.
pub proof fn lemma_failed_is_frozen(
    setup: Setup,
    node: NodeModel,
    m: nat,
    message: MessageModel,
    send: SendModel,
)
    requires
        node.phase is Failed,
    ensures
        echo_step(setup, node, m, message).0 == node,
        ready_step(setup, node, m, message).0 == node,
        send_step(setup, node, send).0 == node,
{
}

/// The commitment that a participant has accepted from the dealer never
/// changes.
pub proof fn lemma_accepted_commitment_stays(
    setup: Setup,
    node: NodeModel,
    m: nat,
    message: MessageModel,
    send: SendModel,
)
    requires
        node.accepted.is_some(),
    ensures
        echo_step(setup, node, m, message).0.accepted == node.accepted,
        ready_step(setup, node, m, message).0.accepted == node.accepted,
        send_step(setup, node, send).0.accepted == node.accepted,
{
}

/// Once Ready was announced, it stays announced.
pub proof fn lemma_ready_sent_stays(
    setup: Setup,
    node: NodeModel,
    m: nat,
    message: MessageModel,
    send: SendModel,
)
    requires
        node.ready_sent,
    ensures
        echo_step(setup, node, m, message).0.ready_sent,
        ready_step(setup, node, m, message).0.ready_sent,
        send_step(setup, node, send).0.ready_sent,
{
}

/// A valid Echo of a participant whose Echo for the commitment was not
/// counted raises the count for that commitment by one and leaves the count
/// for every other commitment, and every count of Readys, as it was. It is
/// answered exactly if no share was output and the new count has reached the
/// Echo threshold, and then with the Ready messages of the commitment.
pub proof fn lemma_echo_counted(
    setup: Setup,
    node: NodeModel,
    m: nat,
    echo: MessageModel,
    other: CommitmentView,
)
    requires
        !(node.phase is Failed),
        point_ok(setup, m, echo.commitment, echo.alpha),
        !tally_of(node.tallies, echo.commitment).echoed.contains(m),
    ensures
        echo_count(echo_step(setup, node, m, echo).0, echo.commitment) == echo_count(
            node,
            echo.commitment,
        ) + 1,
        tally_of(echo_step(setup, node, m, echo).0.tallies, echo.commitment).echoed.contains(m),
        other != echo.commitment ==> echo_count(echo_step(setup, node, m, echo).0, other)
            == echo_count(node, other),
        ready_count(echo_step(setup, node, m, echo).0, other) == ready_count(node, other),
        echo_step(setup, node, m, echo).1.is_some() == (node.phase is Init && echo_count(
            node,
            echo.commitment,
        ) + 1 >= setup.echo_threshold()),
        echo_step(setup, node, m, echo).1.is_some() ==> echo_step(setup, node, m, echo).1
            == Some(
            ready_messages(
                setup,
                echo.commitment,
                tally_of(echo_step(setup, node, m, echo).0.tallies, echo.commitment).points,
            ),
        ),
{
    let tally = tally_of(node.tallies, echo.commitment);
    let counted = counted_echo(tally, m, echo.alpha);
    lemma_position(node.tallies, echo.commitment);
    assert(counted.commitment == echo.commitment);
    lemma_store_lookup(node.tallies, counted, other);
    lemma_store_lookup(node.tallies, counted, echo.commitment);
    assert(counted.echoed[counted.echoed.len() - 1] == m);
}

/// An Echo that fails the check, or whose sender's Echo for the commitment
/// was counted, changes nothing and is not answered.
pub proof fn lemma_echo_ignored(setup: Setup, node: NodeModel, m: nat, echo: MessageModel)
    requires
        !point_ok(setup, m, echo.commitment, echo.alpha) || tally_of(
            node.tallies,
            echo.commitment,
        ).echoed.contains(m),
    ensures
        echo_step(setup, node, m, echo) == (node, None::<Seq<MessageModel>>),
{
}

/// Handling the same Echo of the same participant a second time changes
/// nothing and is not answered.
pub proof fn lemma_echo_replay(setup: Setup, node: NodeModel, m: nat, echo: MessageModel)
    ensures
        echo_step(setup, echo_step(setup, node, m, echo).0, m, echo) == (
            echo_step(setup, node, m, echo).0,
            None::<Seq<MessageModel>>,
        ),
{
    let tally = tally_of(node.tallies, echo.commitment);
    if !(node.phase is Failed) && point_ok(setup, m, echo.commitment, echo.alpha)
        && !tally.echoed.contains(m) {
        lemma_echo_counted(setup, node, m, echo, echo.commitment);
    }
}

/// A valid Ready of a participant whose Ready for the commitment was not
/// counted raises the count for that commitment by one and leaves the count
/// for every other commitment, and every count of Echos, as it was.
pub proof fn lemma_ready_counted(
    setup: Setup,
    node: NodeModel,
    m: nat,
    ready: MessageModel,
    other: CommitmentView,
)
    requires
        !(node.phase is Failed),
        point_ok(setup, m, ready.commitment, ready.alpha),
        !tally_of(node.tallies, ready.commitment).readied.contains(m),
    ensures
        ready_count(ready_step(setup, node, m, ready).0, ready.commitment) == ready_count(
            node,
            ready.commitment,
        ) + 1,
        tally_of(ready_step(setup, node, m, ready).0.tallies, ready.commitment).readied.contains(
            m,
        ),
        other != ready.commitment ==> ready_count(ready_step(setup, node, m, ready).0, other)
            == ready_count(node, other),
        echo_count(ready_step(setup, node, m, ready).0, other) == echo_count(node, other),
{
    let tally = tally_of(node.tallies, ready.commitment);
    let counted = counted_ready(tally, m, ready.alpha);
    lemma_position(node.tallies, ready.commitment);
    assert(counted.commitment == ready.commitment);
    lemma_store_lookup(node.tallies, counted, other);
    lemma_store_lookup(node.tallies, counted, ready.commitment);
    assert(counted.readied[counted.readied.len() - 1] == m);
}

/// Handling the same Ready of the same participant a second time changes
/// nothing and is not answered.
pub proof fn lemma_ready_replay(setup: Setup, node: NodeModel, m: nat, ready: MessageModel)
    ensures
        ready_step(setup, ready_step(setup, node, m, ready).0, m, ready) == (
            ready_step(setup, node, m, ready).0,
            ReadyOutcome::Silent,
        ),
{
    let tally = tally_of(node.tallies, ready.commitment);
    if !(node.phase is Failed) && point_ok(setup, m, ready.commitment, ready.alpha)
        && !tally.readied.contains(m) {
        lemma_ready_counted(setup, node, m, ready, ready.commitment);
    }
}

/// Handling the same Send a second time leaves the state as the first time
/// left it.
pub proof fn lemma_send_replay(setup: Setup, node: NodeModel, send: SendModel)
    ensures
        send_step(setup, send_step(setup, node, send).0, send).0 == send_step(setup, node, send).0,
{
}

/// The valid Ready that brings the count for its commitment to the output
/// threshold, while no share was output, is answered with the share: the
/// value at zero of the polynomial through the evaluations for that
/// commitment. The participant then holds that share.
pub proof fn lemma_output_at_threshold(setup: Setup, node: NodeModel, m: nat, ready: MessageModel)
    requires
        node.phase is Init,
        point_ok(setup, m, ready.commitment, ready.alpha),
        !tally_of(node.tallies, ready.commitment).readied.contains(m),
        ready_count(node, ready.commitment) + 1 == setup.output_threshold(),
    ensures
        ready_step(setup, node, m, ready).1 == ReadyOutcome::Output(
            shared_message(
                setup,
                ready.commitment,
                tally_of(ready_step(setup, node, m, ready).0.tallies, ready.commitment).points,
            ),
        ),
        ready_step(setup, node, m, ready).0.phase == Phase::Shared(
            ready_step(setup, node, m, ready).1->Output_0.share,
        ),
{
    let counted = counted_ready(
        tally_of(node.tallies, ready.commitment),
        m,
        ready.alpha,
    );
    lemma_position(node.tallies, ready.commitment);
    lemma_store_lookup(node.tallies, counted, ready.commitment);
}

/// A share is output only by the valid Ready that brings the count for its
/// commitment to the output threshold while no share was output.
pub proof fn lemma_output_only_at_threshold(
    setup: Setup,
    node: NodeModel,
    m: nat,
    ready: MessageModel,
)
    requires
        ready_step(setup, node, m, ready).1 is Output,
    ensures
        node.phase is Init,
        point_ok(setup, m, ready.commitment, ready.alpha),
        !tally_of(node.tallies, ready.commitment).readied.contains(m),
        ready_count(node, ready.commitment) + 1 == setup.output_threshold(),
{
}

/// After the share was output, a further valid Ready is counted and not
/// answered.
pub proof fn lemma_ready_after_output(setup: Setup, node: NodeModel, m: nat, ready: MessageModel)
    requires
        node.phase is Shared,
        point_ok(setup, m, ready.commitment, ready.alpha),
        !tally_of(node.tallies, ready.commitment).readied.contains(m),
    ensures
        ready_step(setup, node, m, ready).1 is Silent,
        ready_step(setup, node, m, ready).0.phase == node.phase,
        ready_count(ready_step(setup, node, m, ready).0, ready.commitment) == ready_count(
            node,
            ready.commitment,
        ) + 1,
{
    lemma_ready_counted(setup, node, m, ready, ready.commitment);
}

/// The valid Ready that brings the count for its commitment to the
/// amplification threshold, while no share was output and Ready was not
/// announced, is answered with the Ready messages of the commitment, and
/// Ready counts as announced from then on. Where the two thresholds for
/// Readys are the same number, the share is output instead.
pub proof fn lemma_amplify_at_threshold(setup: Setup, node: NodeModel, m: nat, ready: MessageModel)
    requires
        node.phase is Init,
        !node.ready_sent,
        point_ok(setup, m, ready.commitment, ready.alpha),
        !tally_of(node.tallies, ready.commitment).readied.contains(m),
        ready_count(node, ready.commitment) + 1 == setup.amplify_threshold(),
        setup.amplify_threshold() != setup.output_threshold(),
    ensures
        ready_step(setup, node, m, ready).1 == ReadyOutcome::Amplify(
            ready_messages(
                setup,
                ready.commitment,
                tally_of(ready_step(setup, node, m, ready).0.tallies, ready.commitment).points,
            ),
        ),
        ready_step(setup, node, m, ready).0.ready_sent,
        ready_step(setup, node, m, ready).0.phase is Init,
{
    let counted = counted_ready(
        tally_of(node.tallies, ready.commitment),
        m,
        ready.alpha,
    );
    lemma_position(node.tallies, ready.commitment);
    lemma_store_lookup(node.tallies, counted, ready.commitment);
}

/// Ready is announced in answer to a Ready only at the amplification
/// threshold and only where it was not announced before; it is announced
/// from then on, so that no later Ready is answered in that way.
pub proof fn lemma_amplify_once(setup: Setup, node: NodeModel, m: nat, ready: MessageModel)
    requires
        ready_step(setup, node, m, ready).1 is Amplify,
    ensures
        node.phase is Init,
        !node.ready_sent,
        ready_step(setup, node, m, ready).0.ready_sent,
        ready_count(node, ready.commitment) + 1 == setup.amplify_threshold(),
{
}

/// Where Ready was announced, no Ready is answered with Ready.
pub proof fn lemma_no_second_amplification(
    setup: Setup,
    node: NodeModel,
    m: nat,
    ready: MessageModel,
)
    requires
        node.ready_sent,
    ensures
        !(ready_step(setup, node, m, ready).1 is Amplify),
{
}

/// A consistent share of a participant none of whose shares was accepted is
/// accepted, and it is answered with the secret exactly if it is the share
/// number `t + 1`: with `t` shares or fewer accepted nothing is returned.
pub proof fn lemma_reconstruct_at_threshold(
    n: nat,
    t: nat,
    domain: Seq<nat>,
    c: CommitmentView,
    shares: Seq<Evaluation>,
    j: nat,
    share: nat,
)
    requires
        domain.len() == n,
        share_consistent(n, t, c, j, share),
        !has_sender(shares, j),
    ensures
        reconstruct_step(n, t, domain, c, shares, j, share).0.len() == shares.len() + 1,
        reconstruct_step(n, t, domain, c, shares, j, share).1.is_some() == (shares.len() == t),
        shares.len() == t ==> reconstruct_step(n, t, domain, c, shares, j, share).1 == Some(
            reconstructed(t, domain, reconstruct_step(n, t, domain, c, shares, j, share).0),
        ),
{
}

/// A share that is not consistent with the commitment, or a second share of
/// a participant, changes nothing and gives nothing; so does the same share
/// handled a second time.
pub proof fn lemma_reconstruct_replay(
    n: nat,
    t: nat,
    domain: Seq<nat>,
    c: CommitmentView,
    shares: Seq<Evaluation>,
    j: nat,
    share: nat,
)
    ensures
        reconstruct_step(
            n,
            t,
            domain,
            c,
            reconstruct_step(n, t, domain, c, shares, j, share).0,
            j,
            share,
        ) == (reconstruct_step(n, t, domain, c, shares, j, share).0, None::<nat>),
{
    let accepted = reconstruct_step(n, t, domain, c, shares, j, share).0;
    if accepted != shares {
        assert(accepted[accepted.len() - 1].sender == j);
    }
}

/// A message as it arrives: with the participant that sent it.
pub struct Delivery {
    pub sender: nat,
    pub message: MessageModel,
}

/// Every message carries the commitment `c` and passes the check for its
/// sender, and no two messages have the same sender.
pub open spec fn valid_deliveries(setup: Setup, c: CommitmentView, trace: Seq<Delivery>) -> bool {
    &&& forall|a: int|
        0 <= a < trace.len() ==> (#[trigger] trace[a]).message.commitment == c && point_ok(
            setup,
            trace[a].sender,
            c,
            trace[a].message.alpha,
        )
    &&& forall|a: int, b: int|
        0 <= a < b < trace.len() ==> (#[trigger] trace[a]).sender != (#[trigger] trace[b]).sender
}

/// The senders of the messages.
pub open spec fn senders(trace: Seq<Delivery>) -> Seq<nat> {
    Seq::new(trace.len(), |a: int| trace[a].sender)
}

/// The state after the Echos of `trace` were handled in their order.
pub open spec fn after_echos(setup: Setup, node: NodeModel, trace: Seq<Delivery>) -> NodeModel
    decreases trace.len(),
{
    if trace.len() == 0 {
        node
    } else {
        echo_step(
            setup,
            after_echos(setup, node, trace.drop_last()),
            trace.last().sender,
            trace.last().message,
        ).0
    }
}

/// The answer to the last Echo of `trace`, which is not empty.
pub open spec fn last_echo_answer(setup: Setup, node: NodeModel, trace: Seq<Delivery>) -> Option<
    Seq<MessageModel>,
> {
    echo_step(
        setup,
        after_echos(setup, node, trace.drop_last()),
        trace.last().sender,
        trace.last().message,
    ).1
}

/// The state after the Readys of `trace` were handled in their order.
pub open spec fn after_readys(setup: Setup, node: NodeModel, trace: Seq<Delivery>) -> NodeModel
    decreases trace.len(),
{
    if trace.len() == 0 {
        node
    } else {
        ready_step(
            setup,
            after_readys(setup, node, trace.drop_last()),
            trace.last().sender,
            trace.last().message,
        ).0
    }
}

/// The answer to the last Ready of `trace`, which is not empty.
pub open spec fn last_ready_answer(
    setup: Setup,
    node: NodeModel,
    trace: Seq<Delivery>,
) -> ReadyOutcome {
    ready_step(
        setup,
        after_readys(setup, node, trace.drop_last()),
        trace.last().sender,
        trace.last().message,
    ).1
}

/// A prefix of valid deliveries is valid.
proof fn lemma_valid_prefix(setup: Setup, c: CommitmentView, trace: Seq<Delivery>)
    requires
        valid_deliveries(setup, c, trace),
        trace.len() > 0,
    ensures
        valid_deliveries(setup, c, trace.drop_last()),
        !senders(trace.drop_last()).contains(trace.last().sender),
{
    let prefix = trace.drop_last();
    assert forall|a: int| 0 <= a < prefix.len() implies (#[trigger] prefix[a]).message.commitment
        == c && point_ok(setup, prefix[a].sender, c, prefix[a].message.alpha) by {
        assert(prefix[a] == trace[a]);
    }
    assert forall|a: int, b: int| 0 <= a < b < prefix.len() implies (#[trigger] prefix[a]).sender
        != (#[trigger] prefix[b]).sender by {
        assert(prefix[a] == trace[a] && prefix[b] == trace[b]);
    }
    if senders(prefix).contains(trace.last().sender) {
        let a = choose|a: int| 0 <= a < prefix.len() && senders(prefix)[a] == trace.last().sender;
        assert(trace[a].sender != trace[trace.len() - 1].sender);
    }
}

/// While no share is output, the valid Echos of distinct participants for a
/// commitment without counted Echos are all counted, and the phase and the
/// counted Readys stay as they were.
pub proof fn lemma_echos_all_counted(
    setup: Setup,
    node: NodeModel,
    c: CommitmentView,
    trace: Seq<Delivery>,
)
    requires
        node.phase is Init,
        echo_count(node, c) == 0,
        valid_deliveries(setup, c, trace),
    ensures
        after_echos(setup, node, trace).phase is Init,
        tally_of(after_echos(setup, node, trace).tallies, c).echoed == senders(trace),
        echo_count(after_echos(setup, node, trace), c) == trace.len(),
        ready_count(after_echos(setup, node, trace), c) == ready_count(node, c),
    decreases trace.len(),
{
    if trace.len() == 0 {
        assert(tally_of(node.tallies, c).echoed =~= senders(trace));
    } else {
        let prefix = trace.drop_last();
        lemma_valid_prefix(setup, c, trace);
        lemma_echos_all_counted(setup, node, c, prefix);
        let before = after_echos(setup, node, prefix);
        let last = trace.last();
        let tally = tally_of(before.tallies, c);
        let counted = counted_echo(tally, last.sender, last.message.alpha);
        lemma_position(before.tallies, c);
        lemma_store_lookup(before.tallies, counted, c);
        lemma_echo_counted(setup, before, last.sender, last.message, c);
        assert(counted.echoed =~= senders(trace));
    }
}

/// The evaluations that the messages carry, with their senders.
pub open spec fn evaluations(trace: Seq<Delivery>) -> Seq<Evaluation> {
    Seq::new(
        trace.len(),
        |a: int| Evaluation { sender: trace[a].sender, value: trace[a].message.alpha },
    )
}

/// Where a commitment has no evaluation yet, the evaluations that are kept
/// for it after valid Echos of distinct participants are those of the Echos,
/// in their order.
pub proof fn lemma_echos_give_evaluations(
    setup: Setup,
    node: NodeModel,
    c: CommitmentView,
    trace: Seq<Delivery>,
)
    requires
        node.phase is Init,
        echo_count(node, c) == 0,
        tally_of(node.tallies, c).points.len() == 0,
        valid_deliveries(setup, c, trace),
    ensures
        tally_of(after_echos(setup, node, trace).tallies, c).points == evaluations(trace),
    decreases trace.len(),
{
    if trace.len() == 0 {
        assert(tally_of(node.tallies, c).points =~= evaluations(trace));
    } else {
        let prefix = trace.drop_last();
        lemma_valid_prefix(setup, c, trace);
        lemma_echos_give_evaluations(setup, node, c, prefix);
        lemma_echos_all_counted(setup, node, c, prefix);
        let before = after_echos(setup, node, prefix);
        let last = trace.last();
        let tally = tally_of(before.tallies, c);
        let counted = counted_echo(tally, last.sender, last.message.alpha);
        lemma_position(before.tallies, c);
        lemma_store_lookup(before.tallies, counted, c);
        assert(!has_sender(tally.points, last.sender)) by {
            if has_sender(tally.points, last.sender) {
                let a = choose|a: int|
                    0 <= a < tally.points.len() && (#[trigger] tally.points[a]).sender
                        == last.sender;
                assert(evaluations(prefix)[a].sender == prefix[a].sender);
                assert(senders(prefix)[a] == last.sender);
            }
        }
        assert(counted.points =~= evaluations(trace));
    }
}

/// The Ready that is first announced for a commitment without earlier
/// evaluations is interpolated from `t + 1` evaluations: those of the first
/// `t + 1` Echos.
pub proof fn lemma_first_ready_uses_enough(
    setup: Setup,
    node: NodeModel,
    c: CommitmentView,
    trace: Seq<Delivery>,
)
    requires
        setup.valid(),
        node.phase is Init,
        echo_count(node, c) == 0,
        tally_of(node.tallies, c).points.len() == 0,
        valid_deliveries(setup, c, trace),
        trace.len() == setup.echo_threshold(),
    ensures
        last_echo_answer(setup, node, trace) == Some(
            ready_messages(setup, c, evaluations(trace)),
        ),
        used(evaluations(trace), setup.t) == setup.t + 1,
{
    let prefix = trace.drop_last();
    lemma_valid_prefix(setup, c, trace);
    lemma_echos_all_counted(setup, node, c, prefix);
    lemma_echos_give_evaluations(setup, node, c, trace);
    let before = after_echos(setup, node, prefix);
    lemma_echo_counted(setup, before, trace.last().sender, trace.last().message, c);
}

/// Of the valid Echos of distinct participants that arrive for a commitment,
/// while no share is output, the first that is answered with Ready is the
/// one that brings their number to the Echo threshold: none before it is
/// answered, and it and every later one is.
pub proof fn lemma_first_ready_at_echo_threshold(
    setup: Setup,
    node: NodeModel,
    c: CommitmentView,
    trace: Seq<Delivery>,
)
    requires
        node.phase is Init,
        echo_count(node, c) == 0,
        valid_deliveries(setup, c, trace),
        trace.len() > 0,
    ensures
        last_echo_answer(setup, node, trace).is_some() == (trace.len() >= setup.echo_threshold()),
{
    let prefix = trace.drop_last();
    lemma_valid_prefix(setup, c, trace);
    lemma_echos_all_counted(setup, node, c, prefix);
    let before = after_echos(setup, node, prefix);
    lemma_echo_counted(setup, before, trace.last().sender, trace.last().message, c);
}

/// What the valid Readys of distinct participants for a commitment without
/// counted Readys leave behind, as long as fewer than the output threshold
/// arrived: all are counted, no share is output, and Ready is announced if
/// it was before or the amplification threshold was reached.
pub proof fn lemma_readys_below_output(
    setup: Setup,
    node: NodeModel,
    c: CommitmentView,
    trace: Seq<Delivery>,
)
    requires
        node.phase is Init,
        ready_count(node, c) == 0,
        valid_deliveries(setup, c, trace),
        trace.len() < setup.output_threshold(),
    ensures
        after_readys(setup, node, trace).phase is Init,
        tally_of(after_readys(setup, node, trace).tallies, c).readied == senders(trace),
        ready_count(after_readys(setup, node, trace), c) == trace.len(),
        after_readys(setup, node, trace).ready_sent == (node.ready_sent || trace.len()
            >= setup.amplify_threshold()),
    decreases trace.len(),
{
    if trace.len() == 0 {
        assert(tally_of(node.tallies, c).readied =~= senders(trace));
    } else {
        let prefix = trace.drop_last();
        lemma_valid_prefix(setup, c, trace);
        lemma_readys_below_output(setup, node, c, prefix);
        let before = after_readys(setup, node, prefix);
        let last = trace.last();
        let tally = tally_of(before.tallies, c);
        let counted = counted_ready(tally, last.sender, last.message.alpha);
        lemma_position(before.tallies, c);
        lemma_store_lookup(before.tallies, counted, c);
        lemma_ready_counted(setup, before, last.sender, last.message, c);
        assert(counted.readied =~= senders(trace));
    }
}

/// What the valid Readys of distinct participants for a commitment without
/// counted Readys leave behind once the output threshold was reached: all
/// are counted, and the share is held.
pub proof fn lemma_readys_from_output(
    setup: Setup,
    node: NodeModel,
    c: CommitmentView,
    trace: Seq<Delivery>,
)
    requires
        node.phase is Init,
        ready_count(node, c) == 0,
        valid_deliveries(setup, c, trace),
        trace.len() >= setup.output_threshold(),
        setup.output_threshold() > 0,
    ensures
        after_readys(setup, node, trace).phase is Shared,
        tally_of(after_readys(setup, node, trace).tallies, c).readied == senders(trace),
        ready_count(after_readys(setup, node, trace), c) == trace.len(),
    decreases trace.len(),
{
    let prefix = trace.drop_last();
    lemma_valid_prefix(setup, c, trace);
    if prefix.len() < setup.output_threshold() {
        lemma_readys_below_output(setup, node, c, prefix);
    } else {
        lemma_readys_from_output(setup, node, c, prefix);
    }
    let before = after_readys(setup, node, prefix);
    let last = trace.last();
    let tally = tally_of(before.tallies, c);
    let counted = counted_ready(tally, last.sender, last.message.alpha);
    lemma_position(before.tallies, c);
    lemma_store_lookup(before.tallies, counted, c);
    lemma_ready_counted(setup, before, last.sender, last.message, c);
    assert(counted.readied =~= senders(trace));
}

/// Of the valid Readys of distinct participants that arrive for a
/// commitment, starting while no share is output: the one that brings their
/// number to the output threshold is answered with the share, and no other;
/// the one that brings their number to the amplification threshold is
/// answered with Ready if that threshold is below the output threshold and
/// Ready was not announced before, and no other; every other one, and so
/// every one after the share was output, is counted and not answered.
pub proof fn lemma_ready_answers(
    setup: Setup,
    node: NodeModel,
    c: CommitmentView,
    trace: Seq<Delivery>,
)
    requires
        node.phase is Init,
        ready_count(node, c) == 0,
        valid_deliveries(setup, c, trace),
        trace.len() > 0,
        setup.output_threshold() > 0,
    ensures
        last_ready_answer(setup, node, trace) is Output == (trace.len()
            == setup.output_threshold()),
        last_ready_answer(setup, node, trace) is Amplify == (trace.len()
            == setup.amplify_threshold() && setup.amplify_threshold() < setup.output_threshold()
            && !node.ready_sent),
        ready_count(after_readys(setup, node, trace), c) == trace.len(),
{
    let prefix = trace.drop_last();
    lemma_valid_prefix(setup, c, trace);
    if prefix.len() < setup.output_threshold() {
        lemma_readys_below_output(setup, node, c, prefix);
    } else {
        lemma_readys_from_output(setup, node, c, prefix);
    }
    let before = after_readys(setup, node, prefix);
    lemma_ready_counted(setup, before, trace.last().sender, trace.last().message, c);
}

/// A share as it arrives at a reconstruction: with the participant that
/// output it.
pub struct SharedDelivery {
    pub sender: nat,
    pub share: nat,
}

/// Every share is consistent with the commitment for its sender, and no two
/// shares have the same sender.
pub open spec fn valid_shares(
    n: nat,
    t: nat,
    c: CommitmentView,
    trace: Seq<SharedDelivery>,
) -> bool {
    &&& forall|a: int|
        0 <= a < trace.len() ==> share_consistent(
            n,
            t,
            c,
            (#[trigger] trace[a]).sender,
            trace[a].share,
        )
    &&& forall|a: int, b: int|
        0 <= a < b < trace.len() ==> (#[trigger] trace[a]).sender != (#[trigger] trace[b]).sender
}

/// The shares as evaluations.
pub open spec fn share_evaluations(trace: Seq<SharedDelivery>) -> Seq<Evaluation> {
    Seq::new(trace.len(), |a: int| Evaluation { sender: trace[a].sender, value: trace[a].share })
}

/// The shares accepted after those of `trace` were handled in their order by
/// a reconstruction that had accepted none.
pub open spec fn after_shares(
    n: nat,
    t: nat,
    domain: Seq<nat>,
    c: CommitmentView,
    trace: Seq<SharedDelivery>,
) -> Seq<Evaluation>
    decreases trace.len(),
{
    if trace.len() == 0 {
        Seq::empty()
    } else {
        reconstruct_step(
            n,
            t,
            domain,
            c,
            after_shares(n, t, domain, c, trace.drop_last()),
            trace.last().sender,
            trace.last().share,
        ).0
    }
}

/// The answer to the last share of `trace`, which is not empty.
pub open spec fn last_share_answer(
    n: nat,
    t: nat,
    domain: Seq<nat>,
    c: CommitmentView,
    trace: Seq<SharedDelivery>,
) -> Option<nat> {
    reconstruct_step(
        n,
        t,
        domain,
        c,
        after_shares(n, t, domain, c, trace.drop_last()),
        trace.last().sender,
        trace.last().share,
    ).1
}

/// Consistent shares of distinct participants are all accepted, in their
/// order.
pub proof fn lemma_shares_all_accepted(
    n: nat,
    t: nat,
    domain: Seq<nat>,
    c: CommitmentView,
    trace: Seq<SharedDelivery>,
)
    requires
        domain.len() == n,
        valid_shares(n, t, c, trace),
    ensures
        after_shares(n, t, domain, c, trace) == share_evaluations(trace),
    decreases trace.len(),
{
    if trace.len() == 0 {
        assert(after_shares(n, t, domain, c, trace) =~= share_evaluations(trace));
    } else {
        let prefix = trace.drop_last();
        assert(valid_shares(n, t, c, prefix)) by {
            assert forall|a: int| 0 <= a < prefix.len() implies share_consistent(
                n,
                t,
                c,
                (#[trigger] prefix[a]).sender,
                prefix[a].share,
            ) by {
                assert(prefix[a] == trace[a]);
            }
            assert forall|a: int, b: int| 0 <= a < b < prefix.len() implies (
            #[trigger] prefix[a]).sender != (#[trigger] prefix[b]).sender by {
                assert(prefix[a] == trace[a] && prefix[b] == trace[b]);
            }
        }
        lemma_shares_all_accepted(n, t, domain, c, prefix);
        let before = share_evaluations(prefix);
        let last = trace.last();
        assert(!has_sender(before, last.sender)) by {
            if has_sender(before, last.sender) {
                let a = choose|a: int|
                    0 <= a < before.len() && (#[trigger] before[a]).sender == last.sender;
                assert(trace[a].sender != trace[trace.len() - 1].sender);
            }
        }
        assert(before.push(Evaluation { sender: last.sender, value: last.share })
            =~= share_evaluations(trace));
    }
}

/// Of the consistent shares of distinct participants that arrive at a
/// reconstruction, the share number `t + 1` is answered with the secret that
/// the first `t + 1` shares give, and no other share is answered: with `t`
/// shares nothing was returned yet.
pub proof fn lemma_secret_at_share_threshold(
    n: nat,
    t: nat,
    domain: Seq<nat>,
    c: CommitmentView,
    trace: Seq<SharedDelivery>,
)
    requires
        domain.len() == n,
        valid_shares(n, t, c, trace),
        trace.len() > 0,
    ensures
        last_share_answer(n, t, domain, c, trace).is_some() == (trace.len() == t + 1),
        trace.len() == t + 1 ==> last_share_answer(n, t, domain, c, trace) == Some(
            reconstructed(t, domain, share_evaluations(trace)),
        ),
{
    let prefix = trace.drop_last();
    lemma_shares_all_accepted(n, t, domain, c, trace);
    assert(valid_shares(n, t, c, prefix)) by {
        assert forall|a: int| 0 <= a < prefix.len() implies share_consistent(
            n,
            t,
            c,
            (#[trigger] prefix[a]).sender,
            prefix[a].share,
        ) by {
            assert(prefix[a] == trace[a]);
        }
        assert forall|a: int, b: int| 0 <= a < b < prefix.len() implies (
        #[trigger] prefix[a]).sender != (#[trigger] prefix[b]).sender by {
            assert(prefix[a] == trace[a] && prefix[b] == trace[b]);
        }
    }
    lemma_shares_all_accepted(n, t, domain, c, prefix);
    let before = share_evaluations(prefix);
    let last = trace.last();
    assert(!has_sender(before, last.sender)) by {
        if has_sender(before, last.sender) {
            let a = choose|a: int|
                0 <= a < before.len() && (#[trigger] before[a]).sender == last.sender;
            assert(trace[a].sender != trace[trace.len() - 1].sender);
        }
    }
}

/// The commitments to the coefficients of a polynomial.
pub open spec fn committed_row(p: Seq<nat>) -> Seq<Seq<u8>> {
    Seq::new(p.len(), |k: int| commit_spec(p[k]))
}

/// A row of commitments to the coefficients of a polynomial evaluates to the
/// commitment to the value of the polynomial, if the group obeys the law of
/// scalar multiplication at the generator.
pub proof fn lemma_committed_row_evaluates(p: Seq<nat>, x: nat)
    requires
        scalar_law_at(generator_encoding()),
        reduced(p),
        p.len() >= 1,
        x < modulus(),
    ensures
        row_eval_spec(committed_row(p), x) == commit_spec(eval_spec(p, x)),
    decreases p.len(),
{
    let row = committed_row(p);
    let rest = p.drop_first();
    lemma_reduce_small(0);
    lemma_reduce_small(x);
    lemma_reduce_small(p[0]);
    let e = eval_spec(rest, x);
    lemma_eval_bound(rest, x);
    lemma_reduce_small(e);
    lemma_mul_reduce(x as int, e as int);
    lemma_mul_reduce(e as int, x as int);
    assert(x * e == e * x) by (nonlinear_arith);
    if p.len() == 1 {
        assert(rest =~= Seq::<nat>::empty());
        assert(x * 0 == 0) by (nonlinear_arith);
        lemma_add_reduce(p[0] as int, 0);
    } else {
        assert(reduced(rest)) by {
            assert forall|k: int| 0 <= k < rest.len() implies #[trigger] rest[k] < modulus() by {
                assert(rest[k] == p[k + 1]);
            }
        }
        lemma_committed_row_evaluates(rest, x);
        assert(row.drop_first() =~= committed_row(rest));
    }
}

/// What an honest dealer sends is consistent, if the group obeys the law of
/// scalar multiplication at the generator: the dealer deals one Send for
/// each participant, and the Send for participant `i` passes the check of
/// participant `i`.
pub proof fn lemma_dealt_send_is_consistent(setup: Setup, phi: Coefficients, s: nat, i: int)
    requires
        scalar_law_at(generator_encoding()),
        setup.valid(),
        shares_secret(phi, setup.t, s),
        reduced_coefficients(phi),
        0 <= i < setup.n,
    ensures
        deal_spec(setup, phi).len() == setup.n,
        share_ok(Setup { index: i as nat, ..setup }, deal_spec(setup, phi)[i]),
{
    let receiver = Setup { index: i as nat, ..setup };
    let send = deal_spec(setup, phi)[i];
    let c = commitment_spec(setup, phi);
    let own = setup.domain[i];
    assert(send.commitment == c);
    assert(well_shaped(c, setup.n, setup.t));
    assert forall|m: int| 0 <= m < setup.n implies point_ok(
        receiver,
        m as nat,
        c,
        eval_spec(send.coefficients, #[trigger] receiver.domain[m]),
    ) by {
        let other = setup.domain[m];
        let p = row_polynomial_spec(phi, other);
        assert(reduced(p)) by {
            assert forall|k: int| 0 <= k < p.len() implies #[trigger] p[k] < modulus() by {
                lemma_eval_bound(phi[k], other);
            }
        }
        assert(c[m] =~= committed_row(p));
        lemma_committed_row_evaluates(p, own);
        lemma_symmetric_value(phi, setup.t + 1, own, other);
    }
}

/// A Send that passes the check fails it once an entry of the receiver's own
/// row of the matrix is replaced by anything else.
pub proof fn lemma_changed_own_row_fails(setup: Setup, send: SendModel, k: int, entry: Seq<u8>)
    requires
        share_ok(setup, send),
        setup.index < setup.n,
        0 <= k <= setup.t,
        entry != send.commitment[setup.index as int][k],
    ensures
        !share_ok(
            setup,
            SendModel {
                commitment: send.commitment.update(
                    setup.index as int,
                    send.commitment[setup.index as int].update(k, entry),
                ),
                ..send
            },
        ),
{
    let own = setup.index as int;
    let changed = SendModel {
        commitment: send.commitment.update(own, send.commitment[own].update(k, entry)),
        ..send
    };
    assert(send.commitment[own].len() == setup.t + 1);
    assert(send.commitment[own][k] == commit_spec(send.coefficients[k]));
    assert(changed.commitment[own][k] == entry);
    assert(changed.commitment[own][k] != commit_spec(changed.coefficients[k]));
}

/// A Send that passes the check fails it once a coefficient of its
/// polynomial is replaced by one with another commitment.
pub proof fn lemma_changed_coefficient_fails(setup: Setup, send: SendModel, k: int, value: nat)
    requires
        share_ok(setup, send),
        0 <= k <= setup.t,
        commit_spec(value) != commit_spec(send.coefficients[k]),
    ensures
        !share_ok(setup, SendModel { coefficients: send.coefficients.update(k, value), ..send }),
{
    let changed = SendModel { coefficients: send.coefficients.update(k, value), ..send };
    assert(send.commitment[setup.index as int][k] == commit_spec(send.coefficients[k]));
    assert(changed.coefficients[k] == value);
    assert(changed.commitment[setup.index as int][k] != commit_spec(changed.coefficients[k]));
}

} // verus!
