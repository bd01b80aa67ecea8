//! What holds of received headers from the first to the last.
use vstd::prelude::*;

use crate::download::{DownloadView, RoundView};
use crate::transition::{
    after_add, after_commit, connected_hashes, newly_wanted, next_header, tell_connected,
    tell_disconnected, without_last, Action, AddOutcome,
};
use crate::types::{BlockHeader, Hash256, StoredHeader};

verus! {

/// A received header was handed to the chain: the headers that the chain then
/// knew, and what came of it.
pub struct Handed {
    pub headers: Map<Hash256, StoredHeader>,
    pub outcome: AddOutcome,
}

/// What the download does when a header was handed to the chain, up to where
/// it asks for the next one or is done: where the batch ends, it is made
/// permanent in between.
pub open spec fn play_one(v: DownloadView, handed: Handed) -> (DownloadView, Seq<Action>) {
    let (added, actions) = after_add(v, handed.headers, handed.outcome);
    if actions.last() == Action::CommitHeaders {
        let (done, told) = after_commit(
            added,
            connected_hashes((added.round->0).connected),
        );
        (done, actions + told)
    } else {
        (added, actions)
    }
}

/// What the download does as one header after another was handed to the
/// chain.
pub open spec fn play(v: DownloadView, steps: Seq<Handed>) -> (DownloadView, Seq<Action>)
    decreases steps.len(),
{
    if steps.len() == 0 {
        (v, Seq::empty())
    } else {
        let (before, actions) = play(v, steps.drop_last());
        let (after, more) = play_one(before, steps.last());
        (after, actions + more)
    }
}

/// The headers that actions hand to the chain, in order.
pub open spec fn handed_over(actions: Seq<Action>) -> Seq<BlockHeader>
    decreases actions.len(),
{
    if actions.len() == 0 {
        Seq::empty()
    } else {
        let before = handed_over(actions.drop_last());
        match actions.last() {
            Action::AddHeader(header) => before.push(header),
            _ => before,
        }
    }
}

proof fn lemma_handed_over_add(a: Seq<Action>, b: Seq<Action>)
    ensures
        handed_over(a + b) == handed_over(a) + handed_over(b),
    decreases b.len(),
{
    if b.len() == 0 {
        assert(a + b =~= a);
        assert(handed_over(a) + handed_over(b) =~= handed_over(a));
    } else {
        lemma_handed_over_add(a, b.drop_last());
        assert((a + b).drop_last() =~= a + b.drop_last());
        assert((a + b).last() == b.last());
        assert(handed_over(a + b) =~= handed_over(a) + handed_over(b));
    }
}

proof fn lemma_told_hands_nothing(
    connected: Seq<(u32, BlockHeader)>,
    disconnected: Seq<BlockHeader>,
    birth: u64,
)
    ensures
        handed_over(tell_connected(connected, birth)).len() == 0,
        handed_over(tell_disconnected(disconnected, birth)).len() == 0,
    decreases connected.len() + disconnected.len(),
{
    if connected.len() > 0 {
        lemma_told_hands_nothing(connected.drop_last(), disconnected, birth);
        let before = tell_connected(connected.drop_last(), birth);
        let (height, header) = connected.last();
        let action = Action::HeaderConnected { header, height };
        assert(before.push(action).drop_last() =~= before);
    }
    if disconnected.len() > 0 {
        lemma_told_hands_nothing(connected, disconnected.drop_last(), birth);
        let before = tell_disconnected(disconnected.drop_last(), birth);
        let action = Action::BlockDisconnected(disconnected.last());
        assert(before.push(action).drop_last() =~= before);
    }
}

proof fn lemma_handed_over_one(action: Action)
    ensures
        handed_over(seq![action]) == (match action {
            Action::AddHeader(header) => seq![header],
            _ => Seq::empty(),
        }),
{
    assert(seq![action].drop_last() =~= Seq::empty());
    assert(seq![action].last() == action);
    assert(handed_over(Seq::empty()) =~= Seq::<BlockHeader>::empty());
    assert(Seq::<BlockHeader>::empty().push(action->AddHeader_0) =~= seq![action->AddHeader_0]);
}

proof fn lemma_next_header(v: DownloadView)
    requires
        v.round is Some,
    ensures
        ({
            let (next, actions) = next_header(v);
            let queue = v.round->0.queue;
            &&& next.round is Some
            &&& handed_over(actions) + next.round->0.queue =~= queue
            &&& actions.last() == Action::CommitHeaders <==> queue.len() == 0
            &&& actions.len() == 1
        }),
{
    let (next, actions) = next_header(v);
    lemma_handed_over_one(actions[0]);
    assert(actions =~= seq![actions[0]]);
}

proof fn lemma_commit(v: DownloadView, hashes: Seq<Hash256>)
    requires
        v.round is Some,
    ensures
        ({
            let (done, told) = after_commit(v, hashes);
            let queue = v.round->0.queue;
            if queue.len() > 0 {
                &&& done.round is Some
                &&& handed_over(told) + done.round->0.queue =~= queue
                &&& handed_over(told).len() == 1
            } else {
                done.round is None && handed_over(told).len() == 0
            }
        }),
{
    let round = v.round->0;
    let gone = tell_disconnected(round.disconnected, v.birth);
    let joined = tell_connected(round.connected, v.birth);
    lemma_told_hands_nothing(round.connected, round.disconnected, v.birth);
    lemma_handed_over_add(gone, joined);
    if round.queue.len() > 0 {
        let ask = Action::AddHeader(round.queue[0]);
        lemma_handed_over_one(ask);
        lemma_handed_over_add(gone + joined, seq![ask]);
        assert((gone + joined).push(ask) =~= (gone + joined) + seq![ask]);
    } else {
        let more = if round.some_new {
            seq![Action::GetHeaders(round.peer)]
        } else {
            Seq::empty()
        };
        let height = if round.moved_tip is Some {
            seq![Action::Height(round.height)]
        } else {
            Seq::empty()
        };
        lemma_handed_over_one(Action::GetHeaders(round.peer));
        lemma_handed_over_one(Action::Height(round.height));
        lemma_handed_over_add(gone + joined, more);
        lemma_handed_over_add(gone + joined + more, height);
    }
}

proof fn lemma_play_one(v: DownloadView, handed: Handed)
    requires
        v.round is Some,
    ensures
        ({
            let (next, actions) = play_one(v, handed);
            let queue = v.round->0.queue;
            if queue.len() > 0 {
                &&& next.round is Some
                &&& handed_over(actions) + next.round->0.queue =~= queue
                &&& handed_over(actions).len() == 1
            } else {
                next.round is None && handed_over(actions).len() == 0
            }
        }),
{
    let (added, actions) = after_add(v, handed.headers, handed.outcome);
    let queue = v.round->0.queue;
    let hashes = connected_hashes((added.round->0).connected);
    match handed.outcome {
        AddOutcome::Added { header, height, unwinds, forwards } => {
            if unwinds is Some {
                lemma_handed_over_one(Action::CommitHeaders);
            } else {
                let round = v.round->0;
                let joined = RoundView {
                    connected: round.connected.push((height, header)),
                    some_new: true,
                    moved_tip: match forwards {
                        Some(hashes) => Some(hashes@.last()),
                        None => round.moved_tip,
                    },
                    height,
                    ..round
                };
                lemma_next_header(DownloadView { round: Some(joined), ..v });
            }
        },
        AddOutcome::BadProofOfWork => {
            lemma_next_header(v);
            lemma_handed_over_one(actions[0]);
            lemma_handed_over_add(seq![actions[0]], next_header(v).1);
        },
        _ => {
            lemma_next_header(v);
        },
    }
    if actions.last() == Action::CommitHeaders {
        lemma_commit(added, hashes);
        lemma_handed_over_add(actions, after_commit(added, hashes).1);
        assert(added.round->0.queue =~= queue);
        assert(handed_over(actions) =~= Seq::empty());
        assert(handed_over(actions + after_commit(added, hashes).1) =~= handed_over(
            after_commit(added, hashes).1,
        ));
    }
}

/// Whatever comes of them, received headers are handed to the chain one by
/// one, each once and in the order in which they came, and when the last one
/// was handed over the download is done with them.
pub proof fn law_each_header_once(v: DownloadView, steps: Seq<Handed>)
    requires
        v.round is Some,
        steps.len() <= v.round->0.queue.len() + 1,
    ensures
        ({
            let (next, actions) = play(v, steps);
            let queue = v.round->0.queue;
            if steps.len() <= queue.len() {
                &&& next.round is Some
                &&& handed_over(actions) == queue.take(steps.len() as int)
                &&& next.round->0.queue == queue.skip(steps.len() as int)
            } else {
                &&& next.round is None
                &&& handed_over(actions) == queue
            }
        }),
    decreases steps.len(),
{
    let queue = v.round->0.queue;
    if steps.len() == 0 {
        assert(queue.take(0) =~= Seq::empty());
        assert(queue.skip(0) =~= queue);
    } else {
        let n = steps.len() as int;
        law_each_header_once(v, steps.drop_last());
        let (before, actions) = play(v, steps.drop_last());
        lemma_play_one(before, steps.last());
        let (after, more) = play_one(before, steps.last());
        lemma_handed_over_add(actions, more);
        if n <= queue.len() {
            let rest = queue.skip(n - 1);
            assert(handed_over(more) + after.round->0.queue =~= rest);
            assert(handed_over(more) =~= rest.take(1));
            assert(after.round->0.queue =~= rest.skip(1));
            assert(rest.skip(1) =~= queue.skip(n));
            assert(queue.take(n - 1) + rest.take(1) =~= queue.take(n));
        } else {
            assert(queue.take(n - 1) =~= queue);
            assert(handed_over(actions) + handed_over(more) =~= queue);
        }
    }
}

/// The headers that the chain took, in order, with their heights.
pub open spec fn accepted(steps: Seq<Handed>) -> Seq<(u32, BlockHeader)>
    decreases steps.len(),
{
    if steps.len() == 0 {
        Seq::empty()
    } else {
        let before = accepted(steps.drop_last());
        match steps.last().outcome {
            AddOutcome::Added { header, height, .. } => before.push((height, header)),
            _ => before,
        }
    }
}

/// Whether the tip of the chain moved.
pub open spec fn tip_moved(steps: Seq<Handed>) -> bool {
    exists|i: int| 0 <= i < steps.len() && moves_tip((#[trigger] steps[i]).outcome)
}

/// Whether adding a header moved the tip.
pub open spec fn moves_tip(outcome: AddOutcome) -> bool {
    outcome matches AddOutcome::Added { forwards, .. } && forwards is Some
}

/// The tip moved if it moved before the last header, or with it.
proof fn lemma_tip_moved_one_more(steps: Seq<Handed>)
    requires
        steps.len() > 0,
    ensures
        tip_moved(steps) <==> tip_moved(steps.drop_last()) || moves_tip(steps.last().outcome),
{
    let n = steps.len() as int;
    let earlier = steps.drop_last();
    if tip_moved(earlier) {
        let i = choose|i: int| 0 <= i < earlier.len() && moves_tip((#[trigger] earlier[i]).outcome);
        assert(moves_tip(steps[i].outcome));
    }
    if moves_tip(steps.last().outcome) {
        assert(moves_tip(steps[n - 1].outcome));
    }
    if tip_moved(steps) {
        let i = choose|i: int| 0 <= i < steps.len() && moves_tip((#[trigger] steps[i]).outcome);
        if i < n - 1 {
            assert(moves_tip(earlier[i].outcome));
        }
    }
}

/// Whether adding a header moved the trunk to another branch.
pub open spec fn unwinds_trunk(outcome: AddOutcome) -> bool {
    outcome matches AddOutcome::Added { unwinds, .. } && unwinds is Some
}

/// Headers that were just received, of which the first is being handed to the
/// chain.
pub open spec fn is_fresh(round: RoundView) -> bool {
    &&& !round.some_new
    &&& round.moved_tip is None
    &&& round.connected.len() == 0
    &&& round.disconnected.len() == 0
}

/// What is held while headers extend the trunk.
proof fn lemma_extend(v: DownloadView, steps: Seq<Handed>)
    requires
        v.round is Some,
        is_fresh(v.round->0),
        steps.len() <= v.round->0.queue.len(),
        forall|i: int| 0 <= i < steps.len() ==> !unwinds_trunk((#[trigger] steps[i]).outcome),
    ensures
        ({
            let (next, actions) = play(v, steps);
            let round = next.round->0;
            &&& next == (DownloadView { round: Some(round), ..v })
            &&& round.peer == v.round->0.peer
            &&& round.queue == v.round->0.queue.skip(steps.len() as int)
            &&& round.connected == accepted(steps)
            &&& round.disconnected.len() == 0
            &&& round.some_new == (accepted(steps).len() > 0)
            &&& round.moved_tip is Some <==> tip_moved(steps)
            &&& accepted(steps).len() > 0 ==> round.height == accepted(steps).last().0
            &&& forall|i: int| 0 <= i < actions.len() ==> is_request(#[trigger] actions[i])
        }),
    decreases steps.len(),
{
    if steps.len() == 0 {
        assert(v.round->0.queue.skip(0) =~= v.round->0.queue);
        assert(v.round->0.connected =~= Seq::empty());
    } else {
        let earlier = steps.drop_last();
        assert forall|i: int| 0 <= i < earlier.len() implies !unwinds_trunk(
            (#[trigger] earlier[i]).outcome,
        ) by {
            assert(!unwinds_trunk(steps[i].outcome));
        }
        lemma_extend(v, earlier);
        let n = steps.len() as int;
        let (before, actions) = play(v, earlier);
        let last = steps.last();
        assert(!unwinds_trunk(steps[n - 1].outcome));
        let (after, more) = play_one(before, last);
        assert(before.round->0.queue.len() > 0);
        assert(more.last() is AddHeader);
        assert(after.round->0.queue =~= v.round->0.queue.skip(n));
        lemma_tip_moved_one_more(steps);
        assert forall|i: int| 0 <= i < (actions + more).len() implies is_request(
            #[trigger] (actions + more)[i],
        ) by {
            if i < actions.len() {
                assert(is_request(actions[i]));
            }
        }
    }
}

/// Handing a header to the chain, making headers permanent, or banning the
/// peer.
pub open spec fn is_request(action: Action) -> bool {
    action is AddHeader || action is CommitHeaders || action is Ban
}

/// Received headers that extend the trunk: the blocks of all those that the
/// chain took and that were made after `birth` are wanted, in order, after
/// the blocks that were wanted before, and nothing else changes. At the end
/// the wallet is told of them in order; the peer is asked for more if the
/// chain took any; the height of the last one is reported if the tip moved.
pub proof fn law_headers_extend_wanted(v: DownloadView, steps: Seq<Handed>)
    requires
        v.round is Some,
        is_fresh(v.round->0),
        steps.len() == v.round->0.queue.len() + 1,
        forall|i: int| 0 <= i < steps.len() ==> !unwinds_trunk((#[trigger] steps[i]).outcome),
    ensures
        ({
            let (next, actions) = play(v, steps);
            let taken = accepted(steps);
            let told = tell_connected(taken, v.birth) + (if taken.len() > 0 {
                seq![Action::GetHeaders(v.round->0.peer)]
            } else {
                Seq::empty()
            }) + (if tip_moved(steps) {
                seq![Action::Height(taken.last().0)]
            } else {
                Seq::empty()
            });
            &&& next == (DownloadView {
                wanted: v.wanted + newly_wanted(taken, connected_hashes(taken), v.birth),
                round: None,
                ..v
            })
            &&& told.len() <= actions.len()
            &&& actions.skip(actions.len() - told.len()) == told
            &&& forall|i: int|
                0 <= i < actions.len() - told.len() ==> is_request(#[trigger] actions[i])
        }),
{
    let n = steps.len() as int;
    let earlier = steps.drop_last();
    assert forall|i: int| 0 <= i < earlier.len() implies !unwinds_trunk(
        (#[trigger] earlier[i]).outcome,
    ) by {
        assert(!unwinds_trunk(steps[i].outcome));
    }
    lemma_extend(v, earlier);
    let (before, actions) = play(v, earlier);
    let last = steps.last();
    assert(!unwinds_trunk(steps[n - 1].outcome));
    assert(before.round->0.queue.len() == 0);
    let (added, requests) = after_add(before, last.headers, last.outcome);
    assert(requests.last() == Action::CommitHeaders);
    let taken = accepted(steps);
    assert(added.round->0.connected =~= taken);
    let hashes = connected_hashes(taken);
    let (done, told) = after_commit(added, hashes);
    assert(tell_disconnected(added.round->0.disconnected, v.birth) =~= Seq::empty());
    assert(without_last(v.wanted, 0) =~= v.wanted);
    lemma_tip_moved_one_more(steps);
    lemma_moved_is_accepted(steps);
    let expected = tell_connected(taken, v.birth) + (if taken.len() > 0 {
        seq![Action::GetHeaders(v.round->0.peer)]
    } else {
        Seq::empty()
    }) + (if tip_moved(steps) {
        seq![Action::Height(taken.last().0)]
    } else {
        Seq::empty()
    });
    assert(told =~= expected);
    let all = play(v, steps).1;
    assert(all =~= actions + requests + told);
    assert(all.skip(all.len() - told.len()) =~= told);
    assert forall|i: int| 0 <= i < all.len() - told.len() implies is_request(
        #[trigger] all[i],
    ) by {
        if i < actions.len() {
            assert(all[i] == actions[i]);
        } else {
            assert(all[i] == requests[i - actions.len()]);
        }
    }
}

/// A chain whose tip moved took a header.
proof fn lemma_moved_is_accepted(steps: Seq<Handed>)
    ensures
        tip_moved(steps) ==> accepted(steps).len() > 0,
    decreases steps.len(),
{
    if tip_moved(steps) {
        let i = choose|i: int| 0 <= i < steps.len() && moves_tip((#[trigger] steps[i]).outcome);
        if i < steps.len() - 1 {
            assert(moves_tip(steps.drop_last()[i].outcome));
            lemma_moved_is_accepted(steps.drop_last());
        }
    }
}

/// A header that moves the trunk to another branch: if the last wanted blocks
/// are those that left the trunk, one for each that was made after `birth`,
/// they are given up, and the blocks of the headers taken so far come in
/// their place.
pub proof fn law_reorganization_replaces_wanted(
    v: DownloadView,
    handed: Handed,
    kept: Seq<(Hash256, u32)>,
    gone: Seq<(Hash256, u32)>,
)
    requires
        v.round is Some,
        unwinds_trunk(handed.outcome),
        v.wanted == kept + gone,
        gone.len() == tell_disconnected(
            after_add(v, handed.headers, handed.outcome).0.round->0.disconnected,
            v.birth,
        ).len(),
    ensures
        ({
            let taken = v.round->0.connected.push(
                (handed.outcome->height, handed.outcome->header),
            );
            let next = play_one(v, handed).0;
            &&& next.wanted == kept + newly_wanted(taken, connected_hashes(taken), v.birth)
            &&& next.asked == v.asked
        }),
{
    assert(without_last(v.wanted, gone.len()) =~= kept);
}

} // verus!
