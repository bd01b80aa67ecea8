//! What the wallet is told while received headers go into the chain, from the
//! first to the last and over every reorganization.
use vstd::prelude::*;

use crate::download::DownloadView;
use crate::round_laws::{accepted, is_fresh, law_each_header_once, play, play_one, Handed};
use crate::transition::{
    after_add, after_commit, connected_hashes, tell_connected, tell_disconnected, Action,
    AddOutcome,
};
use crate::types::BlockHeader;

verus! {

/// The headers that actions tell the wallet were connected, with their heights.
pub open spec fn told_headers(actions: Seq<Action>) -> Seq<(u32, BlockHeader)>
    decreases actions.len(),
{
    if actions.len() == 0 {
        Seq::empty()
    } else {
        let before = told_headers(actions.drop_last());
        match actions.last() {
            Action::HeaderConnected { header, height } => before.push((height, header)),
            _ => before,
        }
    }
}

/// The headers that actions tell the wallet have left the trunk.
pub open spec fn told_losses(actions: Seq<Action>) -> Seq<BlockHeader>
    decreases actions.len(),
{
    if actions.len() == 0 {
        Seq::empty()
    } else {
        let before = told_losses(actions.drop_last());
        match actions.last() {
            Action::BlockDisconnected(header) => before.push(header),
            _ => before,
        }
    }
}

/// Those of connected headers that were made after `birth`, in order.
pub open spec fn headers_since(list: Seq<(u32, BlockHeader)>, birth: u64) -> Seq<(u32, BlockHeader)>
    decreases list.len(),
{
    if list.len() == 0 {
        Seq::empty()
    } else {
        let before = headers_since(list.drop_last(), birth);
        if list.last().1.time > birth {
            before.push(list.last())
        } else {
            before
        }
    }
}

/// Those of headers that were made after `birth`, in order.
pub open spec fn losses_since(list: Seq<BlockHeader>, birth: u64) -> Seq<BlockHeader>
    decreases list.len(),
{
    if list.len() == 0 {
        Seq::empty()
    } else {
        let before = losses_since(list.drop_last(), birth);
        if list.last().time > birth {
            before.push(list.last())
        } else {
            before
        }
    }
}

/// The headers that left the trunk for a header that was handed to the chain.
pub open spec fn lost_for(handed: Handed) -> Seq<BlockHeader> {
    match handed.outcome {
        AddOutcome::Added { unwinds: Some(hashes), .. } => Seq::new(
            hashes@.len(),
            |i: int| handed.headers[hashes@[i]].header,
        ),
        _ => Seq::empty(),
    }
}

/// The headers that left the trunk, in order.
pub open spec fn lost(steps: Seq<Handed>) -> Seq<BlockHeader>
    decreases steps.len(),
{
    if steps.len() == 0 {
        Seq::empty()
    } else {
        lost(steps.drop_last()) + lost_for(steps.last())
    }
}

proof fn lemma_told_add(a: Seq<Action>, b: Seq<Action>)
    ensures
        told_headers(a + b) == told_headers(a) + told_headers(b),
        told_losses(a + b) == told_losses(a) + told_losses(b),
    decreases b.len(),
{
    if b.len() == 0 {
        assert(a + b =~= a);
        assert(told_headers(a) + told_headers(b) =~= told_headers(a));
        assert(told_losses(a) + told_losses(b) =~= told_losses(a));
    } else {
        lemma_told_add(a, b.drop_last());
        assert((a + b).drop_last() =~= a + b.drop_last());
        assert((a + b).last() == b.last());
        assert(told_headers(a + b) =~= told_headers(a) + told_headers(b));
        assert(told_losses(a + b) =~= told_losses(a) + told_losses(b));
    }
}

/// Actions of other kinds tell the wallet nothing.
proof fn lemma_nothing_told(actions: Seq<Action>)
    requires
        forall|i: int|
            0 <= i < actions.len() ==> !((#[trigger] actions[i]) is HeaderConnected)
                && !(actions[i] is BlockDisconnected),
    ensures
        told_headers(actions).len() == 0,
        told_losses(actions).len() == 0,
    decreases actions.len(),
{
    if actions.len() > 0 {
        let before = actions.drop_last();
        assert forall|i: int| 0 <= i < before.len() implies !((
        #[trigger] before[i]) is HeaderConnected) && !(before[i] is BlockDisconnected) by {
            assert(before[i] == actions[i]);
        }
        lemma_nothing_told(before);
        assert(actions[actions.len() - 1] == actions.last());
    }
}

proof fn lemma_told_connected(connected: Seq<(u32, BlockHeader)>, birth: u64)
    ensures
        told_headers(tell_connected(connected, birth)) == headers_since(connected, birth),
        told_losses(tell_connected(connected, birth)).len() == 0,
    decreases connected.len(),
{
    if connected.len() > 0 {
        lemma_told_connected(connected.drop_last(), birth);
        let before = tell_connected(connected.drop_last(), birth);
        let (height, header) = connected.last();
        let told = Action::HeaderConnected { header, height };
        assert(before.push(told).drop_last() =~= before);
    }
}

proof fn lemma_told_disconnected(disconnected: Seq<BlockHeader>, birth: u64)
    ensures
        told_losses(tell_disconnected(disconnected, birth)) == losses_since(disconnected, birth),
        told_headers(tell_disconnected(disconnected, birth)).len() == 0,
    decreases disconnected.len(),
{
    if disconnected.len() > 0 {
        lemma_told_disconnected(disconnected.drop_last(), birth);
        let before = tell_disconnected(disconnected.drop_last(), birth);
        let told = Action::BlockDisconnected(disconnected.last());
        assert(before.push(told).drop_last() =~= before);
    }
}

proof fn lemma_headers_since_add(
    a: Seq<(u32, BlockHeader)>,
    b: Seq<(u32, BlockHeader)>,
    birth: u64,
)
    ensures
        headers_since(a + b, birth) == headers_since(a, birth) + headers_since(b, birth),
    decreases b.len(),
{
    if b.len() == 0 {
        assert(a + b =~= a);
    } else {
        lemma_headers_since_add(a, b.drop_last(), birth);
        assert((a + b).drop_last() =~= a + b.drop_last());
    }
    assert(headers_since(a + b, birth) =~= headers_since(a, birth) + headers_since(b, birth));
}

proof fn lemma_losses_since_add(a: Seq<BlockHeader>, b: Seq<BlockHeader>, birth: u64)
    ensures
        losses_since(a + b, birth) == losses_since(a, birth) + losses_since(b, birth),
    decreases b.len(),
{
    if b.len() == 0 {
        assert(a + b =~= a);
    } else {
        lemma_losses_since_add(a, b.drop_last(), birth);
        assert((a + b).drop_last() =~= a + b.drop_last());
    }
    assert(losses_since(a + b, birth) =~= losses_since(a, birth) + losses_since(b, birth));
}

/// What is noted and not yet told.
spec fn noted(v: DownloadView) -> (Seq<(u32, BlockHeader)>, Seq<BlockHeader>) {
    match v.round {
        Some(round) => (round.connected, round.disconnected),
        None => (Seq::empty(), Seq::empty()),
    }
}

/// One header on: what is told, with what is noted then, is what was noted
/// before with what came of the header.
proof fn lemma_told_one(v: DownloadView, handed: Handed)
    requires
        v.round is Some,
    ensures
        ({
            let (next, actions) = play_one(v, handed);
            &&& next.birth == v.birth
            &&& told_headers(actions) + headers_since(noted(next).0, v.birth) == headers_since(
                noted(v).0 + accepted(seq![handed]),
                v.birth,
            )
            &&& told_losses(actions) + losses_since(noted(next).1, v.birth) == losses_since(
                noted(v).1 + lost_for(handed),
                v.birth,
            )
        }),
{
    let (added, requests) = after_add(v, handed.headers, handed.outcome);
    let (next, actions) = play_one(v, handed);
    let joined = noted(v).0 + accepted(seq![handed]);
    let gone = noted(v).1 + lost_for(handed);
    reveal_with_fuel(accepted, 2);
    assert(seq![handed].drop_last() =~= Seq::empty());
    assert(noted(added).0 =~= joined);
    assert(noted(added).1 =~= gone);
    lemma_nothing_told(requests);
    if requests.last() == Action::CommitHeaders {
        let round = added.round->0;
        let told = after_commit(added, connected_hashes(round.connected)).1;
        let first = tell_disconnected(round.disconnected, v.birth);
        let second = tell_connected(round.connected, v.birth);
        let rest = told.skip((first.len() + second.len()) as int);
        assert(told =~= first + second + rest);
        lemma_told_disconnected(round.disconnected, v.birth);
        lemma_told_connected(round.connected, v.birth);
        lemma_nothing_told(rest);
        lemma_told_add(first, second);
        lemma_told_add(first + second, rest);
        lemma_told_add(requests, told);
        assert(headers_since(noted(next).0, v.birth) =~= Seq::empty());
        assert(losses_since(noted(next).1, v.birth) =~= Seq::empty());
    }
    assert(told_headers(actions) + headers_since(noted(next).0, v.birth) =~= headers_since(
        joined,
        v.birth,
    ));
    assert(told_losses(actions) + losses_since(noted(next).1, v.birth) =~= losses_since(
        gone,
        v.birth,
    ));
}

proof fn lemma_told(v: DownloadView, steps: Seq<Handed>)
    requires
        v.round is Some,
        is_fresh(v.round->0),
        steps.len() <= v.round->0.queue.len() + 1,
    ensures
        ({
            let (next, actions) = play(v, steps);
            &&& next.birth == v.birth
            &&& told_headers(actions) + headers_since(noted(next).0, v.birth) == headers_since(
                accepted(steps),
                v.birth,
            )
            &&& told_losses(actions) + losses_since(noted(next).1, v.birth) == losses_since(
                lost(steps),
                v.birth,
            )
        }),
    decreases steps.len(),
{
    if steps.len() == 0 {
        assert(noted(v).0 =~= Seq::empty());
        assert(noted(v).1 =~= Seq::empty());
    } else {
        let earlier = steps.drop_last();
        let handed = steps.last();
        lemma_told(v, earlier);
        law_each_header_once(v, earlier);
        let (before, actions) = play(v, earlier);
        let (next, more) = play_one(before, handed);
        lemma_told_one(before, handed);
        lemma_told_add(actions, more);
        lemma_headers_since_add(noted(before).0, accepted(seq![handed]), v.birth);
        lemma_losses_since_add(noted(before).1, lost_for(handed), v.birth);
        lemma_headers_since_add(accepted(earlier), accepted(seq![handed]), v.birth);
        lemma_losses_since_add(lost(earlier), lost_for(handed), v.birth);
        reveal_with_fuel(accepted, 2);
        assert(seq![handed].drop_last() =~= Seq::empty());
        assert(accepted(steps) =~= accepted(earlier) + accepted(seq![handed]));
        let one = headers_since(accepted(seq![handed]), v.birth);
        let noted_then = headers_since(noted(next).0, v.birth);
        assert(told_headers(actions + more) + noted_then =~= told_headers(actions) + (told_headers(
            more,
        ) + noted_then));
        assert(told_headers(actions) + (headers_since(noted(before).0, v.birth) + one) =~= (
        told_headers(actions) + headers_since(noted(before).0, v.birth)) + one);
        let lost_one = losses_since(lost_for(handed), v.birth);
        let lost_then = losses_since(noted(next).1, v.birth);
        assert(told_losses(actions + more) + lost_then =~= told_losses(actions) + (told_losses(
            more,
        ) + lost_then));
        assert(told_losses(actions) + (losses_since(noted(before).1, v.birth) + lost_one) =~= (
        told_losses(actions) + losses_since(noted(before).1, v.birth)) + lost_one);
        assert(told_headers(actions + more) + headers_since(noted(next).0, v.birth)
            =~= headers_since(accepted(steps), v.birth));
        assert(told_losses(actions + more) + losses_since(noted(next).1, v.birth)
            =~= losses_since(lost(steps), v.birth));
    }
}

/// Whatever comes of received headers, once the last one was handed to the chain
/// the wallet has been told of each header that the chain took and that was made
/// after `birth`, once, with its height and in order, and of each header made
/// after `birth` that left the trunk, once and in order; and of no others.
pub proof fn law_wallet_is_told(v: DownloadView, steps: Seq<Handed>)
    requires
        v.round is Some,
        is_fresh(v.round->0),
        steps.len() == v.round->0.queue.len() + 1,
    ensures
        told_headers(play(v, steps).1) == headers_since(accepted(steps), v.birth),
        told_losses(play(v, steps).1) == losses_since(lost(steps), v.birth),
{
    lemma_told(v, steps);
    law_each_header_once(v, steps);
    let (next, actions) = play(v, steps);
    assert(headers_since(noted(next).0, v.birth) =~= Seq::empty());
    assert(losses_since(noted(next).1, v.birth) =~= Seq::empty());
    assert(told_headers(actions) =~= headers_since(accepted(steps), v.birth));
    assert(told_losses(actions) =~= losses_since(lost(steps), v.birth));
}

} // verus!
