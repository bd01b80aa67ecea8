//! What holds of received headers at each step of their way into the chain.
use vstd::prelude::*;

use crate::digest::header_hash;
use crate::download::DownloadView;
use crate::transition::{
    after_add, after_commit, connected_hashes, newly_wanted, possible_outcome, tell_connected,
    tell_disconnected, Action, AddOutcome,
};
use crate::types::{BlockHeader, Hash256, StoredHeader};

verus! {

/// The hash in each place is that of the header in the same place.
pub proof fn law_hashes_of_connected(connected: Seq<(u32, BlockHeader)>)
    ensures
        connected_hashes(connected).len() == connected.len(),
        forall|i: int|
            0 <= i < connected.len() ==> #[trigger] connected_hashes(connected)[i] == header_hash(
                connected[i].1,
            ),
{
}

/// A connected header makes its block wanted, with its own height, exactly if it
/// was made after `birth`, whatever else was connected: headers one after another
/// make wanted what they make wanted apart.
pub proof fn law_each_header_wants(
    a: Seq<(u32, BlockHeader)>,
    a_hashes: Seq<Hash256>,
    b: Seq<(u32, BlockHeader)>,
    b_hashes: Seq<Hash256>,
    height: u32,
    header: BlockHeader,
    hash: Hash256,
    birth: u64,
)
    requires
        a.len() == a_hashes.len(),
        b.len() == b_hashes.len(),
    ensures
        newly_wanted(a + b, a_hashes + b_hashes, birth) == newly_wanted(a, a_hashes, birth)
            + newly_wanted(b, b_hashes, birth),
        header.time > birth ==> newly_wanted(seq![(height, header)], seq![hash], birth) == seq![
            (hash, height),
        ],
        header.time <= birth ==> newly_wanted(seq![(height, header)], seq![hash], birth).len()
            == 0,
        newly_wanted(Seq::empty(), Seq::empty(), birth).len() == 0,
    decreases b.len(),
{
    reveal_with_fuel(newly_wanted, 2);
    assert(seq![(height, header)].drop_last() =~= Seq::empty());
    if header.time > birth {
        assert(newly_wanted(seq![(height, header)], seq![hash], birth) =~= seq![(hash, height)]);
    }
    if b.len() == 0 {
        assert(a + b =~= a);
        assert(a_hashes + b_hashes =~= a_hashes);
        assert(newly_wanted(a, a_hashes, birth) + newly_wanted(b, b_hashes, birth)
            =~= newly_wanted(a, a_hashes, birth));
    } else {
        law_each_header_wants(
            a,
            a_hashes,
            b.drop_last(),
            b_hashes.drop_last(),
            height,
            header,
            hash,
            birth,
        );
        assert((a + b).drop_last() =~= a + b.drop_last());
        assert((a_hashes + b_hashes).drop_last() =~= a_hashes + b_hashes.drop_last());
        assert(newly_wanted(a + b, a_hashes + b_hashes, birth) =~= newly_wanted(a, a_hashes, birth)
            + newly_wanted(b, b_hashes, birth));
    }
}

/// The wallet is told of a connected header, with its own height, exactly if the
/// header was made after `birth`, whatever else was connected.
pub proof fn law_each_header_told(
    a: Seq<(u32, BlockHeader)>,
    b: Seq<(u32, BlockHeader)>,
    height: u32,
    header: BlockHeader,
    birth: u64,
)
    ensures
        tell_connected(a + b, birth) == tell_connected(a, birth) + tell_connected(b, birth),
        header.time > birth ==> tell_connected(seq![(height, header)], birth) == seq![
            Action::HeaderConnected { header, height },
        ],
        header.time <= birth ==> tell_connected(seq![(height, header)], birth).len() == 0,
        tell_connected(Seq::empty(), birth).len() == 0,
    decreases b.len(),
{
    reveal_with_fuel(tell_connected, 2);
    assert(seq![(height, header)].drop_last() =~= Seq::empty());
    if header.time > birth {
        assert(tell_connected(seq![(height, header)], birth) =~= seq![
            Action::HeaderConnected { header, height },
        ]);
    }
    if b.len() == 0 {
        assert(a + b =~= a);
        assert(tell_connected(a, birth) + tell_connected(b, birth) =~= tell_connected(a, birth));
    } else {
        law_each_header_told(a, b.drop_last(), height, header, birth);
        assert((a + b).drop_last() =~= a + b.drop_last());
        assert(tell_connected(a + b, birth) =~= tell_connected(a, birth) + tell_connected(
            b,
            birth,
        ));
    }
}

/// The wallet is told of a header that left the trunk exactly if it was made
/// after `birth`, whatever else left.
pub proof fn law_each_loss_told(
    a: Seq<BlockHeader>,
    b: Seq<BlockHeader>,
    header: BlockHeader,
    birth: u64,
)
    ensures
        tell_disconnected(a + b, birth) == tell_disconnected(a, birth) + tell_disconnected(
            b,
            birth,
        ),
        header.time > birth ==> tell_disconnected(seq![header], birth) == seq![
            Action::BlockDisconnected(header),
        ],
        header.time <= birth ==> tell_disconnected(seq![header], birth).len() == 0,
        tell_disconnected(Seq::empty(), birth).len() == 0,
    decreases b.len(),
{
    reveal_with_fuel(tell_disconnected, 2);
    assert(seq![header].drop_last() =~= Seq::empty());
    if header.time > birth {
        assert(tell_disconnected(seq![header], birth) =~= seq![Action::BlockDisconnected(header)]);
    }
    if b.len() == 0 {
        assert(a + b =~= a);
        assert(tell_disconnected(a, birth) + tell_disconnected(b, birth) =~= tell_disconnected(
            a,
            birth,
        ));
    } else {
        law_each_loss_told(a, b.drop_last(), header, birth);
        assert((a + b).drop_last() =~= a + b.drop_last());
        assert(tell_disconnected(a + b, birth) =~= tell_disconnected(a, birth)
            + tell_disconnected(b, birth));
    }
}

/// Every outcome but an added header is one that the chain can give; so is an
/// added header exactly if all hashes that left the trunk are known and, where
/// the tip moved, some hash joined it.
pub proof fn law_possible_outcomes(headers: Map<Hash256, StoredHeader>, outcome: AddOutcome)
    ensures
        !(outcome is Added) ==> possible_outcome(headers, outcome),
        outcome matches AddOutcome::Added { unwinds, forwards, .. } ==> (possible_outcome(
            headers,
            outcome,
        ) <==> {
            &&& forwards is None || forwards->0@.len() > 0
            &&& unwinds is None || forall|i: int|
                0 <= i < unwinds->0@.len() ==> headers.contains_key(#[trigger] unwinds->0@[i])
        }),
{
}

/// After a header was handed to the chain: where it moved the trunk to another
/// branch, or none is left, the batch is made permanent; else the next one is
/// handed over, and only that leaves the queue. A header without its proof of
/// work, and no other, first gets its sender banned. What is wanted, what is
/// asked for and the download peer stay.
pub proof fn law_after_handing_over(
    v: DownloadView,
    headers: Map<Hash256, StoredHeader>,
    outcome: AddOutcome,
)
    requires
        v.round is Some,
    ensures
        ({
            let (next, actions) = after_add(v, headers, outcome);
            let queue = v.round->0.queue;
            let branched = outcome matches AddOutcome::Added { unwinds, .. } && unwinds is Some;
            let bad: int = if outcome is BadProofOfWork {
                1
            } else {
                0
            };
            &&& next.round is Some
            &&& actions.len() == 1 + bad
            &&& bad == 1 ==> actions[0] == (Action::Ban { peer: v.round->0.peer, score: 100 })
            &&& if branched || queue.len() == 0 {
                &&& actions.last() == Action::CommitHeaders
                &&& next.round->0.queue == queue
            } else {
                &&& actions.last() == Action::AddHeader(queue[0])
                &&& seq![queue[0]] + next.round->0.queue == queue
            }
            &&& next.wanted == v.wanted
            &&& next.asked == v.asked
            &&& next.peer == v.peer
            &&& next.birth == v.birth
            &&& next.round->0.peer == v.round->0.peer
        }),
{
    let (next, actions) = after_add(v, headers, outcome);
    let queue = v.round->0.queue;
    if queue.len() > 0 {
        assert(seq![queue[0]] + queue.skip(1) =~= queue);
    }
}

/// What is noted of a header that was handed to the chain. One that was added is
/// noted last with its height, and the headers of all hashes that left the trunk
/// for it are noted after those noted before, in order; its height and the last
/// hash that joined the trunk are the latest. Of one that was not added nothing
/// is noted.
pub proof fn law_what_is_noted(
    v: DownloadView,
    headers: Map<Hash256, StoredHeader>,
    outcome: AddOutcome,
)
    requires
        v.round is Some,
    ensures
        ({
            let old_round = v.round->0;
            let new_round = after_add(v, headers, outcome).0.round->0;
            match outcome {
                AddOutcome::Added { header, height, unwinds, forwards } => {
                    &&& new_round.connected == old_round.connected + seq![(height, header)]
                    &&& new_round.some_new
                    &&& new_round.height == height
                    &&& forwards is None ==> new_round.moved_tip == old_round.moved_tip
                    &&& forwards is Some ==> new_round.moved_tip == Some(
                        forwards->0@[forwards->0@.len() - 1],
                    )
                    &&& unwinds is None ==> new_round.disconnected == old_round.disconnected
                    &&& unwinds is Some ==> {
                        let (before, left) = (old_round.disconnected.len(), unwinds->0@);
                        &&& new_round.disconnected.len() == before + left.len()
                        &&& forall|i: int|
                            0 <= i < before ==> new_round.disconnected[i]
                                == #[trigger] old_round.disconnected[i]
                        &&& forall|i: int|
                            0 <= i < left.len() ==> new_round.disconnected[before + i]
                                == headers[#[trigger] left[i]].header
                    }
                },
                _ => {
                    &&& new_round.connected == old_round.connected
                    &&& new_round.disconnected == old_round.disconnected
                    &&& new_round.some_new == old_round.some_new
                    &&& new_round.moved_tip == old_round.moved_tip
                    &&& new_round.height == old_round.height
                },
            }
        }),
{
    if let AddOutcome::Added { header, height, .. } = outcome {
        assert(v.round->0.connected.push((height, header)) =~= v.round->0.connected + seq![
            (height, header),
        ]);
    }
}

/// Once added headers are permanent, the wallet is told first of what left the
/// trunk and then of what was connected. For each block that the wallet is told
/// has left, the last wanted block is given up, as long as there is one; then
/// the blocks of the connected headers are wanted, after all others. What is asked
/// for and the download peer stay.
pub proof fn law_commit_tells_wallet(v: DownloadView, hashes: Seq<Hash256>)
    requires
        v.round is Some,
        hashes.len() == v.round->0.connected.len(),
    ensures
        ({
            let (next, actions) = after_commit(v, hashes);
            let left = tell_disconnected(v.round->0.disconnected, v.birth);
            let joined = tell_connected(v.round->0.connected, v.birth);
            let more = newly_wanted(v.round->0.connected, hashes, v.birth);
            let kept: int = if v.wanted.len() > left.len() {
                v.wanted.len() - left.len()
            } else {
                0
            };
            &&& actions.len() >= left.len() + joined.len()
            &&& actions.take(left.len() as int) == left
            &&& actions.skip(left.len() as int).take(joined.len() as int) == joined
            &&& next.wanted.len() == kept + more.len()
            &&& next.wanted.take(kept) == v.wanted.take(kept)
            &&& next.wanted.skip(kept) == more
            &&& next.asked == v.asked
            &&& next.peer == v.peer
            &&& next.birth == v.birth
        }),
{
    let (next, actions) = after_commit(v, hashes);
    let left = tell_disconnected(v.round->0.disconnected, v.birth);
    let joined = tell_connected(v.round->0.connected, v.birth);
    let more = newly_wanted(v.round->0.connected, hashes, v.birth);
    let kept: int = if v.wanted.len() > left.len() {
        v.wanted.len() - left.len()
    } else {
        0
    };
    assert(actions.take(left.len() as int) =~= left);
    assert(actions.skip(left.len() as int).take(joined.len() as int) =~= joined);
    assert(next.wanted.take(kept) =~= v.wanted.take(kept));
    assert(next.wanted.skip(kept) =~= more);
}

/// What follows when the wallet has been told: where headers are left, the next
/// one is handed to the chain, and the round goes on with nothing noted since.
/// Else the round is over; its peer is asked for more headers exactly if one was
/// new, and then the height of the last one is reported exactly if the tip moved.
pub proof fn law_round_goes_on(v: DownloadView, hashes: Seq<Hash256>)
    requires
        v.round is Some,
        hashes.len() == v.round->0.connected.len(),
    ensures
        ({
            let (next, actions) = after_commit(v, hashes);
            let round = v.round->0;
            let told = tell_disconnected(round.disconnected, v.birth).len() + tell_connected(
                round.connected,
                v.birth,
            ).len();
            let asks: int = if round.some_new {
                1
            } else {
                0
            };
            let reports: int = if round.moved_tip is Some {
                1
            } else {
                0
            };
            if round.queue.len() > 0 {
                &&& next.round is Some
                &&& actions.len() == told + 1
                &&& actions.last() == Action::AddHeader(round.queue[0])
                &&& seq![round.queue[0]] + next.round->0.queue == round.queue
                &&& next.round->0.connected.len() == 0
                &&& next.round->0.disconnected.len() == 0
                &&& next.round->0.peer == round.peer
                &&& next.round->0.height == round.height
                &&& next.round->0.some_new == round.some_new
                &&& next.round->0.moved_tip == round.moved_tip
            } else {
                &&& next.round is None
                &&& actions.len() == told + asks + reports
                &&& round.some_new ==> actions[told as int] == Action::GetHeaders(round.peer)
                &&& round.moved_tip is Some ==> actions.last() == Action::Height(round.height)
            }
        }),
{
    let round = v.round->0;
    if round.queue.len() > 0 {
        assert(seq![round.queue[0]] + round.queue.skip(1) =~= round.queue);
    }
}

} // verus!
