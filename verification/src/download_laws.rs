//! What holds of the download over all its events.
use vstd::prelude::*;

use crate::download::DownloadView;
use crate::transition::{
    after_add, after_ask, after_block, after_commit, after_disconnected, after_message,
    request_size, Action, AddOutcome, Reply, MAX_BLOCKS_PER_REQUEST,
};
use crate::types::{Block, Hash256, NetworkMessage, PeerId, PeerMessage, StoredHeader};

verus! {

/// The blocks that are still to come, in the order in which they will reach
/// the wallet: first those asked for, then those wanted.
pub open spec fn pending(v: DownloadView) -> Seq<(Hash256, u32)> {
    v.asked + v.wanted
}

/// Asking for blocks changes neither which blocks are to come nor their
/// order. A request adds at most the oldest
/// [`MAX_BLOCKS_PER_REQUEST`] wanted blocks, and leaves none wanted unless it
/// adds as many.
pub proof fn law_ask_keeps_pending(v: DownloadView, busy: bool)
    ensures
        pending(after_ask(v, busy)) == pending(v),
        after_ask(v, busy).asked.len() <= v.asked.len() + MAX_BLOCKS_PER_REQUEST,
        !busy && after_ask(v, busy).wanted.len() > 0 ==> after_ask(v, busy).asked.len()
            == v.asked.len() + MAX_BLOCKS_PER_REQUEST,
{
    let n = request_size(v.wanted) as int;
    assert(v.wanted =~= v.wanted.take(n) + v.wanted.skip(n));
    assert(pending(after_ask(v, busy)) =~= pending(v));
}

/// The loss of a peer changes neither which blocks are to come nor their
/// order, and if blocks were asked of that peer, none are asked for any more.
pub proof fn law_disconnect_keeps_pending(v: DownloadView, peer: PeerId)
    ensures
        pending(after_disconnected(v, peer)) == pending(v),
        v.peer == Some(peer) ==> after_disconnected(v, peer).asked.len() == 0,
{
    assert(pending(after_disconnected(v, peer)) =~= pending(v));
}

/// Blocks reach the wallet in the order in which they are to come: a block is
/// either passed over, and nothing changes, or it is the first of those to
/// come, and the wallet is told of it with its height.
pub proof fn law_blocks_in_order(v: DownloadView, hash: Hash256, block: Block, peer: PeerId)
    ensures
        ({
            let (next, actions) = after_block(v, hash, block, peer);
            ||| next == v && actions.len() == 0
            ||| {
                &&& pending(v).len() > 0
                &&& pending(v)[0].0 == hash
                &&& pending(next) == pending(v).skip(1)
                &&& actions == seq![
                    Action::Received { peer, count: 1, reply: Reply::Block },
                    Action::BlockConnected { block, height: pending(v)[0].1 },
                ]
            }
        }),
{
    let (next, actions) = after_block(v, hash, block, peer);
    if v.peer == Some(peer) && v.asked.len() > 0 && v.asked[0].0 == hash {
        assert(pending(next) =~= pending(v).skip(1));
    } else {
        assert(actions =~= Seq::empty());
    }
}

/// What the download does as blocks come from a peer, one after another,
/// where `hashes` are their hashes.
pub open spec fn after_blocks(
    v: DownloadView,
    hashes: Seq<Hash256>,
    blocks: Seq<Block>,
    peer: PeerId,
) -> (DownloadView, Seq<Action>)
    decreases blocks.len(),
{
    if blocks.len() == 0 {
        (v, Seq::empty())
    } else {
        let (before, actions) = after_blocks(v, hashes.drop_last(), blocks.drop_last(), peer);
        let (after, more) = after_block(before, hashes.last(), blocks.last(), peer);
        (after, actions + more)
    }
}

/// The blocks that actions tell the wallet of, with their heights.
pub open spec fn blocks_told(actions: Seq<Action>) -> Seq<(Block, u32)>
    decreases actions.len(),
{
    if actions.len() == 0 {
        Seq::empty()
    } else {
        let before = blocks_told(actions.drop_last());
        match actions.last() {
            Action::BlockConnected { block, height } => before.push((block, height)),
            _ => before,
        }
    }
}

/// A peer that answers with the first of the blocks that were asked of it, in
/// order, gets each of them to the wallet with its height, and just the rest
/// are still asked for.
pub proof fn law_answers_reach_wallet(
    v: DownloadView,
    hashes: Seq<Hash256>,
    blocks: Seq<Block>,
    peer: PeerId,
)
    requires
        v.peer == Some(peer),
        hashes.len() == blocks.len() <= v.asked.len(),
        forall|i: int| 0 <= i < hashes.len() ==> #[trigger] hashes[i] == v.asked[i].0,
    ensures
        ({
            let (next, actions) = after_blocks(v, hashes, blocks, peer);
            &&& next == (DownloadView { asked: v.asked.skip(blocks.len() as int), ..v })
            &&& blocks_told(actions) == Seq::new(
                blocks.len(),
                |i: int| (blocks[i], v.asked[i].1),
            )
        }),
    decreases blocks.len(),
{
    let told = Seq::new(blocks.len(), |i: int| (blocks[i], v.asked[i].1));
    if blocks.len() == 0 {
        assert(v.asked.skip(0) =~= v.asked);
        assert(told =~= Seq::empty());
    } else {
        let n = blocks.len() - 1;
        assert forall|i: int| 0 <= i < hashes.drop_last().len() implies
            #[trigger] hashes.drop_last()[i] == v.asked[i].0 by {
            assert(hashes[i] == v.asked[i].0);
        }
        law_answers_reach_wallet(v, hashes.drop_last(), blocks.drop_last(), peer);
        let (before, actions) = after_blocks(v, hashes.drop_last(), blocks.drop_last(), peer);
        assert(hashes[n] == v.asked[n].0);
        assert(before.asked[0] == v.asked[n]);
        let (after, more) = after_block(before, hashes.last(), blocks.last(), peer);
        assert(after.asked =~= v.asked.skip(n + 1));
        let all = actions + more;
        assert(all.drop_last().drop_last() =~= actions);
        assert(all.drop_last().last() == more[0]);
        assert(all.last() == more[1]);
        assert(blocks_told(all.drop_last()) == blocks_told(actions));
        assert(blocks_told(all) =~= told);
    }
}

/// Blocks are only asked of a peer that is there.
pub open spec fn peer_is_known(v: DownloadView) -> bool {
    v.peer is None ==> v.asked.len() == 0
}

/// No event makes the node wait for blocks without a peer to wait for. Blocks
/// are asked for when a message calls for it, and then there is a peer.
pub proof fn law_peer_is_known(
    v: DownloadView,
    headers: Map<Hash256, StoredHeader>,
    trunk: Seq<Hash256>,
    message: PeerMessage,
    services: Option<u64>,
    outcome: AddOutcome,
    hashes: Seq<Hash256>,
    busy: bool,
)
    requires
        peer_is_known(v),
    ensures
        peer_is_known(after_message(v, headers, trunk, message, services).0),
        peer_is_known(after_add(v, headers, outcome).0),
        peer_is_known(after_commit(v, hashes).0),
        v.peer is Some ==> peer_is_known(after_ask(v, busy)),
        forall|peer: PeerId| #[trigger]
            after_message(v, headers, trunk, message, services).1.contains(Action::AskBlocks(peer))
                ==> after_message(v, headers, trunk, message, services).0.peer == Some(peer),
{
    let (next, actions) = after_message(v, headers, trunk, message, services);
    assert forall|peer: PeerId| #[trigger] actions.contains(Action::AskBlocks(peer)) implies
        next.peer == Some(peer) by {
        let i = choose|i: int| 0 <= i < actions.len() && actions[i] == Action::AskBlocks(peer);
        assert(actions[i] == Action::AskBlocks(peer));
    }
}

/// Every event other than a loss of the peer, a block and a request leaves the
/// blocks asked for as they are.
pub proof fn law_asked_is_stable(
    v: DownloadView,
    headers: Map<Hash256, StoredHeader>,
    trunk: Seq<Hash256>,
    message: PeerMessage,
    services: Option<u64>,
    outcome: AddOutcome,
    hashes: Seq<Hash256>,
)
    ensures
        !(message is Disconnected) && !(message matches PeerMessage::Incoming(
            _,
            NetworkMessage::Block(_),
        )) ==> after_message(v, headers, trunk, message, services).0.asked == v.asked,
        after_add(v, headers, outcome).0.asked == v.asked,
        after_commit(v, hashes).0.asked == v.asked,
{
}

} // verus!
