//! What holds of the download after each message of the network layer.
use vstd::prelude::*;

use crate::digest::header_hash;
use crate::download::DownloadView;
use crate::round_laws::handed_over;
use crate::transition::{
    after_ask, after_message, serves_blocks, Action, Reply, SERVICE_BLOCKS,
};
use crate::types::{
    Block, BlockHeader, Hash256, InvType, Inventory, NetworkMessage, PeerId, PeerMessage,
    StoredHeader,
};

verus! {

/// Announced services that are an odd number: their lowest bit says that the peer
/// has blocks to give.
pub open spec fn has_blocks(services: Option<u64>) -> bool {
    services matches Some(bits) && bits % 2 == 1
}

/// A peer serves blocks exactly if it announced services of which the lowest bit
/// is set.
pub proof fn law_lowest_bit_serves(services: Option<u64>)
    ensures
        serves_blocks(services) <==> has_blocks(services),
{
    if let Some(bits) = services {
        assert(SERVICE_BLOCKS == 1);
        assert(bits & 1 != 0 <==> bits % 2 == 1) by (bit_vector);
    }
}

/// The peer that blocks are asked of after a message came in from `peer`: the one
/// that was there, or this one.
pub open spec fn peer_after(v: DownloadView, peer: PeerId) -> PeerId {
    match v.peer {
        Some(there) => there,
        None => peer,
    }
}

/// Whatever comes in, whatever is wanted and whatever is asked for: afterwards
/// there is a download peer, a new one only where there was none, and if it is
/// the sender, the last thing done is to ask it for blocks. No other peer is
/// asked, and none twice.
pub proof fn law_incoming_asks_last(
    v: DownloadView,
    headers: Map<Hash256, StoredHeader>,
    trunk: Seq<Hash256>,
    peer: PeerId,
    message: NetworkMessage,
    services: Option<u64>,
)
    ensures
        ({
            let (next, actions) = after_message(
                v,
                headers,
                trunk,
                PeerMessage::Incoming(peer, message),
                services,
            );
            &&& next.peer == Some(peer_after(v, peer))
            &&& peer_after(v, peer) == peer ==> actions.len() > 0 && actions.last()
                == Action::AskBlocks(peer)
            &&& forall|i: int|
                0 <= i < actions.len() && (#[trigger] actions[i]) is AskBlocks ==> i
                    == actions.len() - 1 && peer_after(v, peer) == peer
            &&& next.wanted == v.wanted
            &&& next.birth == v.birth
        }),
{
}

/// Of a message other than headers, an inventory or a block nothing else comes
/// than that the sender is asked for blocks if it is the download peer.
pub proof fn law_other_message(
    v: DownloadView,
    headers: Map<Hash256, StoredHeader>,
    trunk: Seq<Hash256>,
    peer: PeerId,
    message: NetworkMessage,
    services: Option<u64>,
)
    requires
        !(message is Headers),
        !(message is Inv),
        !(message is Block),
    ensures
        ({
            let (next, actions) = after_message(
                v,
                headers,
                trunk,
                PeerMessage::Incoming(peer, message),
                services,
            );
            &&& next == (DownloadView { peer: Some(peer_after(v, peer)), ..v })
            &&& actions.len() <= 1
            &&& actions.len() == 1 <==> peer_after(v, peer) == peer
        }),
{
}

/// Headers of a peer that has blocks, if there are any and the chain has a tip,
/// start a round in every state of the download: the first is handed to the
/// chain and the others wait in order, so that together they are just what was
/// received. The round starts at the height of the tip with nothing added. Other
/// headers start none, and those of a peer without blocks are passed over.
pub proof fn law_headers_start_round(
    v: DownloadView,
    headers: Map<Hash256, StoredHeader>,
    trunk: Seq<Hash256>,
    peer: PeerId,
    list: Vec<BlockHeader>,
    services: Option<u64>,
)
    ensures
        ({
            let (next, actions) = after_message(
                v,
                headers,
                trunk,
                PeerMessage::Incoming(peer, NetworkMessage::Headers(list)),
                services,
            );
            let received = Action::Received { peer, count: 1, reply: Reply::Headers };
            let starts = has_blocks(services) && list@.len() > 0 && trunk.len() > 0
                && headers.contains_key(trunk.last());
            let asks: int = if peer_after(v, peer) == peer {
                1
            } else {
                0
            };
            &&& next.wanted == v.wanted
            &&& next.asked == v.asked
            &&& has_blocks(services) ==> actions.len() > 0 && actions[0] == received
            &&& if starts {
                &&& next.round matches Some(round)
                &&& handed_over(actions) + round.queue == list@
                &&& handed_over(actions) == seq![list@[0]]
                &&& actions.len() == 2 + asks
                &&& actions[1] == Action::AddHeader(list@[0])
                &&& round.peer == peer
                &&& round.height == headers[trunk.last()].height
                &&& !round.some_new
                &&& round.moved_tip is None
                &&& round.connected.len() == 0
                &&& round.disconnected.len() == 0
            } else {
                &&& next.round == v.round
                &&& handed_over(actions).len() == 0
                &&& actions.len() == (if has_blocks(services) {
                    1int
                } else {
                    0
                }) + asks
            }
        }),
{
    law_lowest_bit_serves(services);
    let (next, actions) = after_message(
        v,
        headers,
        trunk,
        PeerMessage::Incoming(peer, NetworkMessage::Headers(list)),
        services,
    );
    reveal_with_fuel(handed_over, 4);
    if next.round is Some && actions.len() >= 2 && actions[1] is AddHeader {
        let rest = next.round->0.queue;
        assert(seq![list@[0]] + rest =~= list@);
        assert(handed_over(actions) =~= seq![list@[0]]);
    }
}

/// An inventory leads to a request for headers exactly if the peer has blocks and
/// some place of the inventory announces a block, of the plain kind, that the
/// chain does not know. It changes nothing but the download peer.
pub proof fn law_inventory_asks_headers(
    v: DownloadView,
    headers: Map<Hash256, StoredHeader>,
    trunk: Seq<Hash256>,
    peer: PeerId,
    list: Vec<Inventory>,
    services: Option<u64>,
)
    ensures
        ({
            let (next, actions) = after_message(
                v,
                headers,
                trunk,
                PeerMessage::Incoming(peer, NetworkMessage::Inv(list)),
                services,
            );
            let news = has_blocks(services) && exists|i: int|
                0 <= i < list@.len() && (#[trigger] list@[i]).inv_type is Block
                    && !headers.contains_key(list@[i].hash);
            let asks: int = if peer_after(v, peer) == peer {
                1
            } else {
                0
            };
            &&& next == (DownloadView { peer: Some(peer_after(v, peer)), ..v })
            &&& news ==> actions.len() == 1 + asks && actions[0] == Action::GetHeaders(peer)
            &&& !news ==> actions.len() == asks
        }),
{
    law_lowest_bit_serves(services);
    assert forall|i: int| 0 <= i < list@.len() implies ((#[trigger] list@[i]).inv_type is Block
        <==> list@[i].inv_type == InvType::Block) by {}
}

/// A block that comes in counts exactly if its sender is the download peer and
/// its hash is the first of those asked for. Then it is the wallet's with the
/// height that was noted for it, it is no longer asked for, and one reply is
/// taken off; else nothing but the download peer changes.
pub proof fn law_next_block_counts(
    v: DownloadView,
    headers: Map<Hash256, StoredHeader>,
    trunk: Seq<Hash256>,
    peer: PeerId,
    block: Block,
    services: Option<u64>,
)
    ensures
        ({
            let (next, actions) = after_message(
                v,
                headers,
                trunk,
                PeerMessage::Incoming(peer, NetworkMessage::Block(block)),
                services,
            );
            let counts = v.peer == Some(peer) && v.asked.len() > 0 && v.asked[0].0 == header_hash(
                block.header,
            );
            &&& next.round == v.round
            &&& if counts {
                &&& actions.len() == 3
                &&& actions[0] == (Action::Received { peer, count: 1, reply: Reply::Block })
                &&& actions[1] == (Action::BlockConnected { block, height: v.asked[0].1 })
                &&& seq![v.asked[0]] + next.asked == v.asked
            } else {
                &&& next.asked == v.asked
                &&& forall|i: int|
                    0 <= i < actions.len() ==> (#[trigger] actions[i]) is AskBlocks
            }
        }),
{
    let (next, actions) = after_message(
        v,
        headers,
        trunk,
        PeerMessage::Incoming(peer, NetworkMessage::Block(block)),
        services,
    );
    if v.peer == Some(peer) && v.asked.len() > 0 && v.asked[0].0 == header_hash(block.header) {
        assert(seq![v.asked[0]] + next.asked =~= v.asked);
    }
}

/// A new peer is asked for headers exactly if it has blocks, and then becomes the
/// download peer where there is none. Nothing else changes.
pub proof fn law_new_peer(
    v: DownloadView,
    headers: Map<Hash256, StoredHeader>,
    trunk: Seq<Hash256>,
    peer: PeerId,
    services: Option<u64>,
)
    ensures
        ({
            let (next, actions) = after_message(
                v,
                headers,
                trunk,
                PeerMessage::Connected(peer),
                services,
            );
            if has_blocks(services) {
                &&& next == (DownloadView { peer: Some(peer_after(v, peer)), ..v })
                &&& actions.len() == 1
                &&& actions[0] == Action::GetHeaders(peer)
            } else {
                next == v && actions.len() == 0
            }
        }),
{
    law_lowest_bit_serves(services);
}

/// A peer that is gone is not the download peer, whatever was asked of it: where
/// it was, there is none, nothing is asked for any more, and what was asked for
/// is wanted first, in order. Where it was not, nothing changes. Nothing is done.
pub proof fn law_lost_peer(
    v: DownloadView,
    headers: Map<Hash256, StoredHeader>,
    trunk: Seq<Hash256>,
    peer: PeerId,
    services: Option<u64>,
)
    ensures
        ({
            let (next, actions) = after_message(
                v,
                headers,
                trunk,
                PeerMessage::Disconnected(peer),
                services,
            );
            &&& actions.len() == 0
            &&& next.peer != Some(peer)
            &&& v.peer != Some(peer) ==> next == v
            &&& v.peer == Some(peer) ==> {
                &&& next.peer is None
                &&& next.asked.len() == 0
                &&& next.wanted.len() == v.asked.len() + v.wanted.len()
                &&& forall|i: int| 0 <= i < v.asked.len() ==> next.wanted[i] == #[trigger] v.asked[i]
                &&& forall|i: int|
                    0 <= i < v.wanted.len() ==> next.wanted[v.asked.len() + i]
                        == #[trigger] v.wanted[i]
            }
            &&& next.birth == v.birth
            &&& next.round == v.round
        }),
{
}

/// The next peer to send anything after the download peer is gone takes its
/// place and is asked for blocks.
pub proof fn law_next_peer_takes_over(
    v: DownloadView,
    headers: Map<Hash256, StoredHeader>,
    trunk: Seq<Hash256>,
    lost: PeerId,
    peer: PeerId,
    message: NetworkMessage,
    services: Option<u64>,
)
    requires
        v.peer == Some(lost),
    ensures
        ({
            let alone = after_message(
                v,
                headers,
                trunk,
                PeerMessage::Disconnected(lost),
                services,
            ).0;
            let (next, actions) = after_message(
                alone,
                headers,
                trunk,
                PeerMessage::Incoming(peer, message),
                services,
            );
            &&& next.peer == Some(peer)
            &&& actions.len() > 0
            &&& actions.last() == Action::AskBlocks(peer)
        }),
{
    law_lost_peer(v, headers, trunk, lost, services);
    let alone = after_message(
        v,
        headers,
        trunk,
        PeerMessage::Disconnected(lost),
        services,
    ).0;
    law_incoming_asks_last(alone, headers, trunk, peer, message, services);
}

/// What the node itself sends changes nothing.
pub proof fn law_own_message(
    v: DownloadView,
    headers: Map<Hash256, StoredHeader>,
    trunk: Seq<Hash256>,
    message: NetworkMessage,
    services: Option<u64>,
)
    ensures
        ({
            let (next, actions) = after_message(
                v,
                headers,
                trunk,
                PeerMessage::Outgoing(message),
                services,
            );
            next == v && actions.len() == 0
        }),
{
}

/// A peer that owes no blocks is asked for all that were asked for and for the
/// oldest wanted blocks, up to 1000 of them; one that owes some is asked for
/// nothing. A wanted block is either asked for now or wanted still.
pub proof fn law_ask_takes_oldest(v: DownloadView, busy: bool)
    ensures
        ({
            let next = after_ask(v, busy);
            let taken = next.asked.len() - v.asked.len();
            &&& busy ==> next == v
            &&& !busy ==> taken == 1000 || taken < 1000 && taken == v.wanted.len()
            &&& !busy ==> 0 <= taken <= 1000 && taken <= v.wanted.len()
            &&& forall|i: int| 0 <= i < v.asked.len() ==> next.asked[i] == #[trigger] v.asked[i]
            &&& forall|i: int|
                0 <= i < taken ==> next.asked[v.asked.len() + i] == #[trigger] v.wanted[i]
            &&& next.wanted.len() == v.wanted.len() - taken
            &&& forall|i: int|
                taken <= i < v.wanted.len() ==> next.wanted[i - taken] == #[trigger] v.wanted[i]
            &&& next.peer == v.peer
            &&& next.birth == v.birth
            &&& next.round == v.round
        }),
{
}

} // verus!
