//! What the download does with each event, as functions on what it holds.
use vstd::prelude::*;

use crate::digest::header_hash;
use crate::download::{DownloadView, RoundView};
use crate::types::{
    Block, BlockHeader, Hash256, InvType, Inventory, NetworkMessage, PeerId, PeerMessage,
    StoredHeader,
};

verus! {

/// What a peer was asked for.
#[derive(Clone, Copy, Debug, PartialEq, Eq, Structural)]
pub enum Reply {
    Block,
    Headers,
}

/// Work for the outside of the library, in the order in which it comes.
#[derive(Debug, PartialEq, Eq)]
pub enum Action {
    /// Take `count` replies of the peer off those that are expected.
    Received { peer: PeerId, count: usize, reply: Reply },
    /// See whether the peer owes headers, and send it what
    /// [`BlockDownload::get_headers`](crate::download::BlockDownload::get_headers)
    /// gives.
    GetHeaders(PeerId),
    /// See whether the peer owes blocks, and send it what
    /// [`BlockDownload::ask_blocks`](crate::download::BlockDownload::ask_blocks)
    /// gives.
    AskBlocks(PeerId),
    /// Add the header to the chain, and report what came of it with
    /// [`BlockDownload::header_added`](crate::download::BlockDownload::header_added).
    /// What that gives is done before what follows here.
    AddHeader(BlockHeader),
    /// Make the added headers permanent, and report it with
    /// [`BlockDownload::batch_committed`](crate::download::BlockDownload::batch_committed).
    /// What that gives is done before what follows here.
    CommitHeaders,
    /// Raise the ban score of the peer.
    Ban { peer: PeerId, score: u32 },
    /// Tell the wallet of the next block of the chain.
    BlockConnected { block: Block, height: u32 },
    /// Tell the wallet of a header that was added to the chain.
    HeaderConnected { header: BlockHeader, height: u32 },
    /// Tell the wallet of a block that left the trunk.
    BlockDisconnected(BlockHeader),
    /// Tell the network layer the height of the chain.
    Height(u32),
}

/// What came of adding a header to the chain.
#[derive(Debug, PartialEq, Eq)]
pub enum AddOutcome {
    /// The header was known.
    Known,
    /// The header was added. `unwinds` are the hashes that left the trunk for
    /// it, `forwards` those that joined the trunk, the new tip last.
    Added {
        header: BlockHeader,
        height: u32,
        unwinds: Option<Vec<Hash256>>,
        forwards: Option<Vec<Hash256>>,
    },
    /// The header does not have the work that it claims.
    BadProofOfWork,
    /// The header was not added for another reason.
    Failed,
}

/// The service bit of a peer that serves blocks.
pub const SERVICE_BLOCKS: u64 = 1;

/// The ban score of a header without its proof of work.
pub const BAD_WORK_SCORE: u32 = 100;

/// The most blocks that one request adds to those already asked for.
pub const MAX_BLOCKS_PER_REQUEST: usize = 1000;

/// Whether a peer serves blocks, by the services that it announced, if it
/// has announced any.
pub open spec fn serves_blocks(services: Option<u64>) -> bool {
    match services {
        Some(bits) => bits & SERVICE_BLOCKS != 0,
        None => false,
    }
}

/// The height of the tip, if the chain has one.
pub open spec fn tip_height(
    headers: Map<Hash256, StoredHeader>,
    trunk: Seq<Hash256>,
) -> Option<u32> {
    if trunk.len() > 0 && headers.contains_key(trunk.last()) {
        Some(headers[trunk.last()].height)
    } else {
        None
    }
}

/// Whether an inventory announces a block that the chain does not know.
pub open spec fn announces_new_block(
    headers: Map<Hash256, StoredHeader>,
    inventory: Seq<Inventory>,
) -> bool {
    exists|i: int|
        0 <= i < inventory.len() && (#[trigger] inventory[i]).inv_type == InvType::Block
            && !headers.contains_key(inventory[i].hash)
}

/// A received block. It counts if it is the next one that was asked for, and
/// comes from the peer that blocks are asked of.
pub open spec fn after_block(
    v: DownloadView,
    hash: Hash256,
    block: Block,
    peer: PeerId,
) -> (DownloadView, Seq<Action>) {
    if v.peer == Some(peer) && v.asked.len() > 0 && v.asked[0].0 == hash {
        (
            DownloadView { asked: v.asked.skip(1), ..v },
            seq![
                Action::Received { peer, count: 1, reply: Reply::Block },
                Action::BlockConnected { block, height: v.asked[0].1 },
            ],
        )
    } else {
        (v, Seq::empty())
    }
}

/// Received headers. Unless there are none, or the chain has no tip, they are
/// added to the chain one by one.
pub open spec fn after_headers(
    v: DownloadView,
    headers: Seq<BlockHeader>,
    tip: Option<u32>,
    peer: PeerId,
) -> (DownloadView, Seq<Action>) {
    let received = Action::Received { peer, count: 1, reply: Reply::Headers };
    if headers.len() > 0 && tip is Some {
        let round = RoundView {
            peer,
            queue: headers.skip(1),
            height: tip->0,
            some_new: false,
            moved_tip: None,
            connected: Seq::empty(),
            disconnected: Seq::empty(),
        };
        (
            DownloadView { round: Some(round), ..v },
            seq![received, Action::AddHeader(headers[0])],
        )
    } else {
        (v, seq![received])
    }
}

/// The end of every message that comes in: the peer becomes the one that
/// blocks are asked of, if there is none, and that one is asked.
pub open spec fn after_incoming(
    done: (DownloadView, Seq<Action>),
    peer: PeerId,
) -> (DownloadView, Seq<Action>) {
    let v = match done.0.peer {
        Some(_) => done.0,
        None => DownloadView { peer: Some(peer), ..done.0 },
    };
    let actions = if v.peer == Some(peer) {
        done.1.push(Action::AskBlocks(peer))
    } else {
        done.1
    };
    (v, actions)
}

/// A peer that blocks were asked of is gone: what it was asked for is wanted
/// again, before all else.
pub open spec fn after_disconnected(v: DownloadView, peer: PeerId) -> DownloadView {
    if v.peer == Some(peer) {
        DownloadView { wanted: v.asked + v.wanted, asked: Seq::empty(), peer: None, ..v }
    } else {
        v
    }
}

/// A new peer. One that serves blocks is asked for headers, and becomes the
/// one that blocks are asked of if there is none.
pub open spec fn after_connected(
    v: DownloadView,
    peer: PeerId,
    services: Option<u64>,
) -> (DownloadView, Seq<Action>) {
    if serves_blocks(services) {
        (
            match v.peer {
                Some(_) => v,
                None => DownloadView { peer: Some(peer), ..v },
            },
            seq![Action::GetHeaders(peer)],
        )
    } else {
        (v, Seq::empty())
    }
}

/// A message of the network layer.
pub open spec fn after_message(
    v: DownloadView,
    headers: Map<Hash256, StoredHeader>,
    trunk: Seq<Hash256>,
    message: PeerMessage,
    services: Option<u64>,
) -> (DownloadView, Seq<Action>) {
    match message {
        PeerMessage::Connected(peer) => after_connected(v, peer, services),
        PeerMessage::Disconnected(peer) => (after_disconnected(v, peer), Seq::empty()),
        PeerMessage::Incoming(peer, NetworkMessage::Headers(list)) => {
            if serves_blocks(services) {
                after_incoming(after_headers(v, list@, tip_height(headers, trunk), peer), peer)
            } else {
                after_incoming((v, Seq::empty()), peer)
            }
        },
        PeerMessage::Incoming(peer, NetworkMessage::Inv(list)) => {
            if serves_blocks(services) && announces_new_block(headers, list@) {
                after_incoming((v, seq![Action::GetHeaders(peer)]), peer)
            } else {
                after_incoming((v, Seq::empty()), peer)
            }
        },
        PeerMessage::Incoming(peer, NetworkMessage::Block(block)) => after_incoming(
            after_block(v, header_hash(block.header), block, peer),
            peer,
        ),
        PeerMessage::Incoming(peer, _) => after_incoming((v, Seq::empty()), peer),
        PeerMessage::Outgoing(_) => (v, Seq::empty()),
    }
}

/// The next received header goes to the chain; after the last one, what was
/// added is made permanent.
pub open spec fn next_header(v: DownloadView) -> (DownloadView, Seq<Action>) {
    let round = v.round->0;
    if round.queue.len() > 0 {
        (
            DownloadView { round: Some(RoundView { queue: round.queue.skip(1), ..round }), ..v },
            seq![Action::AddHeader(round.queue[0])],
        )
    } else {
        (v, seq![Action::CommitHeaders])
    }
}

/// The headers with these hashes.
pub open spec fn headers_of(
    headers: Map<Hash256, StoredHeader>,
    hashes: Seq<Hash256>,
) -> Seq<BlockHeader> {
    Seq::new(hashes.len(), |i: int| headers[hashes[i]].header)
}

/// Whether an outcome is one that a chain with these headers can give: all
/// that left the trunk are known, and some hash joined a trunk that moved.
pub open spec fn possible_outcome(
    headers: Map<Hash256, StoredHeader>,
    outcome: AddOutcome,
) -> bool {
    match outcome {
        AddOutcome::Added { unwinds, forwards, .. } => {
            &&& unwinds matches Some(hashes) ==> forall|i: int|
                0 <= i < hashes@.len() ==> headers.contains_key(#[trigger] hashes@[i])
            &&& forwards matches Some(hashes) ==> hashes@.len() > 0
        },
        _ => true,
    }
}

/// A header was handed to the chain. A header that moved the trunk to another
/// branch ends the batch; else the next one follows. A header without its
/// proof of work gets its sender banned.
pub open spec fn after_add(
    v: DownloadView,
    headers: Map<Hash256, StoredHeader>,
    outcome: AddOutcome,
) -> (DownloadView, Seq<Action>) {
    let round = v.round->0;
    match outcome {
        AddOutcome::Added { header, height, unwinds, forwards } => {
            let added = RoundView {
                connected: round.connected.push((height, header)),
                some_new: true,
                moved_tip: match forwards {
                    Some(hashes) => Some(hashes@.last()),
                    None => round.moved_tip,
                },
                height,
                disconnected: match unwinds {
                    Some(hashes) => round.disconnected + headers_of(headers, hashes@),
                    None => round.disconnected,
                },
                ..round
            };
            let v = DownloadView { round: Some(added), ..v };
            match unwinds {
                Some(_) => (v, seq![Action::CommitHeaders]),
                None => next_header(v),
            }
        },
        AddOutcome::BadProofOfWork => {
            let next = next_header(v);
            let ban = Action::Ban { peer: round.peer, score: BAD_WORK_SCORE };
            (next.0, seq![ban] + next.1)
        },
        _ => next_header(v),
    }
}

/// The hashes of connected headers.
pub open spec fn connected_hashes(connected: Seq<(u32, BlockHeader)>) -> Seq<Hash256> {
    Seq::new(connected.len(), |i: int| header_hash(connected[i].1))
}

/// The blocks to ask for because their headers were connected, in order:
/// those made after `birth`.
pub open spec fn newly_wanted(
    connected: Seq<(u32, BlockHeader)>,
    hashes: Seq<Hash256>,
    birth: u64,
) -> Seq<(Hash256, u32)>
    decreases connected.len(),
{
    if connected.len() == 0 {
        Seq::empty()
    } else {
        let before = newly_wanted(connected.drop_last(), hashes.drop_last(), birth);
        if connected.last().1.time > birth {
            before.push((hashes.last(), connected.last().0))
        } else {
            before
        }
    }
}

/// What the wallet is told of connected headers made after `birth`.
pub open spec fn tell_connected(connected: Seq<(u32, BlockHeader)>, birth: u64) -> Seq<Action>
    decreases connected.len(),
{
    if connected.len() == 0 {
        Seq::empty()
    } else {
        let before = tell_connected(connected.drop_last(), birth);
        let (height, header) = connected.last();
        if header.time > birth {
            before.push(Action::HeaderConnected { header, height })
        } else {
            before
        }
    }
}

/// What the wallet is told of disconnected headers made after `birth`.
pub open spec fn tell_disconnected(disconnected: Seq<BlockHeader>, birth: u64) -> Seq<Action>
    decreases disconnected.len(),
{
    if disconnected.len() == 0 {
        Seq::empty()
    } else {
        let before = tell_disconnected(disconnected.drop_last(), birth);
        if disconnected.last().time > birth {
            before.push(Action::BlockDisconnected(disconnected.last()))
        } else {
            before
        }
    }
}

/// A sequence without its last `n` elements, or empty if it has no more.
pub open spec fn without_last<T>(s: Seq<T>, n: nat) -> Seq<T> {
    if n <= s.len() {
        s.take(s.len() - n)
    } else {
        Seq::empty()
    }
}

/// The added headers were made permanent, where `hashes` are the hashes of
/// those that were connected. For each disconnected header made after
/// `birth` the last wanted block is given up; each connected one adds a
/// wanted block. The wallet is told; then the rest of the headers follow. At
/// the end the peer is asked for more if it sent something new, and the
/// height is reported if the tip moved.
pub open spec fn after_commit(v: DownloadView, hashes: Seq<Hash256>) -> (DownloadView, Seq<Action>) {
    let round = v.round->0;
    let gone = tell_disconnected(round.disconnected, v.birth);
    let told = gone + tell_connected(round.connected, v.birth);
    let wanted = without_last(v.wanted, gone.len()) + newly_wanted(
        round.connected,
        hashes,
        v.birth,
    );
    if round.queue.len() > 0 {
        let rest = RoundView {
            queue: round.queue.skip(1),
            connected: Seq::empty(),
            disconnected: Seq::empty(),
            ..round
        };
        (
            DownloadView { wanted, round: Some(rest), ..v },
            told.push(Action::AddHeader(round.queue[0])),
        )
    } else {
        let more = if round.some_new {
            seq![Action::GetHeaders(round.peer)]
        } else {
            Seq::empty()
        };
        let height = if round.moved_tip is Some {
            seq![Action::Height(round.height)]
        } else {
            Seq::empty()
        };
        (DownloadView { wanted, round: None, ..v }, told + more + height)
    }
}

/// The number of wanted blocks that the next request takes up.
pub open spec fn request_size(wanted: Seq<(Hash256, u32)>) -> nat {
    if wanted.len() < MAX_BLOCKS_PER_REQUEST {
        wanted.len()
    } else {
        MAX_BLOCKS_PER_REQUEST as nat
    }
}

/// The peer is asked for blocks, unless it owes some: the oldest wanted
/// blocks join those asked for.
pub open spec fn after_ask(v: DownloadView, busy: bool) -> DownloadView {
    if busy {
        v
    } else {
        let n = request_size(v.wanted) as int;
        DownloadView { asked: v.asked + v.wanted.take(n), wanted: v.wanted.skip(n), ..v }
    }
}

/// The hashes of blocks that are asked for.
pub open spec fn hashes_of(blocks: Seq<(Hash256, u32)>) -> Seq<Hash256> {
    Seq::new(blocks.len(), |i: int| blocks[i].0)
}

} // verus!
