//! Download of the blocks of the header chain.
use murmel::chaindb::ChainDB;
use std::collections::VecDeque;
use vstd::prelude::*;

use crate::chain::{
    chain_headers, chain_trunk, get_header, header_locators, is_locator, law_one_locator, tip_hash,
    trunk_hash, MAX_LOCATABLE,
};
use crate::digest::{bitcoin_hash, header_hash};
use crate::transition::{
    after_add, after_ask, after_block, after_commit, after_connected, after_disconnected,
    after_headers, after_message, announces_new_block, connected_hashes, hashes_of, headers_of,
    newly_wanted, possible_outcome, request_size, serves_blocks, tell_connected,
    tell_disconnected, tip_height, without_last, Action, AddOutcome, Reply, BAD_WORK_SCORE,
    MAX_BLOCKS_PER_REQUEST, SERVICE_BLOCKS,
};
use crate::types::{
    Block, BlockHeader, Hash256, InvType, Inventory, NetworkMessage, PeerId, PeerMessage,
    StoredHeader,
};
use crate::walk::{
    leads_to, lemma_leads_nowhere, lemma_leads_on, lemma_leads_within, lemma_walk_circles,
    lemma_walk_lost, lemma_walk_stays, lemma_wanted_within, walk_back, wanted_at_start,
    wanted_within,
};

verus! {

/// The blocks that the node still needs, and the work in progress on a batch
/// of received headers.
#[derive(Debug)]
pub struct BlockDownload {
    /// Blocks to ask for, with their heights, oldest first.
    pub blocks_wanted: VecDeque<(Hash256, u32)>,
    /// Blocks asked for and not yet received, with their heights.
    pub blocks_asked: VecDeque<(Hash256, u32)>,
    /// The peer that blocks are asked of.
    pub block_download_peer: Option<PeerId>,
    /// Blocks made earlier are of no interest, in seconds of Unix time.
    pub birth: u64,
    /// The received headers that are being added to the chain.
    pub round: Option<HeadersRound>,
}

/// Received headers on their way into the chain.
#[derive(Debug)]
pub struct HeadersRound {
    /// The peer that sent them.
    pub peer: PeerId,
    /// Those not yet handed to the chain.
    pub queue: VecDeque<BlockHeader>,
    /// The height of the last header that was added, at first of the tip.
    pub height: u32,
    /// Whether some were not yet known.
    pub some_new: bool,
    /// The last tip that the chain moved to.
    pub moved_tip: Option<Hash256>,
    /// Headers added since the last commit, with their heights.
    pub connected: Vec<(u32, BlockHeader)>,
    /// Headers that left the trunk since the last commit.
    pub disconnected: Vec<BlockHeader>,
}

/// What a [`BlockDownload`] holds.
pub struct DownloadView {
    pub wanted: Seq<(Hash256, u32)>,
    pub asked: Seq<(Hash256, u32)>,
    pub peer: Option<PeerId>,
    pub birth: u64,
    pub round: Option<RoundView>,
}

/// What a [`HeadersRound`] holds.
pub struct RoundView {
    pub peer: PeerId,
    pub queue: Seq<BlockHeader>,
    pub height: u32,
    pub some_new: bool,
    pub moved_tip: Option<Hash256>,
    pub connected: Seq<(u32, BlockHeader)>,
    pub disconnected: Seq<BlockHeader>,
}

impl View for HeadersRound {
    type V = RoundView;

    open spec fn view(&self) -> RoundView {
        RoundView {
            peer: self.peer,
            queue: self.queue@,
            height: self.height,
            some_new: self.some_new,
            moved_tip: self.moved_tip,
            connected: self.connected@,
            disconnected: self.disconnected@,
        }
    }
}

impl View for BlockDownload {
    type V = DownloadView;

    open spec fn view(&self) -> DownloadView {
        DownloadView {
            wanted: self.blocks_wanted@,
            asked: self.blocks_asked@,
            peer: self.block_download_peer,
            birth: self.birth,
            round: match self.round {
                Some(round) => Some(round@),
                None => None,
            },
        }
    }
}

impl BlockDownload {
    /// Starts the download of the blocks of the chain, from the one after the
    /// processed block to the tip, without those made before `birth`.
    pub fn new(chaindb: &ChainDB, processed_block: Option<Hash256>, birth: u64) -> (r: BlockDownload)
        requires
            wanted_at_start(
                chain_headers(*chaindb),
                chain_trunk(*chaindb),
                processed_block,
                birth,
            ) is Some,
        ensures
            r@ == (DownloadView {
                wanted: wanted_at_start(
                    chain_headers(*chaindb),
                    chain_trunk(*chaindb),
                    processed_block,
                    birth,
                )->0,
                asked: Seq::empty(),
                peer: None,
                birth,
                round: None,
            }),
    {
        BlockDownload::try_new(chaindb, processed_block, birth).unwrap()
    }

    /// As [`BlockDownload::new`], where the chain is found to reach the end of
    /// the walk; else nothing: it breaks off before, or never gets there.
    pub fn try_new(
        chaindb: &ChainDB,
        processed_block: Option<Hash256>,
        birth: u64,
    ) -> (r: Option<BlockDownload>)
        ensures
            r is Some <==> wanted_at_start(
                chain_headers(*chaindb),
                chain_trunk(*chaindb),
                processed_block,
                birth,
            ) is Some,
            r matches Some(download) ==> download@ == (DownloadView {
                wanted: wanted_at_start(
                    chain_headers(*chaindb),
                    chain_trunk(*chaindb),
                    processed_block,
                    birth,
                )->0,
                asked: Seq::empty(),
                peer: None,
                birth,
                round: None,
            }),
    {
        let ghost headers = chain_headers(*chaindb);
        let ghost trunk = chain_trunk(*chaindb);
        let mut blocks_wanted: VecDeque<(Hash256, u32)> = VecDeque::new();
        let mut walked = false;
        if let Some(tip) = tip_hash(chaindb) {
            let h = get_header(chaindb, &tip).unwrap();
            if h.header.time as u64 > birth {
                let stop_at = match processed_block {
                    Some(hash) => hash,
                    None => Hash256::zero(),
                };
                match walk_chain(chaindb, tip, h, stop_at, birth) {
                    Some(blocks) => {
                        proof {
                            let fuel = choose|fuel: nat| #[trigger]
                                walk_back(headers, tip, h, stop_at, birth, fuel) == Some(blocks@);
                            assert(wanted_within(headers, trunk, processed_block, birth, fuel)
                                == Some(blocks@));
                            lemma_wanted_within(headers, trunk, processed_block, birth, fuel);
                        }
                        blocks_wanted = blocks;
                        walked = true;
                    },
                    None => {
                        assert forall|fuel: nat| #[trigger]
                            wanted_within(
                                headers,
                                trunk,
                                processed_block,
                                birth,
                                fuel,
                            ) is None by {
                            assert(walk_back(headers, tip, h, stop_at, birth, fuel) is None);
                        }
                        return None;
                    },
                }
            }
        }
        proof {
            if !walked {
                assert(wanted_within(headers, trunk, processed_block, birth, 0) == Some(
                    Seq::<(Hash256, u32)>::empty(),
                ));
                lemma_wanted_within(headers, trunk, processed_block, birth, 0);
            }
        }
        Some(
            BlockDownload {
                blocks_wanted,
                blocks_asked: VecDeque::new(),
                block_download_peer: None,
                birth,
                round: None,
            },
        )
    }
}

/// A request for the blocks that are asked for.
#[derive(Debug, PartialEq, Eq)]
pub struct BlockRequest {
    pub peer: PeerId,
    pub hashes: Vec<Hash256>,
    /// The number of blocks that the peer owes for this request.
    pub expected: usize,
}

/// A request for the headers that a peer is ahead by.
#[derive(Debug, PartialEq, Eq)]
pub struct HeadersRequest {
    pub peer: PeerId,
    pub locator: Vec<Hash256>,
    pub stop: Hash256,
    /// The number of replies that the peer owes for this request.
    pub expected: usize,
}

/// The trunk of the chain has too many hashes for a locator to be computed.
#[derive(Debug, PartialEq, Eq)]
pub struct TrunkTooLong {}

impl BlockDownload {
    /// Does what a message of the network layer calls for, where `services`
    /// are those that the peer has announced.
    pub fn run(
        &mut self,
        chaindb: &ChainDB,
        message: PeerMessage,
        services: Option<u64>,
    ) -> (r: Vec<Action>)
        requires
            old(self).round is None,
        ensures
            (final(self)@, r@) == after_message(
                old(self)@,
                chain_headers(*chaindb),
                chain_trunk(*chaindb),
                message,
                services,
            ),
    {
        match message {
            PeerMessage::Connected(peer) => self.connected(peer, services),
            PeerMessage::Disconnected(peer) => {
                self.disconnected(peer);
                Vec::new()
            },
            PeerMessage::Incoming(peer, message) => {
                let mut actions: Vec<Action> = match message {
                    NetworkMessage::Headers(headers) => {
                        if BlockDownload::is_serving_blocks(services) {
                            self.headers(chaindb, headers, peer)
                        } else {
                            Vec::new()
                        }
                    },
                    NetworkMessage::Inv(inventory) => {
                        if BlockDownload::is_serving_blocks(services) {
                            BlockDownload::inv(chaindb, &inventory, peer)
                        } else {
                            Vec::new()
                        }
                    },
                    NetworkMessage::Block(block) => self.block(block, peer),
                    _ => Vec::new(),
                };
                if self.block_download_peer.is_none() {
                    self.block_download_peer = Some(peer);
                }
                if self.block_download_peer == Some(peer) {
                    actions.push(Action::AskBlocks(peer));
                }
                actions
            },
            PeerMessage::Outgoing(_) => Vec::new(),
        }
    }

    /// A new peer: see [`after_connected`].
    pub fn connected(&mut self, peer: PeerId, services: Option<u64>) -> (r: Vec<Action>)
        ensures
            (final(self)@, r@) == after_connected(old(self)@, peer, services),
    {
        let mut actions: Vec<Action> = Vec::new();
        if BlockDownload::is_serving_blocks(services) {
            actions.push(Action::GetHeaders(peer));
            if self.block_download_peer.is_none() {
                self.block_download_peer = Some(peer);
            }
        }
        assert(actions@ =~= after_connected(old(self)@, peer, services).1);
        actions
    }

    /// A peer is gone: see [`after_disconnected`].
    pub fn disconnected(&mut self, peer: PeerId)
        ensures
            final(self)@ == after_disconnected(old(self)@, peer),
    {
        if self.block_download_peer == Some(peer) {
            self.block_download_peer = None;
            let ghost pending = self.blocks_asked@ + self.blocks_wanted@;
            while self.blocks_asked.len() > 0
                invariant
                    self.blocks_asked@ + self.blocks_wanted@ == pending,
                    self.block_download_peer is None,
                    self.birth == old(self).birth,
                    self.round == old(self).round,
                decreases self.blocks_asked@.len(),
            {
                if let Some(asked) = self.blocks_asked.pop_back() {
                    self.blocks_wanted.push_front(asked);
                }
                assert(self.blocks_asked@ + self.blocks_wanted@ =~= pending);
            }
            assert(self.blocks_asked@ =~= Seq::empty());
            assert(self.blocks_wanted@ =~= pending);
        }
    }

    /// A received block: see [`after_block`].
    pub fn block(&mut self, block: Block, peer: PeerId) -> (r: Vec<Action>)
        ensures
            (final(self)@, r@) == after_block(
                old(self)@,
                header_hash(block.header),
                block,
                peer,
            ),
    {
        let hash = bitcoin_hash(&block.header);
        self.connect_block(hash, block, peer)
    }

    /// A received block with this hash: see [`after_block`].
    pub fn connect_block(&mut self, hash: Hash256, block: Block, peer: PeerId) -> (r: Vec<Action>)
        ensures
            (final(self)@, r@) == after_block(old(self)@, hash, block, peer),
    {
        let mut actions: Vec<Action> = Vec::new();
        if self.block_download_peer == Some(peer) && self.blocks_asked.len() > 0 {
            let (expected, height) = self.blocks_asked[0];
            if hash == expected {
                actions.push(Action::Received { peer, count: 1, reply: Reply::Block });
                let _ = self.blocks_asked.pop_front();
                actions.push(Action::BlockConnected { block, height });
            }
        }
        assert(actions@ =~= after_block(old(self)@, hash, block, peer).1);
        assert(self@.asked =~= after_block(old(self)@, hash, block, peer).0.asked);
        actions
    }

    /// An inventory: the peer is asked for headers if it announces a block
    /// that the chain does not know.
    pub fn inv(chaindb: &ChainDB, inventory: &Vec<Inventory>, peer: PeerId) -> (r: Vec<Action>)
        ensures
            r@ == (if announces_new_block(chain_headers(*chaindb), inventory@) {
                seq![Action::GetHeaders(peer)]
            } else {
                Seq::empty()
            }),
    {
        let ghost headers = chain_headers(*chaindb);
        let mut ask_for_headers = false;
        let mut i: usize = 0;
        while i < inventory.len()
            invariant
                i <= inventory.len(),
                headers == chain_headers(*chaindb),
                ask_for_headers == announces_new_block(headers, inventory@.take(i as int)),
            decreases inventory.len() - i,
        {
            let ghost before = inventory@.take(i as int);
            let ghost after = inventory@.take(i + 1);
            if inventory[i].inv_type == InvType::Block && get_header(
                chaindb,
                &inventory[i].hash,
            ).is_none() {
                assert(after[i as int] == inventory@[i as int]);
                ask_for_headers = true;
            } else {
                assert forall|j: int|
                    0 <= j < after.len() && (#[trigger] after[j]).inv_type == InvType::Block
                        && !headers.contains_key(after[j].hash) implies before[j] == after[j] && j
                    < before.len() by {}
            }
            proof {
                if announces_new_block(headers, before) {
                    let j = choose|j: int|
                        0 <= j < before.len() && (#[trigger] before[j]).inv_type == InvType::Block
                            && !headers.contains_key(before[j].hash);
                    assert(after[j] == before[j]);
                }
            }
            i = i + 1;
        }
        assert(inventory@.take(i as int) =~= inventory@);
        let mut actions: Vec<Action> = Vec::new();
        if ask_for_headers {
            actions.push(Action::GetHeaders(peer));
        }
        assert(actions@ =~= if ask_for_headers {
            seq![Action::GetHeaders(peer)]
        } else {
            Seq::empty()
        });
        actions
    }

    /// Received headers: see [`after_headers`].
    pub fn headers(
        &mut self,
        chaindb: &ChainDB,
        headers: Vec<BlockHeader>,
        peer: PeerId,
    ) -> (r: Vec<Action>)
        requires
            old(self).round is None,
        ensures
            (final(self)@, r@) == after_headers(
                old(self)@,
                headers@,
                tip_height(chain_headers(*chaindb), chain_trunk(*chaindb)),
                peer,
            ),
    {
        let tip = match tip_hash(chaindb) {
            Some(hash) => match get_header(chaindb, &hash) {
                Some(stored) => Some(stored.height),
                None => None,
            },
            None => None,
        };
        self.start_round(headers, tip, peer)
    }

    /// Received headers, where the tip of the chain has the given height: see
    /// [`after_headers`].
    pub fn start_round(
        &mut self,
        headers: Vec<BlockHeader>,
        tip: Option<u32>,
        peer: PeerId,
    ) -> (r: Vec<Action>)
        requires
            old(self).round is None,
        ensures
            (final(self)@, r@) == after_headers(old(self)@, headers@, tip, peer),
    {
        let mut actions: Vec<Action> = Vec::new();
        actions.push(Action::Received { peer, count: 1, reply: Reply::Headers });
        if let Some(height) = tip {
            if headers.len() > 0 {
                let mut queue: VecDeque<BlockHeader> = VecDeque::new();
                let mut i: usize = 1;
                while i < headers.len()
                    invariant
                        1 <= i <= headers.len(),
                        queue@ == headers@.subrange(1, i as int),
                    decreases headers.len() - i,
                {
                    queue.push_back(headers[i]);
                    i = i + 1;
                    assert(queue@ =~= headers@.subrange(1, i as int));
                }
                assert(queue@ =~= headers@.skip(1));
                actions.push(Action::AddHeader(headers[0]));
                self.round =
                Some(
                    HeadersRound {
                        peer,
                        queue,
                        height,
                        some_new: false,
                        moved_tip: None,
                        connected: Vec::new(),
                        disconnected: Vec::new(),
                    },
                );
            }
        }
        assert(actions@ =~= after_headers(old(self)@, headers@, tip, peer).1);
        actions
    }

    /// A header was handed to the chain, and this came of it: see
    /// [`after_add`].
    pub fn header_added(&mut self, chaindb: &ChainDB, outcome: AddOutcome) -> (r: Vec<Action>)
        requires
            old(self).round is Some,
            possible_outcome(chain_headers(*chaindb), outcome),
        ensures
            (final(self)@, r@) == after_add(old(self)@, chain_headers(*chaindb), outcome),
    {
        let ghost headers = chain_headers(*chaindb);
        let mut actions: Vec<Action> = Vec::new();
        match self.round.take() {
            None => {},
            Some(mut round) => {
                let ghost before = round@;
                let mut end_of_batch = false;
                match &outcome {
                    AddOutcome::Added { header, height, unwinds, forwards } => {
                        round.connected.push((*height, *header));
                        round.some_new = true;
                        if let Some(hashes) = forwards {
                            round.moved_tip = Some(hashes[hashes.len() - 1]);
                        }
                        round.height = *height;
                        if let Some(hashes) = unwinds {
                            let ghost moved_tip = round.moved_tip;
                            let mut i: usize = 0;
                            while i < hashes.len()
                                invariant
                                    i <= hashes.len(),
                                    headers == chain_headers(*chaindb),
                                    forall|j: int|
                                        0 <= j < hashes@.len() ==> headers.contains_key(
                                            #[trigger] hashes@[j],
                                        ),
                                    round@ == (RoundView {
                                        connected: before.connected.push((*height, *header)),
                                        some_new: true,
                                        moved_tip,
                                        height: *height,
                                        disconnected: before.disconnected + headers_of(
                                            headers,
                                            hashes@.take(i as int),
                                        ),
                                        ..before
                                    }),
                                decreases hashes.len() - i,
                            {
                                round.disconnected.push(
                                    get_header(chaindb, &hashes[i]).unwrap().header,
                                );
                                i = i + 1;
                                assert(round.disconnected@ =~= before.disconnected + headers_of(
                                    headers,
                                    hashes@.take(i as int),
                                ));
                            }
                            assert(hashes@.take(i as int) =~= hashes@);
                            end_of_batch = true;
                        }
                    },
                    AddOutcome::BadProofOfWork => {
                        actions.push(Action::Ban { peer: round.peer, score: BAD_WORK_SCORE });
                    },
                    _ => {},
                }
                if end_of_batch {
                    actions.push(Action::CommitHeaders);
                } else {
                    match round.queue.pop_front() {
                        Some(header) => {
                            actions.push(Action::AddHeader(header));
                        },
                        None => {
                            actions.push(Action::CommitHeaders);
                        },
                    }
                }
                self.round = Some(round);
            },
        }
        assert(actions@ =~= after_add(old(self)@, headers, outcome).1);
        assert(self@.round->0.queue =~= after_add(old(self)@, headers, outcome).0.round->0.queue);
        actions
    }

    /// As [`BlockDownload::header_added`], where the outcome is found to be
    /// one that the chain can give; else nothing, and nothing changes.
    pub fn try_header_added(
        &mut self,
        chaindb: &ChainDB,
        outcome: AddOutcome,
    ) -> (r: Option<Vec<Action>>)
        requires
            old(self).round is Some,
        ensures
            r is Some <==> possible_outcome(chain_headers(*chaindb), outcome),
            match r {
                Some(actions) => (final(self)@, actions@) == after_add(
                    old(self)@,
                    chain_headers(*chaindb),
                    outcome,
                ),
                None => *final(self) == *old(self),
            },
    {
        if let AddOutcome::Added { unwinds, forwards, .. } = &outcome {
            if let Some(hashes) = forwards {
                if hashes.len() == 0 {
                    return None;
                }
            }
            if let Some(hashes) = unwinds {
                let mut i: usize = 0;
                while i < hashes.len()
                    invariant
                        i <= hashes.len(),
                        outcome is Added,
                        outcome->unwinds == Some(*hashes),
                        *self == *old(self),
                        forall|j: int|
                            0 <= j < i ==> chain_headers(*chaindb).contains_key(
                                #[trigger] hashes@[j],
                            ),
                    decreases hashes.len() - i,
                {
                    if get_header(chaindb, &hashes[i]).is_none() {
                        proof {
                            let unwound = (outcome->unwinds)->0@;
                            assert(!chain_headers(*chaindb).contains_key(unwound[i as int]));
                            assert(!possible_outcome(chain_headers(*chaindb), outcome));
                        }
                        return None;
                    }
                    i = i + 1;
                }
            }
        }
        Some(self.header_added(chaindb, outcome))
    }

    /// The added headers were made permanent: see [`after_commit`].
    pub fn batch_committed(&mut self) -> (r: Vec<Action>)
        requires
            old(self).round is Some,
        ensures
            (final(self)@, r@) == after_commit(
                old(self)@,
                connected_hashes((old(self)@.round->0).connected),
            ),
    {
        let mut hashes: Vec<Hash256> = Vec::new();
        if let Some(round) = &self.round {
            let mut i: usize = 0;
            while i < round.connected.len()
                invariant
                    i <= round.connected.len(),
                    hashes@.len() == i,
                    forall|j: int|
                        0 <= j < i ==> hashes@[j] == header_hash(
                            #[trigger] round.connected@[j].1,
                        ),
                decreases round.connected.len() - i,
            {
                hashes.push(bitcoin_hash(&round.connected[i].1));
                i = i + 1;
            }
        }
        assert(hashes@ =~= connected_hashes((old(self)@.round->0).connected));
        self.finish_batch(&hashes)
    }

    /// The added headers were made permanent, where `hashes` are the hashes
    /// of those that were connected: see [`after_commit`].
    pub fn finish_batch(&mut self, hashes: &Vec<Hash256>) -> (r: Vec<Action>)
        requires
            old(self).round is Some,
            hashes@.len() == old(self).round->0.connected@.len(),
        ensures
            (final(self)@, r@) == after_commit(old(self)@, hashes@),
    {
        let mut actions: Vec<Action> = Vec::new();
        match self.round.take() {
            None => {},
            Some(mut round) => {
                let ghost before = round@;
                let ghost wanted = self.blocks_wanted@;
                let ghost gone = tell_disconnected(before.disconnected, self.birth);
                let mut i: usize = 0;
                while i < round.disconnected.len()
                    invariant
                        i <= round.disconnected.len(),
                        round@ == before,
                        actions@ == tell_disconnected(
                            before.disconnected.take(i as int),
                            self.birth,
                        ),
                        self.blocks_wanted@ == without_last(wanted, actions@.len()),
                        self.blocks_asked == old(self).blocks_asked,
                        self.block_download_peer == old(self).block_download_peer,
                        self.birth == old(self).birth,
                        self.round is None,
                    decreases round.disconnected.len() - i,
                {
                    let header = round.disconnected[i];
                    let ghost taken = before.disconnected.take(i + 1);
                    assert(taken.drop_last() =~= before.disconnected.take(i as int));
                    assert(taken.last() == header);
                    if header.time as u64 > self.birth {
                        let _ = self.blocks_wanted.pop_back();
                        actions.push(Action::BlockDisconnected(header));
                        assert(self.blocks_wanted@ =~= without_last(wanted, actions@.len()));
                    }
                    i = i + 1;
                }
                assert(before.disconnected.take(i as int) =~= before.disconnected);
                assert(actions@ == gone);
                let ghost kept = self.blocks_wanted@;
                let mut k: usize = 0;
                while k < round.connected.len()
                    invariant
                        k <= round.connected.len(),
                        round@ == before,
                        hashes@.len() == before.connected.len(),
                        actions@ == gone + tell_connected(
                            before.connected.take(k as int),
                            self.birth,
                        ),
                        self.blocks_wanted@ == kept + newly_wanted(
                            before.connected.take(k as int),
                            hashes@.take(k as int),
                            self.birth,
                        ),
                        self.blocks_asked == old(self).blocks_asked,
                        self.block_download_peer == old(self).block_download_peer,
                        self.birth == old(self).birth,
                        self.round is None,
                    decreases round.connected.len() - k,
                {
                    let (height, header) = round.connected[k];
                    let ghost taken = before.connected.take(k + 1);
                    let ghost hashed = hashes@.take(k + 1);
                    assert(taken.drop_last() =~= before.connected.take(k as int));
                    assert(hashed.drop_last() =~= hashes@.take(k as int));
                    assert(taken.last() == (height, header));
                    assert(hashed.last() == hashes@[k as int]);
                    if header.time as u64 > self.birth {
                        self.blocks_wanted.push_back((hashes[k], height));
                        actions.push(Action::HeaderConnected { header, height });
                        assert(self.blocks_wanted@ =~= kept + newly_wanted(
                            taken,
                            hashed,
                            self.birth,
                        ));
                        assert(actions@ =~= gone + tell_connected(taken, self.birth));
                    }
                    k = k + 1;
                }
                assert(before.connected.take(k as int) =~= before.connected);
                assert(hashes@.take(k as int) =~= hashes@);
                match round.queue.pop_front() {
                    Some(header) => {
                        actions.push(Action::AddHeader(header));
                        round.connected = Vec::new();
                        round.disconnected = Vec::new();
                        self.round = Some(round);
                    },
                    None => {
                        if round.some_new {
                            actions.push(Action::GetHeaders(round.peer));
                        }
                        if round.moved_tip.is_some() {
                            actions.push(Action::Height(round.height));
                        }
                    },
                }
            },
        }
        assert(actions@ =~= after_commit(old(self)@, hashes@).1);
        assert(self@.round is Some ==> self@.round->0.queue =~= old(self)@.round->0.queue.skip(1));
        actions
    }

    /// The request for blocks to send to the peer, where `busy` tells whether
    /// it still owes some: see [`after_ask`]. It names all that are asked
    /// for, also those of earlier requests.
    pub fn ask_blocks(&mut self, peer: PeerId, busy: bool) -> (r: Option<BlockRequest>)
        ensures
            final(self)@ == after_ask(old(self)@, busy),
            r is Some <==> !busy && final(self)@.asked.len() > 0,
            r matches Some(request) ==> {
                &&& request.peer == peer
                &&& request.hashes@ == hashes_of(final(self)@.asked)
                &&& request.hashes@.len() == final(self)@.asked.len()
                &&& forall|i: int|
                    0 <= i < request.hashes@.len() ==> #[trigger] request.hashes@[i]
                        == final(self)@.asked[i].0
                &&& request.expected == final(self)@.asked.len()
            },
    {
        if busy {
            return None;
        }
        let ghost asked = self.blocks_asked@;
        let ghost wanted = self.blocks_wanted@;
        let mut n_entries: usize = 0;
        while n_entries < MAX_BLOCKS_PER_REQUEST && self.blocks_wanted.len() > 0
            invariant
                n_entries <= MAX_BLOCKS_PER_REQUEST,
                n_entries <= wanted.len(),
                self.blocks_asked@ == asked + wanted.take(n_entries as int),
                self.blocks_wanted@ == wanted.skip(n_entries as int),
                self.block_download_peer == old(self).block_download_peer,
                self.birth == old(self).birth,
                self.round == old(self).round,
            decreases MAX_BLOCKS_PER_REQUEST - n_entries,
        {
            if let Some(entry) = self.blocks_wanted.pop_front() {
                self.blocks_asked.push_back(entry);
            }
            n_entries = n_entries + 1;
            assert(self.blocks_asked@ =~= asked + wanted.take(n_entries as int));
            assert(self.blocks_wanted@ =~= wanted.skip(n_entries as int));
        }
        assert(n_entries == request_size(wanted));
        if self.blocks_asked.len() == 0 {
            return None;
        }
        let mut hashes: Vec<Hash256> = Vec::new();
        let mut i: usize = 0;
        while i < self.blocks_asked.len()
            invariant
                i <= self.blocks_asked@.len(),
                hashes@ == hashes_of(self.blocks_asked@.take(i as int)),
            decreases self.blocks_asked@.len() - i,
        {
            hashes.push(self.blocks_asked[i].0);
            i = i + 1;
            assert(hashes@ =~= hashes_of(self.blocks_asked@.take(i as int)));
        }
        assert(self.blocks_asked@.take(i as int) =~= self.blocks_asked@);
        Some(BlockRequest { peer, hashes, expected: self.blocks_asked.len() })
    }

    /// The request for the headers that the peer is ahead by, where `busy`
    /// tells whether it still owes headers.
    pub fn get_headers(
        chaindb: &ChainDB,
        peer: PeerId,
        busy: bool,
    ) -> (r: Option<HeadersRequest>)
        requires
            busy || chain_trunk(*chaindb).len() <= MAX_LOCATABLE,
        ensures
            r is Some <==> !busy && chain_trunk(*chaindb).len() > 0,
            r matches Some(request) ==> {
                &&& request.peer == peer
                &&& is_locator(chain_trunk(*chaindb), request.locator@)
                &&& request.stop == chain_trunk(*chaindb).last()
                &&& request.expected == 1
            },
    {
        if busy {
            return None;
        }
        let locator = header_locators(chaindb);
        proof {
            law_one_locator(chain_trunk(*chaindb), locator@, locator@);
        }
        BlockDownload::request_headers(locator, peer)
    }

    /// As [`BlockDownload::get_headers`], where the trunk is found short
    /// enough for a locator; else an error.
    pub fn try_get_headers(
        chaindb: &ChainDB,
        peer: PeerId,
        busy: bool,
    ) -> (r: Result<Option<HeadersRequest>, TrunkTooLong>)
        ensures
            r is Ok <==> busy || chain_trunk(*chaindb).len() <= MAX_LOCATABLE,
            r matches Ok(made) ==> {
                &&& made is Some <==> !busy && chain_trunk(*chaindb).len() > 0
                &&& made matches Some(request) ==> {
                    &&& request.peer == peer
                    &&& is_locator(chain_trunk(*chaindb), request.locator@)
                    &&& request.stop == chain_trunk(*chaindb).last()
                    &&& request.expected == 1
                }
            },
    {
        if !busy && trunk_hash(chaindb, MAX_LOCATABLE).is_some() {
            return Err(TrunkTooLong {  });
        }
        Ok(BlockDownload::get_headers(chaindb, peer, busy))
    }

    /// The request for headers with this locator, unless it is empty: up to
    /// its first hash.
    pub fn request_headers(locator: Vec<Hash256>, peer: PeerId) -> (r: Option<HeadersRequest>)
        ensures
            match r {
                Some(request) => {
                    &&& locator@.len() > 0
                    &&& request.peer == peer
                    &&& request.locator == locator
                    &&& request.stop == locator@[0]
                    &&& request.expected == 1
                },
                None => locator@.len() == 0,
            },
    {
        if locator.len() == 0 {
            return None;
        }
        let stop = locator[0];
        Some(HeadersRequest { peer, locator, stop, expected: 1 })
    }

    /// Whether a peer that announced these services serves blocks.
    pub fn is_serving_blocks(services: Option<u64>) -> (r: bool)
        ensures
            r == serves_blocks(services),
    {
        match services {
            Some(bits) => bits & SERVICE_BLOCKS != 0,
            None => false,
        }
    }
}

/// The blocks from a hash back to where the walk ends, oldest first. Nothing
/// where the chain breaks off, or where the walk comes back to a block that it
/// has passed: every so often the block passed is remembered, each time after
/// twice as many steps.
fn walk_chain(
    chaindb: &ChainDB,
    hash: Hash256,
    at: StoredHeader,
    stop_at: Hash256,
    birth: u64,
) -> (r: Option<VecDeque<(Hash256, u32)>>)
    requires
        chain_headers(*chaindb).contains_key(hash),
        chain_headers(*chaindb)[hash] == at,
    ensures
        match r {
            Some(blocks) => exists|fuel: nat| #[trigger]
                walk_back(chain_headers(*chaindb), hash, at, stop_at, birth, fuel) == Some(
                    blocks@,
                ),
            None => forall|fuel: nat| #[trigger]
                walk_back(chain_headers(*chaindb), hash, at, stop_at, birth, fuel) is None,
        },
{
    let ghost headers = chain_headers(*chaindb);
    let mut blocks: VecDeque<(Hash256, u32)> = VecDeque::new();
    let mut block_hash = hash;
    let mut h = at;
    let mut mark = hash;
    let mut since_mark: usize = 0;
    let mut lap: usize = 1;
    let ghost mut steps: nat = 0;
    let ghost mut passed: Seq<(Hash256, u32)> = Seq::empty();
    proof {
        lemma_leads_nowhere(headers, hash, stop_at, birth);
    }
    while block_hash != stop_at
        invariant
            headers == chain_headers(*chaindb),
            headers[hash] == at,
            headers.contains_key(block_hash),
            headers[block_hash] == h,
            leads_to(headers, hash, block_hash, stop_at, birth, steps, blocks@),
            leads_to(
                headers,
                mark,
                block_hash,
                stop_at,
                birth,
                since_mark as nat,
                passed,
            ),
            since_mark <= lap,
            lap > 0,
        decreases usize::MAX - blocks.len(),
    {
        if since_mark > 0 && block_hash == mark {
            proof {
                assert forall|fuel: nat| #[trigger]
                    walk_back(headers, block_hash, h, stop_at, birth, fuel) is None by {
                    lemma_walk_circles(
                        headers,
                        block_hash,
                        stop_at,
                        birth,
                        since_mark as nat,
                        passed,
                        fuel,
                    );
                }
                lemma_walk_lost(headers, hash, block_hash, stop_at, birth, steps, blocks@);
            }
            return None;
        }
        if since_mark == lap {
            mark = block_hash;
            since_mark = 0;
            lap = if lap <= usize::MAX / 2 { 2 * lap } else { lap };
            proof {
                passed = Seq::empty();
                lemma_leads_nowhere(headers, block_hash, stop_at, birth);
            }
        }
        let ghost before = blocks@;
        let ghost entry = (block_hash, h.height);
        let prev = h.header.prev_blockhash;
        blocks.push_front((block_hash, h.height));
        assert(blocks@ =~= seq![entry] + before);
        if prev == Hash256::zero() {
            if stop_at == Hash256::zero() {
                proof {
                    let none = Seq::<(Hash256, u32)>::empty();
                    assert(walk_back(headers, prev, h, stop_at, birth, 0) == Some(none));
                    assert(walk_back(headers, block_hash, h, stop_at, birth, 1) == Some(
                        none.push(entry),
                    ));
                    assert(none.push(entry) + before =~= blocks@);
                    lemma_leads_within(headers, hash, block_hash, stop_at, birth, steps, before, 1);
                    assert(walk_back(headers, hash, at, stop_at, birth, 1 + steps) == Some(
                        blocks@,
                    ));
                }
                return Some(blocks);
            }
            proof {
                assert forall|fuel: nat| #[trigger]
                    walk_back(headers, block_hash, h, stop_at, birth, fuel) is None by {
                    if fuel > 0 {
                        lemma_walk_stays(headers, h, stop_at, birth, (fuel - 1) as nat);
                    }
                }
                lemma_walk_lost(headers, hash, block_hash, stop_at, birth, steps, before);
            }
            return None;
        }
        match get_header(chaindb, &prev) {
            None => {
                proof {
                    lemma_walk_lost(headers, hash, block_hash, stop_at, birth, steps, before);
                }
                return None;
            },
            Some(next) => {
                if (next.header.time as u64) < birth {
                    proof {
                        assert(walk_back(headers, block_hash, h, stop_at, birth, 1) == Some(
                            seq![entry],
                        ));
                        lemma_leads_within(headers, hash, block_hash, stop_at, birth, steps, before, 1);
                        assert(walk_back(headers, hash, at, stop_at, birth, 1 + steps) == Some(
                            blocks@,
                        ));
                    }
                    return Some(blocks);
                }
                proof {
                    lemma_leads_on(headers, hash, block_hash, stop_at, birth, steps, before);
                    lemma_leads_on(
                        headers,
                        mark,
                        block_hash,
                        stop_at,
                        birth,
                        since_mark as nat,
                        passed,
                    );
                    steps = steps + 1;
                    passed = seq![entry] + passed;
                }
                since_mark = since_mark + 1;
                block_hash = prev;
                h = next;
            },
        }
    }
    proof {
        let none = Seq::<(Hash256, u32)>::empty();
        assert(walk_back(headers, block_hash, h, stop_at, birth, 0) == Some(none));
        assert(none + blocks@ =~= blocks@);
        lemma_leads_within(headers, hash, block_hash, stop_at, birth, steps, blocks@, 0);
        assert(walk_back(headers, hash, at, stop_at, birth, 0 + steps) == Some(blocks@));
    }
    Some(blocks)
}

} // verus!
