use bitcoin::blockdata::constants::genesis_block;
use bitcoin::BitcoinHash;
use bitcoin_hashes::sha256d;
use bitcoin_hashes::Hash as Digest;
use murmel::chaindb::ChainDB;
use murmel::error::Error;
use spv_node::download::{BlockDownload, BlockRequest};
use spv_node::transition::{Action, AddOutcome, Reply};
use spv_node::types::{
    Block, BlockHeader, Hash256, InvType, Inventory, NetworkMessage, PeerId, PeerMessage,
};
use std::collections::VecDeque;

const SERVING: Option<u64> = Some(1);

fn hash(byte: u8) -> Hash256 {
    Hash256 { bytes: [byte; 32] }
}

fn peer(token: u64) -> PeerId {
    PeerId { token }
}

fn ours(hash: sha256d::Hash) -> Hash256 {
    Hash256 { bytes: hash.into_inner() }
}

fn our_header(h: &bitcoin::BlockHeader) -> BlockHeader {
    BlockHeader {
        version: h.version,
        prev_blockhash: ours(h.prev_blockhash),
        merkle_root: ours(h.merkle_root),
        time: h.time,
        bits: h.bits,
        nonce: h.nonce,
    }
}

fn outside_header(h: &BlockHeader) -> bitcoin::BlockHeader {
    bitcoin::BlockHeader {
        version: h.version,
        prev_blockhash: sha256d::Hash::from_inner(h.prev_blockhash.bytes),
        merkle_root: sha256d::Hash::from_inner(h.merkle_root.bytes),
        time: h.time,
        bits: h.bits,
        nonce: h.nonce,
    }
}

fn genesis() -> bitcoin::BlockHeader {
    genesis_block(bitcoin::Network::Regtest).header
}

fn open() -> ChainDB {
    let mut db = ChainDB::mem(bitcoin::Network::Regtest).unwrap();
    db.init().unwrap();
    db
}

fn mine(prev: &bitcoin::BlockHeader, time: u32) -> bitcoin::BlockHeader {
    let mut header = bitcoin::BlockHeader {
        version: 1,
        prev_blockhash: prev.bitcoin_hash(),
        merkle_root: sha256d::Hash::from_inner([7; 32]),
        time,
        bits: prev.bits,
        nonce: 0,
    };
    while header.validate_pow(&header.target()).is_err() {
        header.nonce += 1;
    }
    header
}

fn chain(prev: &bitcoin::BlockHeader, times: &[u32]) -> Vec<bitcoin::BlockHeader> {
    let mut headers: Vec<bitcoin::BlockHeader> = vec![];
    for time in times {
        let last = headers.last().unwrap_or(prev).clone();
        headers.push(mine(&last, *time));
    }
    headers
}

fn add(db: &mut ChainDB, header: &BlockHeader) -> AddOutcome {
    match db.add_header(&outside_header(header)) {
        Ok(Some((stored, unwinds, forwards))) => AddOutcome::Added {
            header: our_header(&stored.header),
            height: stored.height,
            unwinds: unwinds.map(|list| list.into_iter().map(ours).collect()),
            forwards: forwards.map(|list| list.into_iter().map(ours).collect()),
        },
        Ok(None) => AddOutcome::Known,
        Err(Error::SpvBadProofOfWork) => AddOutcome::BadProofOfWork,
        Err(_) => AddOutcome::Failed,
    }
}

/// Does what the actions ask of the chain, and lists them all as they come.
fn perform(download: &mut BlockDownload, db: &mut ChainDB, actions: Vec<Action>) -> Vec<Action> {
    let mut left: VecDeque<Action> = actions.into_iter().collect();
    let mut done = vec![];
    while let Some(action) = left.pop_front() {
        let more = match &action {
            Action::AddHeader(header) => {
                let outcome = add(db, header);
                download.try_header_added(db, outcome).unwrap()
            }
            Action::CommitHeaders => {
                db.batch().unwrap();
                download.batch_committed()
            }
            _ => vec![],
        };
        done.push(action);
        for next in more.into_iter().rev() {
            left.push_front(next);
        }
    }
    done
}

fn idle(wanted: Vec<(Hash256, u32)>, asked: Vec<(Hash256, u32)>, from: Option<PeerId>) -> BlockDownload {
    BlockDownload {
        blocks_wanted: wanted.into_iter().collect(),
        blocks_asked: asked.into_iter().collect(),
        block_download_peer: from,
        birth: 100,
        round: None,
    }
}

fn list(queue: &VecDeque<(Hash256, u32)>) -> Vec<(Hash256, u32)> {
    queue.iter().cloned().collect()
}

fn plain_header(time: u32) -> BlockHeader {
    BlockHeader {
        version: 1,
        prev_blockhash: hash(1),
        merkle_root: hash(2),
        time,
        bits: 0x207fffff,
        nonce: 0,
    }
}

fn incoming(token: u64, message: NetworkMessage) -> PeerMessage {
    PeerMessage::Incoming(peer(token), message)
}

fn added(header: BlockHeader, height: u32) -> AddOutcome {
    AddOutcome::Added { header, height, unwinds: None, forwards: Some(vec![hash(8)]) }
}

#[test]
fn serving_blocks() {
    assert!(BlockDownload::is_serving_blocks(Some(1)));
    assert!(BlockDownload::is_serving_blocks(Some(9)));
    assert!(!BlockDownload::is_serving_blocks(Some(8)));
    assert!(!BlockDownload::is_serving_blocks(Some(0)));
    assert!(!BlockDownload::is_serving_blocks(None));
}

#[test]
fn download_starts_with_all_blocks() {
    let mut db = open();
    let headers = chain(&genesis(), &[1500000001, 1500000002, 1500000003]);
    for h in &headers {
        db.add_header(h).unwrap();
    }
    let download = BlockDownload::try_new(&db, None, 0).unwrap();
    let mut expected = vec![(ours(genesis().bitcoin_hash()), 0)];
    for (i, h) in headers.iter().enumerate() {
        expected.push((ours(h.bitcoin_hash()), i as u32 + 1));
    }
    assert_eq!(list(&download.blocks_wanted), expected);
    assert_eq!(list(&BlockDownload::new(&db, None, 0).blocks_wanted), expected);
    assert!(download.blocks_asked.is_empty());
    assert_eq!(download.block_download_peer, None);
    assert_eq!(download.birth, 0);
    assert!(download.round.is_none());
}

#[test]
fn download_starts_after_the_processed_block() {
    let mut db = open();
    let headers = chain(&genesis(), &[1500000001, 1500000002, 1500000003]);
    for h in &headers {
        db.add_header(h).unwrap();
    }
    let processed = ours(headers[0].bitcoin_hash());
    let download = BlockDownload::try_new(&db, Some(processed), 0).unwrap();
    let expected = vec![
        (ours(headers[1].bitcoin_hash()), 2),
        (ours(headers[2].bitcoin_hash()), 3),
    ];
    assert_eq!(list(&download.blocks_wanted), expected);
    let tip = ours(headers[2].bitcoin_hash());
    assert!(BlockDownload::try_new(&db, Some(tip), 0).unwrap().blocks_wanted.is_empty());
}

#[test]
fn download_starts_at_birth() {
    let mut db = open();
    let headers = chain(&genesis(), &[1500000001, 1500000002, 1500000003]);
    for h in &headers {
        db.add_header(h).unwrap();
    }
    let wanted = |birth: u64| {
        list(&BlockDownload::try_new(&db, None, birth).unwrap().blocks_wanted)
            .iter().map(|b| b.1).collect::<Vec<u32>>()
    };
    assert_eq!(wanted(1500000001), vec![1, 2, 3]);
    assert_eq!(wanted(1500000002), vec![2, 3]);
    assert_eq!(wanted(1500000003), vec![]);
}

#[test]
fn processed_block_off_the_chain_is_refused() {
    let db = open();
    assert!(BlockDownload::try_new(&db, Some(hash(5)), 0).is_none());
    assert!(BlockDownload::try_new(&db, Some(hash(5)), 1600000000).is_some());
}

#[test]
fn empty_database_wants_nothing() {
    let db = ChainDB::mem(bitcoin::Network::Regtest).unwrap();
    assert!(BlockDownload::try_new(&db, None, 0).unwrap().blocks_wanted.is_empty());
    assert_eq!(BlockDownload::try_get_headers(&db, peer(1), false), Ok(None));
    let mut download = idle(vec![], vec![], Some(peer(1)));
    let actions = download.headers(&db, vec![plain_header(5)], peer(1));
    assert_eq!(actions, vec![Action::Received { peer: peer(1), count: 1, reply: Reply::Headers }]);
    assert!(download.round.is_none());
}

#[test]
fn serving_peer_is_asked_for_headers() {
    let db = open();
    let mut download = idle(vec![], vec![], None);
    let actions = download.run(&db, PeerMessage::Connected(peer(1)), SERVING);
    assert_eq!(actions, vec![Action::GetHeaders(peer(1))]);
    assert_eq!(download.block_download_peer, Some(peer(1)));
    let actions = download.run(&db, PeerMessage::Connected(peer(2)), SERVING);
    assert_eq!(actions, vec![Action::GetHeaders(peer(2))]);
    assert_eq!(download.block_download_peer, Some(peer(1)));
    assert_eq!(download.connected(peer(3), Some(8)), vec![]);
    assert_eq!(download.run(&db, PeerMessage::Outgoing(NetworkMessage::Ping), SERVING), vec![]);
}

#[test]
fn header_request_names_the_tip() {
    let mut db = open();
    let headers = chain(&genesis(), &[1500000001, 1500000002]);
    for h in &headers {
        db.add_header(h).unwrap();
    }
    let request = BlockDownload::get_headers(&db, peer(4), false).unwrap();
    let tip = ours(headers[1].bitcoin_hash());
    assert_eq!(request.peer, peer(4));
    assert_eq!(request.stop, tip);
    assert_eq!(request.expected, 1);
    assert_eq!(request.locator, vec![
        tip,
        ours(headers[0].bitcoin_hash()),
        ours(genesis().bitcoin_hash()),
    ]);
    assert_eq!(BlockDownload::try_get_headers(&db, peer(4), false), Ok(Some(request)));
    assert_eq!(BlockDownload::get_headers(&db, peer(4), true), None);
    assert_eq!(BlockDownload::try_get_headers(&db, peer(4), true), Ok(None));
}

#[test]
fn header_request_needs_a_locator() {
    assert_eq!(BlockDownload::request_headers(vec![], peer(1)), None);
    let request = BlockDownload::request_headers(vec![hash(3), hash(4)], peer(1)).unwrap();
    assert_eq!(request.stop, hash(3));
    assert_eq!(request.locator, vec![hash(3), hash(4)]);
}

#[test]
fn announced_block_is_new() {
    let db = open();
    let known = ours(genesis().bitcoin_hash());
    let ask = vec![Action::GetHeaders(peer(1))];
    let block = |hash| Inventory { inv_type: InvType::Block, hash };
    assert_eq!(BlockDownload::inv(&db, &vec![block(known)], peer(1)), vec![]);
    assert_eq!(BlockDownload::inv(&db, &vec![block(known), block(hash(9)), block(known)], peer(1)), ask);
    assert_eq!(BlockDownload::inv(&db, &vec![block(hash(9)), block(hash(8))], peer(1)), ask);
    let tx = Inventory { inv_type: InvType::Transaction, hash: hash(9) };
    let witness = Inventory { inv_type: InvType::WitnessBlock, hash: hash(9) };
    assert_eq!(BlockDownload::inv(&db, &vec![tx, witness], peer(1)), vec![]);
}

#[test]
fn messages_of_a_peer_that_serves_no_blocks() {
    let db = open();
    let mut download = idle(vec![], vec![], Some(peer(1)));
    let inv = vec![Inventory { inv_type: InvType::Block, hash: hash(9) }];
    assert_eq!(download.run(&db, incoming(2, NetworkMessage::Inv(inv)), Some(0)), vec![]);
    let headers = vec![plain_header(200)];
    assert_eq!(download.run(&db, incoming(2, NetworkMessage::Headers(headers)), None), vec![]);
    assert!(download.round.is_none());
}

#[test]
fn any_message_finds_a_download_peer() {
    let db = open();
    let mut download = idle(vec![], vec![], None);
    let actions = download.run(&db, incoming(2, NetworkMessage::Ping), None);
    assert_eq!(actions, vec![Action::AskBlocks(peer(2))]);
    assert_eq!(download.block_download_peer, Some(peer(2)));
    assert_eq!(download.run(&db, incoming(3, NetworkMessage::Ping), None), vec![]);
    let inv = vec![Inventory { inv_type: InvType::Block, hash: hash(9) }];
    let actions = download.run(&db, incoming(2, NetworkMessage::Inv(inv)), SERVING);
    assert_eq!(actions, vec![Action::GetHeaders(peer(2)), Action::AskBlocks(peer(2))]);
}

#[test]
fn request_takes_the_oldest_blocks() {
    let wanted: Vec<(Hash256, u32)> = (0..1500u32).map(|i| (hash((i % 251) as u8), i)).collect();
    let mut download = idle(wanted.clone(), vec![(hash(3), 7)], Some(peer(1)));
    assert_eq!(download.ask_blocks(peer(1), true), None);
    assert_eq!(download.blocks_wanted.len(), 1500);
    let BlockRequest { peer: to, hashes, expected } = download.ask_blocks(peer(1), false).unwrap();
    assert_eq!(to, peer(1));
    assert_eq!(expected, 1001);
    assert_eq!(hashes.len(), 1001);
    assert_eq!(hashes[0], hash(3));
    assert_eq!(hashes[1000], wanted[999].0);
    assert_eq!(list(&download.blocks_wanted), wanted[1000..].to_vec());
    let mut pending = vec![(hash(3), 7)];
    pending.extend(wanted.clone());
    let mut now = list(&download.blocks_asked);
    now.extend(list(&download.blocks_wanted));
    assert_eq!(now, pending);
    assert_eq!(download.ask_blocks(peer(1), false).unwrap().expected, 1501);
    assert!(download.blocks_wanted.is_empty());
}

#[test]
fn nothing_wanted_is_no_request() {
    let mut download = idle(vec![], vec![], Some(peer(1)));
    assert_eq!(download.ask_blocks(peer(1), false), None);
}

#[test]
fn lost_peer_leaves_its_blocks_wanted() {
    let db = open();
    let wanted = vec![(hash(3), 3), (hash(4), 4)];
    let asked = vec![(hash(1), 1), (hash(2), 2)];
    let mut download = idle(wanted.clone(), asked.clone(), Some(peer(1)));
    assert_eq!(download.run(&db, PeerMessage::Disconnected(peer(2)), None), vec![]);
    assert_eq!(list(&download.blocks_asked), asked);
    assert_eq!(download.run(&db, PeerMessage::Disconnected(peer(1)), None), vec![]);
    assert_eq!(download.block_download_peer, None);
    assert!(download.blocks_asked.is_empty());
    assert_eq!(list(&download.blocks_wanted), vec![(hash(1), 1), (hash(2), 2), (hash(3), 3), (hash(4), 4)]);
    let request = download.ask_blocks(peer(2), false).unwrap();
    assert_eq!(request.hashes, vec![hash(1), hash(2), hash(3), hash(4)]);
}

#[test]
fn blocks_come_in_order() {
    let asked = vec![(hash(1), 11), (hash(2), 12)];
    let mut download = idle(vec![], asked.clone(), Some(peer(1)));
    let block = || Block { header: plain_header(1), txdata: vec![] };
    assert_eq!(download.connect_block(hash(2), block(), peer(1)), vec![]);
    assert_eq!(download.connect_block(hash(1), block(), peer(2)), vec![]);
    assert_eq!(list(&download.blocks_asked), asked);
    let actions = download.connect_block(hash(1), block(), peer(1));
    assert_eq!(actions, vec![
        Action::Received { peer: peer(1), count: 1, reply: Reply::Block },
        Action::BlockConnected { block: block(), height: 11 },
    ]);
    assert_eq!(list(&download.blocks_asked), vec![(hash(2), 12)]);
}

#[test]
fn block_is_known_by_its_hash() {
    let db = open();
    let header = our_header(&genesis());
    let mut download = idle(vec![], vec![(ours(genesis().bitcoin_hash()), 0)], Some(peer(1)));
    let other = Block { header: plain_header(1), txdata: vec![] };
    assert_eq!(download.block(other, peer(1)), vec![]);
    let block = || Block { header, txdata: vec![] };
    let actions = download.run(&db, incoming(1, NetworkMessage::Block(block())), None);
    assert_eq!(actions, vec![
        Action::Received { peer: peer(1), count: 1, reply: Reply::Block },
        Action::BlockConnected { block: block(), height: 0 },
        Action::AskBlocks(peer(1)),
    ]);
    assert!(download.blocks_asked.is_empty());
}

#[test]
fn block_without_a_download_peer_is_dropped() {
    let db = open();
    let header = our_header(&genesis());
    let mut download = idle(vec![], vec![(ours(genesis().bitcoin_hash()), 0)], None);
    let block = Block { header, txdata: vec![] };
    let actions = download.run(&db, incoming(1, NetworkMessage::Block(block)), None);
    assert_eq!(actions, vec![Action::AskBlocks(peer(1))]);
    assert_eq!(download.blocks_asked.len(), 1);
}

#[test]
fn received_headers_are_wanted() {
    let mut db = open();
    let mut download = BlockDownload::try_new(&db, None, 1500000001).unwrap();
    let sent = chain(&genesis(), &[1500000001, 1500000002, 1500000003]);
    let headers: Vec<BlockHeader> = sent.iter().map(our_header).collect();
    let actions = download.run(&db, incoming(1, NetworkMessage::Headers(headers.clone())), SERVING);
    assert_eq!(actions.len(), 3);
    let done = perform(&mut download, &mut db, actions);
    assert_eq!(done, vec![
        Action::Received { peer: peer(1), count: 1, reply: Reply::Headers },
        Action::AddHeader(headers[0]),
        Action::AddHeader(headers[1]),
        Action::AddHeader(headers[2]),
        Action::CommitHeaders,
        Action::HeaderConnected { header: headers[1], height: 2 },
        Action::HeaderConnected { header: headers[2], height: 3 },
        Action::GetHeaders(peer(1)),
        Action::Height(3),
        Action::AskBlocks(peer(1)),
    ]);
    assert_eq!(list(&download.blocks_wanted), vec![
        (ours(sent[1].bitcoin_hash()), 2),
        (ours(sent[2].bitcoin_hash()), 3),
    ]);
    assert!(download.round.is_none());
}

#[test]
fn known_headers_bring_nothing() {
    let mut db = open();
    let sent = chain(&genesis(), &[1500000001]);
    db.add_header(&sent[0]).unwrap();
    let mut download = idle(vec![], vec![], Some(peer(9)));
    let header = our_header(&sent[0]);
    let actions = download.run(&db, incoming(1, NetworkMessage::Headers(vec![header])), SERVING);
    let done = perform(&mut download, &mut db, actions);
    assert_eq!(done, vec![
        Action::Received { peer: peer(1), count: 1, reply: Reply::Headers },
        Action::AddHeader(header),
        Action::CommitHeaders,
    ]);
    assert!(download.blocks_wanted.is_empty());
    assert!(download.round.is_none());
}

#[test]
fn no_headers_are_only_received() {
    let db = open();
    let mut download = idle(vec![], vec![], Some(peer(9)));
    let actions = download.run(&db, incoming(1, NetworkMessage::Headers(vec![])), SERVING);
    assert_eq!(actions, vec![Action::Received { peer: peer(1), count: 1, reply: Reply::Headers }]);
    assert!(download.round.is_none());
}

#[test]
fn bad_work_bans_the_peer() {
    let mut db = open();
    let mut bad = mine(&genesis(), 1500000001);
    while bad.validate_pow(&bad.target()).is_ok() {
        bad.nonce += 1;
    }
    let good = mine(&genesis(), 1500000002);
    let orphan = plain_header(1500000003);
    let mut download = idle(vec![], vec![], Some(peer(9)));
    let headers = vec![our_header(&bad), orphan, our_header(&good)];
    let actions = download.headers(&db, headers.clone(), peer(1));
    let done = perform(&mut download, &mut db, actions);
    assert_eq!(done, vec![
        Action::Received { peer: peer(1), count: 1, reply: Reply::Headers },
        Action::AddHeader(headers[0]),
        Action::Ban { peer: peer(1), score: 100 },
        Action::AddHeader(headers[1]),
        Action::AddHeader(headers[2]),
        Action::CommitHeaders,
        Action::HeaderConnected { header: headers[2], height: 1 },
        Action::GetHeaders(peer(1)),
        Action::Height(1),
    ]);
}

#[test]
fn longer_branch_replaces_wanted_blocks() {
    let mut db = open();
    let old = chain(&genesis(), &[1500000001, 1500000002]);
    for h in &old {
        db.add_header(h).unwrap();
    }
    let mut download = BlockDownload::try_new(&db, Some(ours(genesis().bitcoin_hash())), 0).unwrap();
    assert_eq!(download.blocks_wanted.len(), 2);
    let new = chain(&genesis(), &[1500000011, 1500000012, 1500000013, 1500000014]);
    let headers: Vec<BlockHeader> = new.iter().map(our_header).collect();
    let actions = download.headers(&db, headers.clone(), peer(1));
    let done = perform(&mut download, &mut db, actions);
    assert_eq!(done, vec![
        Action::Received { peer: peer(1), count: 1, reply: Reply::Headers },
        Action::AddHeader(headers[0]),
        Action::AddHeader(headers[1]),
        Action::AddHeader(headers[2]),
        Action::CommitHeaders,
        Action::BlockDisconnected(our_header(&old[1])),
        Action::BlockDisconnected(our_header(&old[0])),
        Action::HeaderConnected { header: headers[0], height: 1 },
        Action::HeaderConnected { header: headers[1], height: 2 },
        Action::HeaderConnected { header: headers[2], height: 3 },
        Action::AddHeader(headers[3]),
        Action::CommitHeaders,
        Action::HeaderConnected { header: headers[3], height: 4 },
        Action::GetHeaders(peer(1)),
        Action::Height(4),
    ]);
    let expected: Vec<(Hash256, u32)> =
        new.iter().enumerate().map(|(i, h)| (ours(h.bitcoin_hash()), i as u32 + 1)).collect();
    assert_eq!(list(&download.blocks_wanted), expected);
}

#[test]
fn outcome_that_the_chain_cannot_give() {
    let db = open();
    let mut download = idle(vec![], vec![], None);
    let _ = download.start_round(vec![plain_header(200), plain_header(300)], Some(5), peer(1));
    let unknown = AddOutcome::Added {
        header: plain_header(200),
        height: 6,
        unwinds: Some(vec![hash(9)]),
        forwards: Some(vec![hash(8)]),
    };
    assert_eq!(download.try_header_added(&db, unknown), None);
    let nowhere = AddOutcome::Added {
        header: plain_header(200),
        height: 6,
        unwinds: None,
        forwards: Some(vec![]),
    };
    assert_eq!(download.try_header_added(&db, nowhere), None);
    assert_eq!(download.round.as_ref().unwrap().queue.len(), 1);
    let actions = download.try_header_added(&db, AddOutcome::Failed);
    assert_eq!(actions, Some(vec![Action::AddHeader(plain_header(300))]));
}

#[test]
fn batch_without_a_moved_tip_reports_no_height() {
    let db = open();
    let mut download = idle(vec![(hash(1), 1)], vec![], None);
    let actions = download.start_round(vec![plain_header(200)], Some(5), peer(1));
    assert_eq!(actions[1], Action::AddHeader(plain_header(200)));
    let side = AddOutcome::Added { header: plain_header(200), height: 4, unwinds: None, forwards: None };
    assert_eq!(download.header_added(&db, side), vec![Action::CommitHeaders]);
    let actions = download.finish_batch(&vec![hash(7)]);
    assert_eq!(actions, vec![
        Action::HeaderConnected { header: plain_header(200), height: 4 },
        Action::GetHeaders(peer(1)),
    ]);
    assert_eq!(list(&download.blocks_wanted), vec![(hash(1), 1), (hash(7), 4)]);
}

#[test]
fn headers_at_birth_are_not_wanted() {
    let db = open();
    let mut download = idle(vec![], vec![], None);
    let headers = vec![plain_header(99), plain_header(100), plain_header(101)];
    let _ = download.start_round(headers, Some(5), peer(1));
    let _ = download.header_added(&db, added(plain_header(99), 6));
    let _ = download.header_added(&db, added(plain_header(100), 7));
    let _ = download.header_added(&db, added(plain_header(101), 8));
    let actions = download.finish_batch(&vec![hash(4), hash(5), hash(6)]);
    assert_eq!(actions, vec![
        Action::HeaderConnected { header: plain_header(101), height: 8 },
        Action::GetHeaders(peer(1)),
        Action::Height(8),
    ]);
    assert_eq!(list(&download.blocks_wanted), vec![(hash(6), 8)]);
}

#[test]
fn more_blocks_leave_than_are_wanted() {
    let mut db = open();
    let sent = chain(&genesis(), &[1500000001, 1500000002]);
    for h in &sent {
        db.add_header(h).unwrap();
    }
    let mut download = idle(vec![(hash(1), 1)], vec![], None);
    let _ = download.start_round(vec![plain_header(200)], Some(2), peer(1));
    let fork = AddOutcome::Added {
        header: plain_header(200),
        height: 3,
        unwinds: Some(sent.iter().rev().map(|h| ours(h.bitcoin_hash())).collect()),
        forwards: Some(vec![hash(8)]),
    };
    assert_eq!(download.header_added(&db, fork), vec![Action::CommitHeaders]);
    let actions = download.finish_batch(&vec![hash(8)]);
    assert_eq!(actions.len(), 5);
    assert_eq!(actions[0], Action::BlockDisconnected(our_header(&sent[1])));
    assert_eq!(list(&download.blocks_wanted), vec![(hash(8), 3)]);
}

#[test]
fn answers_reach_the_wallet() {
    let asked = vec![(hash(1), 11), (hash(2), 12), (hash(3), 13)];
    let mut download = idle(vec![(hash(4), 14)], asked, Some(peer(1)));
    let mut told = vec![];
    for i in 1..=2u8 {
        let block = Block { header: plain_header(i as u32), txdata: vec![] };
        for action in download.connect_block(hash(i), block, peer(1)) {
            if let Action::BlockConnected { block, height } = action {
                told.push((block.header.time, height));
            }
        }
    }
    assert_eq!(told, vec![(1, 11), (2, 12)]);
    assert_eq!(list(&download.blocks_asked), vec![(hash(3), 13)]);
    assert_eq!(list(&download.blocks_wanted), vec![(hash(4), 14)]);
}

#[test]
fn locator_steps_back_ever_further() {
    let mut db = open();
    let times: Vec<u32> = (1..=30).map(|i| 1500000000 + i).collect();
    let headers = chain(&genesis(), &times);
    for h in &headers {
        db.add_header(h).unwrap();
    }
    let mut trunk = vec![ours(genesis().bitcoin_hash())];
    trunk.extend(headers.iter().map(|h| ours(h.bitcoin_hash())));
    let distances: [usize; 15] = [0, 1, 2, 3, 4, 5, 6, 7, 8, 9, 10, 11, 13, 17, 25];
    let expected: Vec<Hash256> = distances.iter().map(|d| trunk[30 - d]).collect();
    let request = BlockDownload::get_headers(&db, peer(4), false).unwrap();
    assert_eq!(request.locator, expected);
    assert_eq!(request.stop, trunk[30]);
}

#[test]
fn long_chain_is_walked_to_its_end() {
    let mut db = open();
    let times: Vec<u32> = (1..=70).map(|i| 1500000000 + i).collect();
    let headers = chain(&genesis(), &times);
    for h in &headers {
        db.add_header(h).unwrap();
    }
    let download = BlockDownload::try_new(&db, None, 0).unwrap();
    let heights: Vec<u32> = download.blocks_wanted.iter().map(|b| b.1).collect();
    assert_eq!(heights, (0..=70).collect::<Vec<u32>>());
    assert_eq!(download.blocks_wanted[70].0, ours(headers[69].bitcoin_hash()));
    assert!(BlockDownload::try_new(&db, Some(hash(5)), 0).is_none());
}
