use spv_node::echo::Echo;
use spv_node::peers::KeepConnected;
use spv_node::spv::{db_path, regtest, testnet, LogLevel, Spv};
use spv_node::types::{Block, BlockHeader, Hash256, Network, NetworkMessage, PeerAddress, PeerId, PeerMessage};

fn address(host: u32) -> PeerAddress {
    PeerAddress::V4 { ip4: host, port: 8333 }
}

fn header() -> BlockHeader {
    BlockHeader {
        version: 1,
        prev_blockhash: Hash256::zero(),
        merkle_root: Hash256::zero(),
        time: 0,
        bits: 0,
        nonce: 0,
    }
}

#[test]
fn every_message_has_its_name() {
    let named = vec![
        (NetworkMessage::Version, "version"),
        (NetworkMessage::Verack, "verack"),
        (NetworkMessage::Addr, "addr"),
        (NetworkMessage::Inv(vec![]), "inv"),
        (NetworkMessage::GetData, "getdata"),
        (NetworkMessage::NotFound, "notfound"),
        (NetworkMessage::GetBlocks, "getblocks"),
        (NetworkMessage::GetHeaders, "getheaders"),
        (NetworkMessage::MemPool, "mempool"),
        (NetworkMessage::Tx, "tx"),
        (NetworkMessage::Block(Block { header: header(), txdata: vec![] }), "block"),
        (NetworkMessage::Headers(vec![]), "headers"),
        (NetworkMessage::SendHeaders, "sendheaders"),
        (NetworkMessage::GetAddr, "getaddr"),
        (NetworkMessage::Ping, "ping"),
        (NetworkMessage::Pong, "pong"),
        (NetworkMessage::GetCFilters, "getcfilters"),
        (NetworkMessage::CFilter, "cfilter"),
        (NetworkMessage::GetCFHeaders, "getcfheaders"),
        (NetworkMessage::CFHeaders, "cfheaders"),
        (NetworkMessage::GetCFCheckpt, "getcfckpt"),
        (NetworkMessage::CFCheckpt, "cfcheckpt"),
        (NetworkMessage::Alert, "alert"),
        (NetworkMessage::Reject, "reject"),
    ];
    let echo = Echo::new();
    let peer = PeerId { token: 3 };
    for (message, name) in named {
        assert_eq!(Echo::command(&message), name);
        assert_eq!(echo.run(&PeerMessage::Incoming(peer, message)), Some((peer, name)));
    }
}

#[test]
fn only_incoming_messages_are_named() {
    let echo = Echo::new();
    let peer = PeerId { token: 3 };
    assert_eq!(echo.run(&PeerMessage::Connected(peer)), None);
    assert_eq!(echo.run(&PeerMessage::Disconnected(peer)), None);
    assert_eq!(echo.run(&PeerMessage::Outgoing(NetworkMessage::Ping)), None);
}

#[test]
fn random_number_points_at_a_peer() {
    let mut keep = KeepConnected::new(vec![address(1), address(2), address(3)], 2);
    assert_eq!(keep.choose_at(1, 7), Some(address(2)));
    assert_eq!(keep.choose_at(1, 7), Some(address(3)));
    assert_eq!(keep.choose_at(1, 7), Some(address(1)));
    assert_eq!(keep.choose_at(1, 7), None);
    assert_eq!(keep.earlier, vec![address(2), address(3), address(1)]);
}

#[test]
fn enough_connections_need_no_peer() {
    let mut keep = KeepConnected::new(vec![address(1)], 2);
    assert_eq!(keep.choose_at(2, 0), None);
    assert_eq!(keep.poll(2), None);
    assert_eq!(keep.poll(5), None);
    assert_eq!(keep.earlier, vec![]);
    assert_eq!(keep.poll(1), Some(address(1)));
}

#[test]
fn no_peer_is_chosen_twice() {
    let known = vec![address(1), address(2), address(2), address(3)];
    let mut keep = KeepConnected::new(known, 9);
    let mut chosen = vec![];
    while let Some(peer) = keep.poll(0) {
        assert!(!chosen.contains(&peer));
        chosen.push(peer);
    }
    assert_eq!(chosen.len(), 3);
    assert_eq!(keep.earlier, chosen);
}

#[test]
fn random_choices_differ() {
    let known: Vec<PeerAddress> = (0..100000).map(address).collect();
    let mut first = vec![];
    let mut second = vec![];
    let mut a = KeepConnected::new(known, 1);
    for _ in 0..4 {
        first.push(a.poll(0));
    }
    let known: Vec<PeerAddress> = (0..100000).map(address).collect();
    let mut b = KeepConnected::new(known, 1);
    for _ in 0..4 {
        second.push(b.poll(0));
    }
    assert_ne!(first, second);
}

#[test]
fn addresses_differ_in_every_part() {
    let base = PeerAddress::V6 { ip6: 1, port: 2, flowinfo: 3, scope_id: 4 };
    let other = PeerAddress::V6 { ip6: 1, port: 2, flowinfo: 3, scope_id: 5 };
    let mut keep = KeepConnected::new(vec![base, other], 1);
    assert_eq!(keep.choose_at(0, 0), Some(base));
    assert_eq!(keep.choose_at(0, 0), Some(other));
}

#[test]
fn node_settings() {
    let node = Spv::with_nonce(Network::Testnet, vec![], 17);
    assert_eq!(node.p2p.network, Network::Testnet);
    assert_eq!(node.p2p.nonce, 17);
    assert_eq!(node.p2p.max_protocol_version, 70001);
    assert_eq!(node.p2p.user_agent, "murmel: 0.1.0");
    assert_eq!(node.p2p.height, 0);
    assert!(!node.p2p.server);
    assert_eq!(node.back_pressure, 10);
    assert_eq!(node.processed_block, None);
    assert_eq!(node.birth, 0);
    assert!(Spv::new(Network::Bitcoin, vec![address(1)]).p2p.server);
}

#[test]
fn nonces_are_random() {
    let nonces: Vec<u64> =
        (0..4).map(|_| Spv::new(Network::Regtest, vec![]).p2p.nonce).collect();
    assert!(nonces.iter().any(|n| *n != nonces[0]));
}

#[test]
fn database_files() {
    assert_eq!(db_path(Network::Bitcoin), "data/mainnet/client.db");
    assert_eq!(db_path(Network::Testnet), "data/testnet/client.db");
    assert_eq!(db_path(Network::Regtest), "data/regtest/client.db");
}

#[test]
fn run_settings() {
    let test = testnet(99);
    assert_eq!((test.log_level, test.network, test.connections, test.birth),
        (LogLevel::Debug, Network::Testnet, 4, 99));
    assert_eq!(test.peers, vec![]);
    let reg = regtest();
    assert_eq!((reg.log_level, reg.network, reg.connections, reg.birth),
        (LogLevel::Info, Network::Regtest, 4, 0));
    assert_eq!(reg.peers, vec![PeerAddress::V4 { ip4: 0x7f000001, port: 18444 }]);
    assert_eq!(reg.listeners, vec![]);
}
