//! The settings of the node.
use vstd::prelude::*;

use crate::random::random_u64;
use crate::types::{Hash256, Network, PeerAddress};

verus! {

/// The highest protocol version that the node speaks.
pub const MAX_PROTOCOL_VERSION: u32 = 70001;

/// The number of messages that may wait for a listener.
pub const BACK_PRESSURE: usize = 10;

/// The number of connections that the node keeps up.
pub const CONNECTIONS: usize = 4;

/// What the network layer is told of this node.
#[derive(Debug, PartialEq, Eq)]
pub struct P2PSettings {
    pub network: Network,
    /// A number that tells this node from others.
    pub nonce: u64,
    pub max_protocol_version: u32,
    pub user_agent: String,
    /// The height of the chain that is announced at first.
    pub height: usize,
    /// Whether other nodes can connect to this one.
    pub server: bool,
}

/// The complete node, before it is started.
#[derive(Debug, PartialEq, Eq)]
pub struct Spv {
    pub p2p: P2PSettings,
    pub back_pressure: usize,
    /// The addresses to listen on.
    pub listen: Vec<PeerAddress>,
    /// The block up to which blocks were processed before.
    pub processed_block: Option<Hash256>,
    /// Blocks made earlier are of no interest.
    pub birth: u64,
}

/// How much is logged.
#[derive(Clone, Copy, Debug, PartialEq, Eq)]
pub enum LogLevel {
    Debug,
    Info,
}

/// How the node is run.
#[derive(Debug, PartialEq, Eq)]
pub struct RunSettings {
    pub log_level: LogLevel,
    pub network: Network,
    pub connections: usize,
    pub birth: u64,
    /// Peers to connect to at the start.
    pub peers: Vec<PeerAddress>,
    /// Addresses to listen on.
    pub listeners: Vec<PeerAddress>,
}

impl Spv {
    /// A node on a network, with a random nonce.
    pub fn new(network: Network, listen: Vec<PeerAddress>) -> (r: Spv)
        ensures
            r.p2p.network == network,
            r.p2p.max_protocol_version == MAX_PROTOCOL_VERSION,
            r.p2p.user_agent@ == "murmel: 0.1.0"@,
            r.p2p.height == 0,
            r.p2p.server == (listen@.len() > 0),
            r.back_pressure == BACK_PRESSURE,
            r.listen == listen,
            r.processed_block is None,
            r.birth == 0,
    {
        Spv::with_nonce(network, listen, random_u64())
    }

    /// A node on a network, with this nonce.
    pub fn with_nonce(network: Network, listen: Vec<PeerAddress>, nonce: u64) -> (r: Spv)
        ensures
            r.p2p.network == network,
            r.p2p.nonce == nonce,
            r.p2p.max_protocol_version == MAX_PROTOCOL_VERSION,
            r.p2p.user_agent@ == "murmel: 0.1.0"@,
            r.p2p.height == 0,
            r.p2p.server == (listen@.len() > 0),
            r.back_pressure == BACK_PRESSURE,
            r.listen == listen,
            r.processed_block is None,
            r.birth == 0,
    {
        let server = listen.len() > 0;
        Spv {
            p2p: P2PSettings {
                network,
                nonce,
                max_protocol_version: MAX_PROTOCOL_VERSION,
                user_agent: "murmel: 0.1.0".to_owned(),
                height: 0,
                server,
            },
            back_pressure: BACK_PRESSURE,
            listen,
            processed_block: None,
            birth: 0,
        }
    }
}

/// The file of the chain database of a network.
pub fn db_path(network: Network) -> (r: &'static str)
    ensures
        r@ == match network {
            Network::Bitcoin => "data/mainnet/client.db"@,
            Network::Testnet => "data/testnet/client.db"@,
            Network::Regtest => "data/regtest/client.db"@,
        },
{
    match network {
        Network::Bitcoin => "data/mainnet/client.db",
        Network::Testnet => "data/testnet/client.db",
        Network::Regtest => "data/regtest/client.db",
    }
}

/// The settings for the test network, where `now` is the Unix time in seconds:
/// only blocks from now on are of interest.
pub fn testnet(now: u64) -> (r: RunSettings)
    ensures
        r.log_level == LogLevel::Debug,
        r.network == Network::Testnet,
        r.connections == CONNECTIONS,
        r.birth == now,
        r.peers@ == Seq::<PeerAddress>::empty(),
        r.listeners@ == Seq::<PeerAddress>::empty(),
{
    RunSettings {
        log_level: LogLevel::Debug,
        network: Network::Testnet,
        connections: CONNECTIONS,
        birth: now,
        peers: Vec::new(),
        listeners: Vec::new(),
    }
}

/// The settings for the regression test network: one peer, on this machine at
/// port 18444, and all blocks are of interest.
pub fn regtest() -> (r: RunSettings)
    ensures
        r.log_level == LogLevel::Info,
        r.network == Network::Regtest,
        r.connections == CONNECTIONS,
        r.birth == 0,
        r.peers@ == seq![PeerAddress::V4 { ip4: 0x7f00_0001, port: 18444 }],
        r.listeners@ == Seq::<PeerAddress>::empty(),
{
    let mut peers: Vec<PeerAddress> = Vec::new();
    peers.push(PeerAddress::V4 { ip4: 0x7f00_0001, port: 18444 });
    assert(peers@ =~= seq![PeerAddress::V4 { ip4: 0x7f00_0001, port: 18444 }]);
    RunSettings {
        log_level: LogLevel::Info,
        network: Network::Regtest,
        connections: CONNECTIONS,
        birth: 0,
        peers,
        listeners: Vec::new(),
    }
}

} // verus!
