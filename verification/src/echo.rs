//! A listener that names the messages that come in.
use vstd::prelude::*;

use crate::types::{NetworkMessage, PeerId, PeerMessage};

verus! {

/// Names the messages that come in.
#[derive(Debug)]
pub struct Echo {}

/// The name of a message in the log.
pub open spec fn command_text(message: NetworkMessage) -> Seq<char> {
    match message {
        NetworkMessage::Version => "version"@,
        NetworkMessage::Verack => "verack"@,
        NetworkMessage::Addr => "addr"@,
        NetworkMessage::Inv(_) => "inv"@,
        NetworkMessage::GetData => "getdata"@,
        NetworkMessage::NotFound => "notfound"@,
        NetworkMessage::GetBlocks => "getblocks"@,
        NetworkMessage::GetHeaders => "getheaders"@,
        NetworkMessage::MemPool => "mempool"@,
        NetworkMessage::Tx => "tx"@,
        NetworkMessage::Block(_) => "block"@,
        NetworkMessage::Headers(_) => "headers"@,
        NetworkMessage::SendHeaders => "sendheaders"@,
        NetworkMessage::GetAddr => "getaddr"@,
        NetworkMessage::Ping => "ping"@,
        NetworkMessage::Pong => "pong"@,
        NetworkMessage::GetCFilters => "getcfilters"@,
        NetworkMessage::CFilter => "cfilter"@,
        NetworkMessage::GetCFHeaders => "getcfheaders"@,
        NetworkMessage::CFHeaders => "cfheaders"@,
        NetworkMessage::GetCFCheckpt => "getcfckpt"@,
        NetworkMessage::CFCheckpt => "cfcheckpt"@,
        NetworkMessage::Alert => "alert"@,
        NetworkMessage::Reject => "reject"@,
    }
}

impl Echo {
    /// A listener.
    pub fn new() -> (r: Echo)
        ensures
            r == (Echo {  }),
    {
        Echo {  }
    }

    /// The peer and the name of the message, if one came in.
    pub fn run(&self, message: &PeerMessage) -> (r: Option<(PeerId, &'static str)>)
        ensures
            match *message {
                PeerMessage::Incoming(peer, sent) => {
                    r matches Some((from, name)) && from == peer && name@ == command_text(sent)
                },
                _ => r is None,
            },
    {
        match message {
            PeerMessage::Incoming(peer, sent) => Some((*peer, Echo::command(sent))),
            _ => None,
        }
    }

    /// The name of a message in the log.
    pub fn command(message: &NetworkMessage) -> (r: &'static str)
        ensures
            r@ == command_text(*message),
    {
        match message {
            NetworkMessage::Version => "version",
            NetworkMessage::Verack => "verack",
            NetworkMessage::Addr => "addr",
            NetworkMessage::Inv(_) => "inv",
            NetworkMessage::GetData => "getdata",
            NetworkMessage::NotFound => "notfound",
            NetworkMessage::GetBlocks => "getblocks",
            NetworkMessage::GetHeaders => "getheaders",
            NetworkMessage::MemPool => "mempool",
            NetworkMessage::Tx => "tx",
            NetworkMessage::Block(_) => "block",
            NetworkMessage::Headers(_) => "headers",
            NetworkMessage::SendHeaders => "sendheaders",
            NetworkMessage::GetAddr => "getaddr",
            NetworkMessage::Ping => "ping",
            NetworkMessage::Pong => "pong",
            NetworkMessage::GetCFilters => "getcfilters",
            NetworkMessage::CFilter => "cfilter",
            NetworkMessage::GetCFHeaders => "getcfheaders",
            NetworkMessage::CFHeaders => "cfheaders",
            NetworkMessage::GetCFCheckpt => "getcfckpt",
            NetworkMessage::CFCheckpt => "cfcheckpt",
            NetworkMessage::Alert => "alert",
            NetworkMessage::Reject => "reject",
        }
    }
}

} // verus!
