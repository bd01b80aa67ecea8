//! Plain values that the node works on.
use vstd::prelude::*;

verus! {

/// A double SHA-256 digest, in the order in which it is hashed and sent.
#[derive(Clone, Copy, Debug)]
pub struct Hash256 {
    pub bytes: [u8; 32],
}

/// The digest of 32 zero bytes. It stands where a block has no predecessor.
pub open spec fn zero_hash() -> Hash256 {
    Hash256 { bytes: vstd::array::spec_array_fill_for_copy_type::<u8, 32>(0) }
}

impl Hash256 {
    /// The digest of 32 zero bytes.
    pub fn zero() -> (r: Hash256)
        ensures
            r == zero_hash(),
    {
        Hash256 { bytes: [0u8; 32] }
    }
}

impl PartialEq for Hash256 {
    fn eq(&self, other: &Self) -> (r: bool) {
        let mut i: usize = 0;
        while i < 32
            invariant
                i <= 32,
                forall|j: int| 0 <= j < i ==> self.bytes[j] == other.bytes[j],
            decreases 32 - i,
        {
            if self.bytes[i] != other.bytes[i] {
                return false;
            }
            i = i + 1;
        }
        assert(self.bytes =~= other.bytes);
        true
    }
}

impl Eq for Hash256 {

}

impl vstd::std_specs::cmp::PartialEqSpecImpl for Hash256 {
    open spec fn obeys_eq_spec() -> bool {
        true
    }

    open spec fn eq_spec(&self, other: &Self) -> bool {
        *self == *other
    }
}

/// An output of a transaction, named by the transaction and its place in it.
#[derive(Clone, Copy, Debug)]
pub struct OutPoint {
    pub txid: Hash256,
    pub vout: u32,
}

impl PartialEq for OutPoint {
    fn eq(&self, other: &Self) -> (r: bool) {
        self.txid == other.txid && self.vout == other.vout
    }
}

impl Eq for OutPoint {

}

impl vstd::std_specs::cmp::PartialEqSpecImpl for OutPoint {
    open spec fn obeys_eq_spec() -> bool {
        true
    }

    open spec fn eq_spec(&self, other: &Self) -> bool {
        *self == *other
    }
}

/// A transaction output: an amount, and the script that locks it.
#[derive(Debug, PartialEq, Eq)]
pub struct TxOut {
    pub value: u64,
    pub script_pubkey: Vec<u8>,
}

/// What a [`TxOut`] says.
pub struct TxOutView {
    pub value: u64,
    pub script_pubkey: Seq<u8>,
}

impl View for TxOut {
    type V = TxOutView;

    open spec fn view(&self) -> TxOutView {
        TxOutView { value: self.value, script_pubkey: self.script_pubkey@ }
    }
}

/// A transaction input. The witness is left out: no transaction id covers it.
#[derive(Debug, PartialEq, Eq)]
pub struct TxIn {
    pub previous_output: OutPoint,
    pub script_sig: Vec<u8>,
    pub sequence: u32,
}

/// What a [`TxIn`] says.
pub struct TxInView {
    pub previous_output: OutPoint,
    pub script_sig: Seq<u8>,
    pub sequence: u32,
}

impl View for TxIn {
    type V = TxInView;

    open spec fn view(&self) -> TxInView {
        TxInView {
            previous_output: self.previous_output,
            script_sig: self.script_sig@,
            sequence: self.sequence,
        }
    }
}

/// A transaction.
#[derive(Debug, PartialEq, Eq)]
pub struct Transaction {
    pub version: u32,
    pub lock_time: u32,
    pub input: Vec<TxIn>,
    pub output: Vec<TxOut>,
}

/// What a [`Transaction`] says.
pub struct TransactionView {
    pub version: u32,
    pub lock_time: u32,
    pub input: Seq<TxInView>,
    pub output: Seq<TxOutView>,
}

impl View for Transaction {
    type V = TransactionView;

    open spec fn view(&self) -> TransactionView {
        TransactionView {
            version: self.version,
            lock_time: self.lock_time,
            input: Seq::new(self.input@.len(), |i: int| self.input@[i]@),
            output: Seq::new(self.output@.len(), |i: int| self.output@[i]@),
        }
    }
}

/// A block header.
#[derive(Clone, Copy, Debug, PartialEq, Eq)]
pub struct BlockHeader {
    pub version: u32,
    pub prev_blockhash: Hash256,
    pub merkle_root: Hash256,
    pub time: u32,
    pub bits: u32,
    pub nonce: u32,
}

/// A block: a header and its transactions.
#[derive(Debug, PartialEq, Eq)]
pub struct Block {
    pub header: BlockHeader,
    pub txdata: Vec<Transaction>,
}

/// The transactions of a block.
pub open spec fn block_transactions(block: Block) -> Seq<TransactionView> {
    Seq::new(block.txdata@.len(), |i: int| block.txdata@[i]@)
}

/// A header together with its height in the chain.
#[derive(Clone, Copy, Debug, PartialEq, Eq)]
pub struct StoredHeader {
    pub header: BlockHeader,
    pub height: u32,
}

/// The Bitcoin networks.
#[derive(Clone, Copy, Debug, PartialEq, Eq)]
pub enum Network {
    Bitcoin,
    Testnet,
    Regtest,
}

/// A connected peer.
#[derive(Clone, Copy, Debug, PartialEq, Eq, Structural)]
pub struct PeerId {
    pub token: u64,
}

/// Where a peer can be reached: the address bits as one number, most
/// significant first, and the port.
#[derive(Clone, Copy, Debug, PartialEq, Eq, Structural)]
pub enum PeerAddress {
    V4 { ip4: u32, port: u16 },
    V6 { ip6: u128, port: u16, flowinfo: u32, scope_id: u32 },
}

/// The kinds of object that an inventory can announce.
#[derive(Clone, Copy, Debug, PartialEq, Eq, Structural)]
pub enum InvType {
    Error,
    Transaction,
    Block,
    WitnessBlock,
    WitnessTransaction,
}

/// An announced object.
#[derive(Clone, Copy, Debug, PartialEq, Eq)]
pub struct Inventory {
    pub inv_type: InvType,
    pub hash: Hash256,
}

/// A message of the Bitcoin protocol. The content is kept where the node
/// reads it.
#[derive(Debug, PartialEq, Eq)]
pub enum NetworkMessage {
    Version,
    Verack,
    Addr,
    Inv(Vec<Inventory>),
    GetData,
    NotFound,
    GetBlocks,
    GetHeaders,
    MemPool,
    Tx,
    Block(Block),
    Headers(Vec<BlockHeader>),
    SendHeaders,
    GetAddr,
    Ping,
    Pong,
    GetCFilters,
    CFilter,
    GetCFHeaders,
    CFHeaders,
    GetCFCheckpt,
    CFCheckpt,
    Alert,
    Reject,
}

/// What the network layer tells of a peer.
#[derive(Debug, PartialEq, Eq)]
pub enum PeerMessage {
    Outgoing(NetworkMessage),
    Incoming(PeerId, NetworkMessage),
    Connected(PeerId),
    Disconnected(PeerId),
}

} // verus!
