//! Digests, addresses and hexadecimal text, as the `bitcoin` and
//! `bitcoin_hashes` crates compute them.
use bitcoin::BitcoinHash;
use bitcoin_hashes::hex::FromHex;
use bitcoin_hashes::{sha256d, Hash as Digest};
use vstd::prelude::*;

use crate::types::{BlockHeader, Hash256, Network, Transaction, TransactionView};

verus! {

/// The block hash of a header: the double SHA-256 of its 80 serialized bytes.
pub uninterp spec fn header_hash(header: BlockHeader) -> Hash256;

/// Calls `bitcoin::BitcoinHash::bitcoin_hash` on the header. What it returns
/// is a function of the six fields, here named [`header_hash`].
#[verifier::external_body]
pub(crate) fn bitcoin_hash(header: &BlockHeader) -> (r: Hash256)
    ensures
        r == header_hash(*header),
{
    let outside = bitcoin::BlockHeader {
        version: header.version,
        prev_blockhash: sha256d::Hash::from_inner(header.prev_blockhash.bytes),
        merkle_root: sha256d::Hash::from_inner(header.merkle_root.bytes),
        time: header.time,
        bits: header.bits,
        nonce: header.nonce,
    };
    Hash256 { bytes: outside.bitcoin_hash().into_inner() }
}

/// The id of a transaction: the double SHA-256 of its serialization without
/// witnesses.
pub uninterp spec fn transaction_id(tx: TransactionView) -> Hash256;

/// Calls `bitcoin::Transaction::txid`. What it returns is a function of the
/// version, the lock time, the inputs without their witnesses and the
/// outputs, here named [`transaction_id`].
#[verifier::external_body]
pub(crate) fn txid(tx: &Transaction) -> (r: Hash256)
    ensures
        r == transaction_id(tx@),
{
    let input = tx.input.iter().map(|i| bitcoin::TxIn {
        previous_output: bitcoin::OutPoint::new(
            sha256d::Hash::from_inner(i.previous_output.txid.bytes), i.previous_output.vout),
        script_sig: i.script_sig.clone().into(),
        sequence: i.sequence,
        witness: vec![],
    }).collect();
    let output = tx.output.iter().map(|o| bitcoin::TxOut {
        value: o.value,
        script_pubkey: o.script_pubkey.clone().into(),
    }).collect();
    let outside = bitcoin::Transaction { version: tx.version, lock_time: tx.lock_time, input, output };
    Hash256 { bytes: outside.txid().into_inner() }
}

/// A script that pays to the hash of a public key.
pub open spec fn pays_to_pubkey_hash(script: Seq<u8>) -> bool {
    &&& script.len() == 25
    &&& script[0] == 0x76
    &&& script[1] == 0xa9
    &&& script[2] == 0x14
    &&& script[23] == 0x88
    &&& script[24] == 0xac
}

/// A script that pays to the hash of another script.
pub open spec fn pays_to_script_hash(script: Seq<u8>) -> bool {
    &&& script.len() == 23
    &&& script[0] == 0xa9
    &&& script[1] == 0x14
    &&& script[22] == 0x87
}

/// A script that pays to a witness program: a version, then one push of 2 to
/// 40 bytes.
pub open spec fn pays_to_witness_program(script: Seq<u8>) -> bool {
    &&& 4 <= script.len() <= 42
    &&& script[0] == 0 || 0x51 <= script[0] <= 0x60
    &&& 2 <= script[1] <= 40
    &&& script.len() - 2 == script[1]
}

/// The scripts that have an address.
pub open spec fn has_address(script: Seq<u8>) -> bool {
    ||| pays_to_pubkey_hash(script)
    ||| pays_to_script_hash(script)
    ||| pays_to_witness_program(script)
}

/// The text of the address that a script pays to, on a network.
pub uninterp spec fn address_text(script: Seq<u8>, network: Network) -> Seq<char>;

/// Calls `bitcoin::Address::from_script` and writes the address out. There
/// is an address exactly for the three forms of script that [`has_address`]
/// lists; its text is a function of the script and the network, here named
/// [`address_text`].
#[verifier::external_body]
pub(crate) fn script_address(script: &Vec<u8>, network: Network) -> (r: Option<String>)
    ensures
        r is Some <==> has_address(script@),
        r matches Some(text) ==> text@ == address_text(script@, network),
{
    let outside = match network {
        Network::Bitcoin => bitcoin::Network::Bitcoin,
        Network::Testnet => bitcoin::Network::Testnet,
        Network::Regtest => bitcoin::Network::Regtest,
    };
    bitcoin::Address::from_script(&script.clone().into(), outside).map(|a| a.to_string())
}

/// The value of a hexadecimal digit.
pub open spec fn hex_digit(c: char) -> Option<int> {
    if '0' <= c <= '9' {
        Some(c as int - '0' as int)
    } else if 'a' <= c <= 'f' {
        Some(c as int - 'a' as int + 10)
    } else if 'A' <= c <= 'F' {
        Some(c as int - 'A' as int + 10)
    } else {
        None
    }
}

/// Text made of pairs of hexadecimal digits.
pub open spec fn is_hex(text: Seq<char>) -> bool {
    &&& text.len() % 2 == 0
    &&& forall|i: int| 0 <= i < text.len() ==> hex_digit(#[trigger] text[i]) is Some
}

/// The bytes that pairs of hexadecimal digits stand for.
pub open spec fn hex_bytes(text: Seq<char>) -> Seq<u8> {
    Seq::new(
        text.len() / 2,
        |i: int| (16 * hex_digit(text[2 * i])->0 + hex_digit(text[2 * i + 1])->0) as u8,
    )
}

/// The error of hexadecimal decoding.
#[verifier::external_type_specification]
#[verifier::external_body]
pub struct ExHexError(bitcoin_hashes::hex::Error);

/// Calls `bitcoin_hashes::hex::FromHex::from_hex` for bytes. Text of odd
/// length and text with any other character than a hexadecimal digit, of
/// either case, is an error; other text gives one byte for each pair of
/// digits, the first digit the higher half.
#[verifier::external_body]
pub(crate) fn from_hex(text: &str) -> (r: Result<Vec<u8>, bitcoin_hashes::hex::Error>)
    ensures
        r is Ok <==> is_hex(text@),
        r matches Ok(bytes) ==> bytes@ == hex_bytes(text@),
{
    Vec::<u8>::from_hex(text)
}

} // verus!
