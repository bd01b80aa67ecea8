use bitcoin_hashes::Hash as Digest;
use spv_node::ledger::LedgerEvent;
use spv_node::tracker::{BlockReport, Tracker};
use spv_node::types::{Block, BlockHeader, Hash256, OutPoint, Transaction, TxIn, TxOut};

const WALLET: &str = "76a91402306a7c23f3e8010de41e9e591348bb83f11daa88ac";

fn unhex(text: &str) -> Vec<u8> {
    (0..text.len() / 2).map(|i| u8::from_str_radix(&text[2 * i..2 * i + 2], 16).unwrap()).collect()
}

fn hash(byte: u8) -> Hash256 {
    Hash256 { bytes: [byte; 32] }
}

fn hash_of_hex(text: &str) -> Hash256 {
    let mut bytes = [0u8; 32];
    bytes.copy_from_slice(&unhex(text));
    Hash256 { bytes }
}

fn header() -> BlockHeader {
    BlockHeader {
        version: 1,
        prev_blockhash: Hash256::zero(),
        merkle_root: hash_of_hex("3ba3edfd7a7b12b27ac72c3e67768f617fc81bc3888a51323a9fb8aa4b1e5e4a"),
        time: 1296688602,
        bits: 0x207fffff,
        nonce: 2,
    }
}

fn pay(value: u64) -> TxOut {
    TxOut { value, script_pubkey: unhex(WALLET) }
}

fn pay_other(value: u64) -> TxOut {
    TxOut { value, script_pubkey: vec![0x51] }
}

fn spend(txid: Hash256, vout: u32) -> TxIn {
    TxIn { previous_output: OutPoint { txid, vout }, script_sig: vec![], sequence: 0xffff_ffff }
}

fn tx(input: Vec<TxIn>, output: Vec<TxOut>) -> Transaction {
    Transaction { version: 1, lock_time: 0, input, output }
}

fn block(txdata: Vec<Transaction>) -> Block {
    Block { header: header(), txdata }
}

fn coinbase() -> Transaction {
    let mut input = spend(Hash256::zero(), 0xffff_ffff);
    input.script_sig = vec![0x51];
    tx(vec![input], vec![pay(5000), pay_other(700), pay(80)])
}

fn received(txid: Hash256, vout: u32) -> LedgerEvent {
    LedgerEvent::Receive(OutPoint { txid, vout })
}

fn spent(txid: Hash256, vout: u32) -> LedgerEvent {
    LedgerEvent::Spend(OutPoint { txid, vout })
}

#[test]
fn new_wallet_is_empty() {
    let tracker = Tracker::new();
    assert_eq!(tracker.balance(), 0);
    assert_eq!(tracker.checked_balance(), Some(0));
}

#[test]
fn wallet_address() {
    assert_eq!(Tracker::new().address(), Some("mfiXeSKS6Z6chqTj3ym4Afs7gzKquYKf6Q".to_string()));
}

#[test]
fn block_pays_to_wallet() {
    let mut tracker = Tracker::new();
    let report = tracker.block_connected(&block(vec![coinbase()]), 1);
    let txid = hash_of_hex("7dd068f42ff1d51ebcf2da4a2856ab13893e551315eb6a01c4b02f5ab8ef71fc");
    assert_eq!(
        report,
        BlockReport {
            events: vec![received(txid, 0), received(txid, 2)],
            balance_change: Some((0, 5080)),
        }
    );
    assert_eq!(tracker.balance(), 5080);
}

#[test]
fn transaction_id_is_that_of_the_bitcoin_crate() {
    let outside = bitcoin::Transaction {
        version: 2,
        lock_time: 77,
        input: vec![bitcoin::TxIn {
            previous_output: bitcoin::OutPoint::new(
                bitcoin_hashes::sha256d::Hash::from_inner([9; 32]),
                3,
            ),
            script_sig: bitcoin::Script::from(vec![1, 2]),
            sequence: 5,
            witness: vec![vec![1, 2, 3]],
        }],
        output: vec![bitcoin::TxOut {
            value: 11,
            script_pubkey: bitcoin::Script::from(unhex(WALLET)),
        }],
    };
    let mut input = spend(hash(9), 3);
    input.script_sig = vec![1, 2];
    input.sequence = 5;
    let ours = Transaction { version: 2, lock_time: 77, input: vec![input], output: vec![pay(11)] };
    let report = Tracker::new().block_connected(&block(vec![ours]), 0);
    let txid = Hash256 { bytes: outside.txid().into_inner() };
    assert_eq!(report.events, vec![received(txid, 0)]);
}

#[test]
fn spending_lowers_the_balance() {
    let mut tracker = Tracker::new();
    let first = block(vec![tx(vec![], vec![pay(10), pay(32)])]);
    let ids = vec![hash(1)];
    assert_eq!(tracker.connect_block(&first, &ids), vec![received(hash(1), 0), received(hash(1), 1)]);
    assert_eq!(tracker.balance(), 42);
    let second = block(vec![tx(vec![spend(hash(1), 0), spend(hash(7), 0)], vec![pay_other(9)])]);
    assert_eq!(tracker.connect_block(&second, &vec![hash(2)]), vec![spent(hash(1), 0)]);
    assert_eq!(tracker.balance(), 32);
    assert_eq!(tracker.connect_block(&second, &vec![hash(2)]), vec![]);
    assert_eq!(tracker.balance(), 32);
}

#[test]
fn output_spent_in_the_same_block() {
    let mut tracker = Tracker::new();
    let both = block(vec![
        tx(vec![], vec![pay(10)]),
        tx(vec![spend(hash(1), 0)], vec![pay_other(9)]),
    ]);
    let events = tracker.connect_block(&both, &vec![hash(1), hash(2)]);
    assert_eq!(events, vec![received(hash(1), 0), spent(hash(1), 0)]);
    assert_eq!(tracker.balance(), 0);
}

#[test]
fn transaction_that_spends_its_own_output() {
    let mut tracker = Tracker::new();
    let own = block(vec![tx(vec![spend(hash(1), 0), spend(hash(1), 0)], vec![pay(10)])]);
    let events = tracker.connect_block(&own, &vec![hash(1)]);
    assert_eq!(events, vec![received(hash(1), 0), spent(hash(1), 0)]);
    assert_eq!(tracker.balance(), 0);
}

#[test]
fn spend_before_receive_does_not_count() {
    let mut tracker = Tracker::new();
    let both = block(vec![
        tx(vec![spend(hash(2), 0)], vec![]),
        tx(vec![], vec![pay(10)]),
    ]);
    let events = tracker.connect_block(&both, &vec![hash(1), hash(2)]);
    assert_eq!(events, vec![received(hash(2), 0)]);
    assert_eq!(tracker.balance(), 10);
}

#[test]
fn output_with_the_same_name_takes_the_place() {
    let mut tracker = Tracker::new();
    let _ = tracker.connect_block(&block(vec![tx(vec![], vec![pay(10)])]), &vec![hash(1)]);
    let _ = tracker.connect_block(&block(vec![tx(vec![], vec![pay(3)])]), &vec![hash(1)]);
    assert_eq!(tracker.balance(), 3);
}

#[test]
fn foreign_block_changes_nothing() {
    let mut tracker = Tracker::new();
    let _ = tracker.connect_block(&block(vec![tx(vec![], vec![pay(10)])]), &vec![hash(1)]);
    let foreign = block(vec![tx(vec![spend(hash(5), 0)], vec![pay_other(1)])]);
    let report = tracker.block_connected(&foreign, 2);
    assert_eq!(report, BlockReport { events: vec![], balance_change: None });
    assert_eq!(tracker.balance(), 10);
}

#[test]
fn balance_that_stays_is_no_change() {
    let mut tracker = Tracker::new();
    let _ = tracker.connect_block(&block(vec![tx(vec![], vec![pay(10)])]), &vec![hash(1)]);
    let exchange = block(vec![tx(vec![spend(hash(1), 0)], vec![pay(10)])]);
    let report = tracker.block_connected(&exchange, 2);
    assert_eq!(report.events.len(), 2);
    assert_eq!(report.balance_change, None);
}

#[test]
fn balance_beyond_an_amount_is_refused() {
    let mut tracker = Tracker::new();
    assert!(tracker.try_block_connected(&block(vec![tx(vec![], vec![pay(u64::MAX)])]), 1).is_some());
    assert_eq!(tracker.balance(), u64::MAX);
    assert_eq!(tracker.try_block_connected(&block(vec![tx(vec![], vec![pay(1)])]), 2), None);
    assert_eq!(tracker.balance(), u64::MAX);
    let ids = vec![hash(1)];
    let _ = tracker.connect_block(&block(vec![tx(vec![], vec![pay(1)])]), &ids);
    assert_eq!(tracker.checked_balance(), None);
    assert_eq!(tracker.try_block_connected(&block(vec![]), 3), None);
}

#[test]
fn headers_do_not_change_the_wallet() {
    let mut tracker = Tracker::new();
    let genesis = hash_of_hex("06226e46111a0b59caaf126043eb5bbf28c34f3a5e332a1fc7b2b73cf188910f");
    assert_eq!(tracker.header_connected(&header(), 0), genesis);
    assert_eq!(tracker.block_disconnected(&header()), genesis);
    assert_eq!(tracker.balance(), 0);
}

#[test]
fn unspent_output_is_held() {
    let mut tracker = Tracker::new();
    let txs = vec![
        tx(vec![], vec![pay(10), pay(32)]),
        tx(vec![spend(hash(1), 0)], vec![pay_other(9), pay(1)]),
        tx(vec![spend(hash(9), 1)], vec![]),
    ];
    let _ = tracker.connect_block(&block(txs), &vec![hash(1), hash(2), hash(3)]);
    assert_eq!(tracker.balance(), 33);
}

#[test]
fn two_blocks_do_what_one_does() {
    let first = || tx(vec![], vec![pay(10), pay(32)]);
    let second = || tx(vec![spend(hash(1), 0)], vec![pay(4)]);
    let mut apart = Tracker::new();
    let mut events = apart.connect_block(&block(vec![first()]), &vec![hash(1)]);
    events.extend(apart.connect_block(&block(vec![second()]), &vec![hash(2)]));
    let mut together = Tracker::new();
    let ids = vec![hash(1), hash(2)];
    assert_eq!(together.connect_block(&block(vec![first(), second()]), &ids), events);
    assert_eq!(apart.balance(), 36);
    assert_eq!(together.balance(), 36);
}

#[test]
fn amounts_add_up() {
    let mut tracker = Tracker::new();
    let outputs: Vec<TxOut> = (1..=100).map(pay).collect();
    let _ = tracker.connect_block(&block(vec![tx(vec![], outputs)]), &vec![hash(1)]);
    assert_eq!(tracker.balance(), 5050);
    let inputs: Vec<TxIn> = (0..50).map(|i| spend(hash(1), i)).collect();
    let _ = tracker.connect_block(&block(vec![tx(inputs, vec![])]), &vec![hash(2)]);
    assert_eq!(tracker.balance(), 3775);
}

#[test]
fn block_twice_is_block_once() {
    let mut tracker = Tracker::new();
    let _ = tracker.connect_block(&block(vec![tx(vec![], vec![pay(7)])]), &vec![hash(9)]);
    let both = block(vec![
        tx(vec![spend(hash(9), 0)], vec![pay(10), pay(32)]),
        tx(vec![spend(hash(1), 0)], vec![pay(4)]),
    ]);
    let ids = vec![hash(1), hash(2)];
    let _ = tracker.connect_block(&both, &ids);
    assert_eq!(tracker.balance(), 36);
    let again = tracker.connect_block(&both, &ids);
    assert_eq!(tracker.balance(), 36);
    assert_eq!(again.len(), 4);
}

#[test]
fn balance_over_a_block() {
    let mut tracker = Tracker::new();
    let held = tx(vec![], vec![pay(100), pay(20)]);
    let _ = tracker.connect_block(&block(vec![held]), &vec![hash(9)]);
    let both = block(vec![
        tx(vec![spend(hash(9), 0)], vec![pay(10), pay_other(60), pay(32)]),
        tx(vec![spend(hash(1), 0)], vec![pay(4)]),
    ]);
    let _ = tracker.connect_block(&both, &vec![hash(1), hash(2)]);
    assert_eq!(tracker.balance(), 120 + (32 + 4) - 100);
}
