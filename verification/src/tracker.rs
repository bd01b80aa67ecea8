//! The wallet: the unspent outputs that pay to its script.
use vstd::prelude::*;

use crate::digest::{
    bitcoin_hash, from_hex, has_address, header_hash, hex_bytes, hex_digit, is_hex,
    pays_to_pubkey_hash, script_address, transaction_id, txid, address_text,
};
use crate::ledger::{
    block_events, connect_txs, lemma_total_insert, receive, receive_events, spend, spend_events,
    spent_by, total, LedgerEvent,
};
use crate::types::{
    block_transactions, Block, BlockHeader, Hash256, Network, OutPoint, TransactionView, TxIn,
    TxInView, TxOut, TxOutView,
};

verus! {

/// A wallet that watches one script.
#[derive(Debug)]
pub struct Tracker {
    script_pubkey: Vec<u8>,
    utxos: Vec<(OutPoint, TxOut)>,
}

/// What a [`Tracker`] holds.
pub struct TrackerView {
    pub script_pubkey: Seq<u8>,
    pub utxos: Map<OutPoint, TxOutView>,
}

/// What the wallet has to say of a connected block.
#[derive(Debug, PartialEq, Eq)]
pub struct BlockReport {
    /// Outputs received and spent, in order.
    pub events: Vec<LedgerEvent>,
    /// The balance before and after, where they differ.
    pub balance_change: Option<(u64, u64)>,
}

/// The map that a list of pairs stands for; a later pair goes before an
/// earlier one with the same key.
spec fn entries_map(entries: Seq<(OutPoint, TxOut)>) -> Map<OutPoint, TxOutView>
    decreases entries.len(),
{
    if entries.len() == 0 {
        Map::empty()
    } else {
        entries_map(entries.drop_last()).insert(entries.last().0, entries.last().1@)
    }
}

/// No key occurs twice.
spec fn distinct(entries: Seq<(OutPoint, TxOut)>) -> bool {
    forall|i: int, j: int|
        0 <= i < j < entries.len() ==> (#[trigger] entries[i]).0 != (#[trigger] entries[j]).0
}

/// Whether some pair has the key.
spec fn has_key(entries: Seq<(OutPoint, TxOut)>, o: OutPoint) -> bool {
    exists|i: int| 0 <= i < entries.len() && (#[trigger] entries[i]).0 == o
}

/// The sum of the amounts in a list of pairs.
spec fn entries_total(entries: Seq<(OutPoint, TxOut)>) -> nat
    decreases entries.len(),
{
    if entries.len() == 0 {
        0
    } else {
        entries_total(entries.drop_last()) + entries.last().1.value as nat
    }
}

proof fn lemma_entries_keys(entries: Seq<(OutPoint, TxOut)>)
    ensures
        forall|o: OutPoint| #[trigger]
            entries_map(entries).contains_key(o) <==> has_key(entries, o),
        entries_map(entries).dom().finite(),
    decreases entries.len(),
{
    if entries.len() > 0 {
        let before = entries.drop_last();
        lemma_entries_keys(before);
        assert forall|o: OutPoint| #[trigger]
            entries_map(entries).contains_key(o) <==> has_key(entries, o) by {
            if has_key(before, o) {
                let i = choose|i: int| 0 <= i < before.len() && (#[trigger] before[i]).0 == o;
                assert(entries[i].0 == o);
            }
            if has_key(entries, o) {
                let i = choose|i: int| 0 <= i < entries.len() && (#[trigger] entries[i]).0 == o;
                if i < before.len() {
                    assert(before[i].0 == o);
                }
            }
            if o == entries.last().0 {
                assert(entries[entries.len() - 1].0 == o);
            }
        }
    }
}

/// If no key occurs twice, none does without the last pair.
proof fn lemma_distinct_before(entries: Seq<(OutPoint, TxOut)>)
    requires
        distinct(entries),
        entries.len() > 0,
    ensures
        distinct(entries.drop_last()),
{
    let before = entries.drop_last();
    assert forall|i: int, j: int| 0 <= i < j < before.len() implies (#[trigger] before[i]).0 != (
    #[trigger] before[j]).0 by {
        assert(entries[i].0 != entries[j].0);
    }
}

proof fn lemma_entries_values(entries: Seq<(OutPoint, TxOut)>)
    requires
        distinct(entries),
    ensures
        forall|i: int|
            0 <= i < entries.len() ==> entries_map(entries)[(#[trigger] entries[i]).0]
                == entries[i].1@,
    decreases entries.len(),
{
    if entries.len() > 0 {
        let before = entries.drop_last();
        lemma_distinct_before(entries);
        lemma_entries_values(before);
        assert forall|i: int| 0 <= i < entries.len() implies entries_map(entries)[(
        #[trigger] entries[i]).0] == entries[i].1@ by {
            if i < before.len() {
                assert(before[i].0 == entries[i].0);
                assert(entries[i].0 != entries[entries.len() - 1].0);
            }
        }
    }
}

proof fn lemma_entries_total(entries: Seq<(OutPoint, TxOut)>)
    requires
        distinct(entries),
    ensures
        entries_total(entries) == total(entries_map(entries)),
    decreases entries.len(),
{
    if entries.len() > 0 {
        let before = entries.drop_last();
        let last = entries.last();
        lemma_distinct_before(entries);
        lemma_entries_total(before);
        lemma_entries_keys(before);
        assert(!has_key(before, last.0)) by {
            if has_key(before, last.0) {
                let i = choose|i: int|
                    0 <= i < before.len() && (#[trigger] before[i]).0 == last.0;
                assert(entries[i].0 != entries[entries.len() - 1].0);
            }
        }
        lemma_total_insert(entries_map(before), last.0, last.1@);
        assert(entries_map(before).remove(last.0) =~= entries_map(before));
    }
}

proof fn lemma_entries_total_take(entries: Seq<(OutPoint, TxOut)>, n: int)
    requires
        0 <= n <= entries.len(),
    ensures
        entries_total(entries.take(n)) <= entries_total(entries),
    decreases entries.len() - n,
{
    if n < entries.len() {
        lemma_entries_total_take(entries, n + 1);
        assert(entries.take(n + 1).drop_last() =~= entries.take(n));
    } else {
        assert(entries.take(n) =~= entries);
    }
}

/// A list with a pair for a new key added.
proof fn lemma_entries_push(entries: Seq<(OutPoint, TxOut)>, o: OutPoint, out: TxOut)
    requires
        distinct(entries),
        !has_key(entries, o),
    ensures
        distinct(entries.push((o, out))),
        entries_map(entries.push((o, out))) == entries_map(entries).insert(o, out@),
{
    let pushed = entries.push((o, out));
    assert(pushed.drop_last() =~= entries);
    assert forall|i: int, j: int| 0 <= i < j < pushed.len() implies (#[trigger] pushed[i]).0 != (
    #[trigger] pushed[j]).0 by {
        if j < entries.len() {
            assert(entries[i].0 != entries[j].0);
        } else {
            assert(entries[i].0 != o);
        }
    }
}

/// A list with the amount and script of one pair replaced.
proof fn lemma_entries_update(entries: Seq<(OutPoint, TxOut)>, i: int, out: TxOut)
    requires
        distinct(entries),
        0 <= i < entries.len(),
    ensures
        distinct(entries.update(i, (entries[i].0, out))),
        entries_map(entries.update(i, (entries[i].0, out))) == entries_map(entries).insert(
            entries[i].0,
            out@,
        ),
{
    let o = entries[i].0;
    let updated = entries.update(i, (o, out));
    assert forall|j: int, k: int| 0 <= j < k < updated.len() implies (#[trigger] updated[j]).0 != (
    #[trigger] updated[k]).0 by {
        assert(entries[j].0 != entries[k].0);
    }
    lemma_entries_keys(entries);
    lemma_entries_keys(updated);
    lemma_entries_values(entries);
    lemma_entries_values(updated);
    let before = entries_map(entries);
    let after = entries_map(updated);
    assert forall|q: OutPoint|
        #![trigger after.dom().contains(q)]
        #![trigger after[q]]
        after.dom().contains(q) == before.insert(o, out@).dom().contains(q) && (
        after.dom().contains(q) ==> after[q] == before.insert(o, out@)[q]) by {
        assert(after.contains_key(q) == has_key(updated, q));
        assert(before.contains_key(q) == has_key(entries, q));
        assert(updated[i].0 == o);
        if has_key(entries, q) {
            let j = choose|j: int| 0 <= j < entries.len() && (#[trigger] entries[j]).0 == q;
            assert(updated[j].0 == q);
        }
        if has_key(updated, q) {
            let j = choose|j: int| 0 <= j < updated.len() && (#[trigger] updated[j]).0 == q;
            assert(entries[j].0 == q);
        }
    }
    assert(after =~= before.insert(o, out@));
}

/// A list with one pair taken out.
proof fn lemma_entries_remove(entries: Seq<(OutPoint, TxOut)>, i: int)
    requires
        distinct(entries),
        0 <= i < entries.len(),
    ensures
        distinct(entries.remove(i)),
        entries_map(entries.remove(i)) == entries_map(entries).remove(entries[i].0),
{
    let o = entries[i].0;
    let removed = entries.remove(i);
    assert forall|j: int, k: int| 0 <= j < k < removed.len() implies (#[trigger] removed[j]).0 != (
    #[trigger] removed[k]).0 by {
        let j2 = if j < i { j } else { j + 1 };
        let k2 = if k < i { k } else { k + 1 };
        assert(entries[j2].0 != entries[k2].0);
    }
    lemma_entries_keys(entries);
    lemma_entries_keys(removed);
    lemma_entries_values(entries);
    lemma_entries_values(removed);
    let before = entries_map(entries);
    let after = entries_map(removed);
    assert forall|q: OutPoint|
        #![trigger after.dom().contains(q)]
        #![trigger after[q]]
        after.dom().contains(q) == before.remove(o).dom().contains(q) && (
        after.dom().contains(q) ==> after[q] == before.remove(o)[q]) by {
        assert(after.contains_key(q) == has_key(removed, q));
        assert(before.contains_key(q) == has_key(entries, q));
        if has_key(removed, q) {
            let j = choose|j: int| 0 <= j < removed.len() && (#[trigger] removed[j]).0 == q;
            let j2 = if j < i { j } else { j + 1 };
            assert(entries[j2].0 == q);
            if j2 < i {
                assert(entries[j2].0 != entries[i].0);
            } else {
                assert(entries[i].0 != entries[j2].0);
            }
        }
        if has_key(entries, q) && q != o {
            let j = choose|j: int| 0 <= j < entries.len() && (#[trigger] entries[j]).0 == q;
            let j2 = if j < i { j } else { j - 1 };
            assert(removed[j2].0 == q);
        }
    }
    assert(after =~= before.remove(o));
}

proof fn lemma_entries_same(a: Seq<(OutPoint, TxOut)>, b: Seq<(OutPoint, TxOut)>)
    requires
        a.len() == b.len(),
        forall|j: int|
            0 <= j < a.len() ==> (#[trigger] a[j]).0 == b[j].0 && a[j].1@ == b[j].1@,
    ensures
        entries_map(a) == entries_map(b),
    decreases a.len(),
{
    if a.len() > 0 {
        assert forall|j: int| 0 <= j < a.drop_last().len() implies (
        #[trigger] a.drop_last()[j]).0 == b.drop_last()[j].0 && a.drop_last()[j].1@
            == b.drop_last()[j].1@ by {
            assert(a[j].0 == b[j].0);
        }
        lemma_entries_same(a.drop_last(), b.drop_last());
        assert(a[a.len() - 1].0 == b[a.len() - 1].0);
    }
}

/// One more input spends one more output.
proof fn lemma_spend_one(utxos: Map<OutPoint, TxOutView>, inputs: Seq<TxInView>, i: int)
    requires
        0 <= i < inputs.len(),
    ensures
        spend(utxos, inputs.take(i + 1)) == spend(utxos, inputs.take(i)).remove(
            inputs[i].previous_output,
        ),
{
    let before = inputs.take(i);
    let after = inputs.take(i + 1);
    let o = inputs[i].previous_output;
    assert forall|q: OutPoint| #[trigger]
        spent_by(after).contains(q) <==> spent_by(before).contains(q) || q == o by {
        if spent_by(before).contains(q) {
            let j = choose|j: int|
                0 <= j < before.len() && (#[trigger] before[j]).previous_output == q;
            assert(after[j].previous_output == q);
        }
        if spent_by(after).contains(q) {
            let j = choose|j: int|
                0 <= j < after.len() && (#[trigger] after[j]).previous_output == q;
            if j < i {
                assert(before[j].previous_output == q);
            }
        }
        assert(after[i].previous_output == o);
    }
    assert(spend(utxos, after) =~= spend(utxos, before).remove(o));
}

/// What outputs say.
spec fn output_views(outputs: Seq<TxOut>) -> Seq<TxOutView> {
    Seq::new(outputs.len(), |i: int| outputs[i]@)
}

/// What inputs say.
spec fn input_views(inputs: Seq<TxIn>) -> Seq<TxInView> {
    Seq::new(inputs.len(), |i: int| inputs[i]@)
}

/// The ids of transactions.
pub open spec fn transaction_ids(txs: Seq<TransactionView>) -> Seq<Hash256> {
    Seq::new(txs.len(), |i: int| transaction_id(txs[i]))
}

/// The unspent outputs of a wallet after a block.
pub open spec fn utxos_after(wallet: TrackerView, block: Block) -> Map<OutPoint, TxOutView> {
    connect_txs(
        wallet.utxos,
        wallet.script_pubkey,
        transaction_ids(block_transactions(block)),
        block_transactions(block),
    )
}

/// Whether a report tells what a block does to a wallet: the outputs received
/// and spent, and the balance before and after where they differ.
pub open spec fn reports(report: BlockReport, wallet: TrackerView, block: Block) -> bool {
    let before = total(wallet.utxos);
    let after = total(utxos_after(wallet, block));
    &&& report.events@ == block_events(
        wallet.utxos,
        wallet.script_pubkey,
        transaction_ids(block_transactions(block)),
        block_transactions(block),
    )
    &&& match report.balance_change {
        Some((initial, last)) => before != after && initial == before && last == after,
        None => before == after,
    }
}

/// The ids of the transactions of a block.
fn block_txids(block: &Block) -> (r: Vec<Hash256>)
    ensures
        r@ == transaction_ids(block_transactions(*block)),
{
    let mut txids: Vec<Hash256> = Vec::new();
    let mut i: usize = 0;
    while i < block.txdata.len()
        invariant
            i <= block.txdata@.len(),
            txids@.len() == i,
            forall|j: int| 0 <= j < i ==> #[trigger] txids@[j] == transaction_id(block.txdata@[j]@),
        decreases block.txdata@.len() - i,
    {
        txids.push(txid(&block.txdata[i]));
        i = i + 1;
    }
    assert(txids@ =~= transaction_ids(block_transactions(*block)));
    txids
}

/// Whether two lists hold the same bytes.
fn same_bytes(a: &Vec<u8>, b: &Vec<u8>) -> (r: bool)
    ensures
        r == (a@ == b@),
{
    if a.len() != b.len() {
        return false;
    }
    let mut i: usize = 0;
    while i < a.len()
        invariant
            i <= a@.len(),
            a@.len() == b@.len(),
            forall|j: int| 0 <= j < i ==> a@[j] == b@[j],
        decreases a@.len() - i,
    {
        if a[i] != b[i] {
            return false;
        }
        i = i + 1;
    }
    assert(a@ =~= b@);
    true
}

/// A list of the same bytes.
fn copy_bytes(bytes: &Vec<u8>) -> (r: Vec<u8>)
    ensures
        r@ == bytes@,
{
    let copy = bytes.clone();
    assert(copy@ =~= bytes@);
    copy
}

/// An output that says the same.
fn copy_output(out: &TxOut) -> (r: TxOut)
    ensures
        r@ == out@,
{
    TxOut { value: out.value, script_pubkey: copy_bytes(&out.script_pubkey) }
}

/// The script that the wallet watches, in hexadecimal.
pub open spec fn wallet_script_hex() -> Seq<char> {
    "76a91402306a7c23f3e8010de41e9e591348bb83f11daa88ac"@
}

/// The script that the wallet watches. It pays to the hash of a public key.
pub open spec fn wallet_script() -> Seq<u8> {
    seq![
        0x76u8, 0xa9, 0x14, 0x02, 0x30, 0x6a, 0x7c, 0x23, 0xf3, 0xe8, 0x01,
        0x0d, 0xe4, 0x1e, 0x9e, 0x59, 0x13, 0x48, 0xbb, 0x83, 0xf1, 0x1d, 0xaa,
        0x88, 0xac,
    ]
}

proof fn lemma_wallet_script()
    ensures
        is_hex(wallet_script_hex()),
        hex_bytes(wallet_script_hex()) == wallet_script(),
        pays_to_pubkey_hash(wallet_script()),
{
    reveal_strlit("76a91402306a7c23f3e8010de41e9e591348bb83f11daa88ac");
    let text = wallet_script_hex();
    assert(text.len() == 50);
    assert forall|i: int| 0 <= i < text.len() implies hex_digit(#[trigger] text[i]) is Some by {
    }
    assert(hex_bytes(text) =~= wallet_script());
}

impl View for Tracker {
    type V = TrackerView;

    closed spec fn view(&self) -> TrackerView {
        TrackerView { script_pubkey: self.script_pubkey@, utxos: entries_map(self.utxos@) }
    }
}

/// A wallet holds finitely many outputs, so that their sum is defined.
pub proof fn law_holdings_are_finite(wallet: &Tracker)
    ensures
        wallet@.utxos.dom().finite(),
{
    lemma_entries_keys(wallet.utxos@);
}

impl Tracker {
    /// No output is held twice.
    pub closed spec fn wf(&self) -> bool {
        distinct(self.utxos@)
    }

    /// A wallet without outputs.
    pub fn new() -> (r: Tracker)
        ensures
            r.wf(),
            r@ == (TrackerView { script_pubkey: wallet_script(), utxos: Map::empty() }),
            has_address(r@.script_pubkey),
    {
        proof {
            lemma_wallet_script();
        }
        let script_pubkey = from_hex("76a91402306a7c23f3e8010de41e9e591348bb83f11daa88ac").unwrap();
        Tracker { script_pubkey, utxos: Vec::new() }
    }

    /// The address of the wallet on the regression test network, if its
    /// script has one.
    pub fn address(&self) -> (r: Option<String>)
        ensures
            r is Some <==> has_address(self@.script_pubkey),
            r matches Some(text) ==> text@ == address_text(
                self@.script_pubkey,
                Network::Regtest,
            ),
    {
        script_address(&self.script_pubkey, Network::Regtest)
    }

    /// The place of an unspent output, if it is held.
    fn position(&self, o: &OutPoint) -> (r: Option<usize>)
        ensures
            match r {
                Some(i) => i < self.utxos@.len() && self.utxos@[i as int].0 == *o,
                None => !has_key(self.utxos@, *o),
            },
    {
        let mut i: usize = 0;
        while i < self.utxos.len()
            invariant
                i <= self.utxos@.len(),
                forall|j: int| 0 <= j < i ==> (#[trigger] self.utxos@[j]).0 != *o,
            decreases self.utxos@.len() - i,
        {
            if self.utxos[i].0 == *o {
                return Some(i);
            }
            i = i + 1;
        }
        None
    }

    /// Holds an output, in place of the one with the same name if there is
    /// one.
    fn insert(&mut self, o: OutPoint, out: TxOut)
        requires
            old(self).wf(),
        ensures
            final(self).wf(),
            final(self)@ == (TrackerView {
                utxos: old(self)@.utxos.insert(o, out@),
                ..old(self)@
            }),
    {
        match self.position(&o) {
            Some(i) => {
                proof {
                    lemma_entries_update(self.utxos@, i as int, out);
                }
                self.utxos.set(i, (o, out));
            },
            None => {
                proof {
                    lemma_entries_push(self.utxos@, o, out);
                }
                self.utxos.push((o, out));
            },
        }
    }

    /// Gives up an output, and tells whether it was held.
    fn remove(&mut self, o: &OutPoint) -> (r: bool)
        requires
            old(self).wf(),
        ensures
            final(self).wf(),
            r == old(self)@.utxos.contains_key(*o),
            final(self)@ == (TrackerView { utxos: old(self)@.utxos.remove(*o), ..old(self)@ }),
    {
        proof {
            lemma_entries_keys(self.utxos@);
        }
        match self.position(o) {
            Some(i) => {
                proof {
                    lemma_entries_remove(self.utxos@, i as int);
                }
                let _ = self.utxos.remove(i);
                true
            },
            None => {
                assert(self@.utxos.remove(*o) =~= self@.utxos);
                false
            },
        }
    }

    /// Takes in the outputs of a transaction that pay to the wallet.
    fn receive_outputs(
        &mut self,
        txid: Hash256,
        outputs: &Vec<TxOut>,
        events: &mut Vec<LedgerEvent>,
    )
        requires
            old(self).wf(),
        ensures
            final(self).wf(),
            final(self)@ == (TrackerView {
                utxos: receive(
                    old(self)@.utxos,
                    old(self)@.script_pubkey,
                    txid,
                    output_views(outputs@),
                ),
                ..old(self)@
            }),
            final(events)@ == old(events)@ + receive_events(
                old(self)@.script_pubkey,
                txid,
                output_views(outputs@),
            ),
    {
        let ghost before = self@;
        let ghost views = output_views(outputs@);
        let mut index: usize = 0;
        assert(events@ =~= old(events)@ + receive_events(
            before.script_pubkey,
            txid,
            views.take(0),
        ));
        while index < outputs.len()
            invariant
                index <= outputs@.len(),
                views == output_views(outputs@),
                self.wf(),
                self@ == (TrackerView {
                    utxos: receive(
                        before.utxos,
                        before.script_pubkey,
                        txid,
                        views.take(index as int),
                    ),
                    ..before
                }),
                events@ == old(events)@ + receive_events(
                    before.script_pubkey,
                    txid,
                    views.take(index as int),
                ),
            decreases outputs@.len() - index,
        {
            let vout = &outputs[index];
            proof {
                assert(views.take(index + 1).drop_last() =~= views.take(index as int));
                assert(views.take(index + 1).last() == vout@);
            }
            if same_bytes(&self.script_pubkey, &vout.script_pubkey) {
                let o = OutPoint { txid, vout: index as u32 };
                events.push(LedgerEvent::Receive(o));
                self.insert(o, copy_output(vout));
                assert(events@ =~= old(events)@ + receive_events(
                    before.script_pubkey,
                    txid,
                    views.take(index + 1),
                ));
            }
            index = index + 1;
        }
        assert(views.take(index as int) =~= views);
    }

    /// Gives up the outputs that the inputs of a transaction spend.
    fn spend_inputs(&mut self, inputs: &Vec<TxIn>, events: &mut Vec<LedgerEvent>)
        requires
            old(self).wf(),
        ensures
            final(self).wf(),
            final(self)@ == (TrackerView {
                utxos: spend(old(self)@.utxos, input_views(inputs@)),
                ..old(self)@
            }),
            final(events)@ == old(events)@ + spend_events(
                old(self)@.utxos,
                input_views(inputs@),
            ),
    {
        let ghost before = self@;
        let ghost views = input_views(inputs@);
        let mut i: usize = 0;
        proof {
            assert(spend(before.utxos, views.take(0)) =~= before.utxos);
            assert(events@ =~= old(events)@ + spend_events(before.utxos, views.take(0)));
        }
        while i < inputs.len()
            invariant
                i <= inputs@.len(),
                views == input_views(inputs@),
                self.wf(),
                self@ == (TrackerView {
                    utxos: spend(before.utxos, views.take(i as int)),
                    ..before
                }),
                events@ == old(events)@ + spend_events(before.utxos, views.take(i as int)),
            decreases inputs@.len() - i,
        {
            let o = inputs[i].previous_output;
            proof {
                assert(views.take(i + 1).drop_last() =~= views.take(i as int));
                assert(views.take(i + 1).last().previous_output == o);
                lemma_spend_one(before.utxos, views, i as int);
            }
            if self.remove(&o) {
                events.push(LedgerEvent::Spend(o));
                assert(events@ =~= old(events)@ + spend_events(before.utxos, views.take(i + 1)));
            }
            i = i + 1;
        }
        assert(views.take(i as int) =~= views);
    }

    /// Does to the unspent outputs what the transactions of a block do, where
    /// `txids` are their ids, and reports it.
    pub fn connect_block(&mut self, block: &Block, txids: &Vec<Hash256>) -> (r: Vec<LedgerEvent>)
        requires
            old(self).wf(),
            txids@.len() == block.txdata@.len(),
        ensures
            final(self).wf(),
            final(self)@ == (TrackerView {
                utxos: connect_txs(
                    old(self)@.utxos,
                    old(self)@.script_pubkey,
                    txids@,
                    block_transactions(*block),
                ),
                ..old(self)@
            }),
            r@ == block_events(
                old(self)@.utxos,
                old(self)@.script_pubkey,
                txids@,
                block_transactions(*block),
            ),
    {
        let ghost before = self@;
        let ghost txs = block_transactions(*block);
        let mut events: Vec<LedgerEvent> = Vec::new();
        let mut i: usize = 0;
        while i < block.txdata.len()
            invariant
                i <= block.txdata@.len(),
                txids@.len() == block.txdata@.len(),
                txs == block_transactions(*block),
                self.wf(),
                self@ == (TrackerView {
                    utxos: connect_txs(
                        before.utxos,
                        before.script_pubkey,
                        txids@.take(i as int),
                        txs.take(i as int),
                    ),
                    ..before
                }),
                events@ == block_events(
                    before.utxos,
                    before.script_pubkey,
                    txids@.take(i as int),
                    txs.take(i as int),
                ),
            decreases block.txdata@.len() - i,
        {
            let tx = &block.txdata[i];
            proof {
                assert(txs.take(i + 1).drop_last() =~= txs.take(i as int));
                assert(txids@.take(i + 1).drop_last() =~= txids@.take(i as int));
                assert(txs.take(i + 1).last() == tx@);
                assert(txids@.take(i + 1).last() == txids@[i as int]);
                assert(output_views(tx.output@) =~= tx@.output);
                assert(input_views(tx.input@) =~= tx@.input);
            }
            self.receive_outputs(txids[i], &tx.output, &mut events);
            self.spend_inputs(&tx.input, &mut events);
            assert(events@ =~= block_events(
                before.utxos,
                before.script_pubkey,
                txids@.take(i + 1),
                txs.take(i + 1),
            ));
            i = i + 1;
        }
        assert(txs.take(i as int) =~= txs);
        assert(txids@.take(i as int) =~= txids@);
        events
    }

    /// Does to the unspent outputs what the transactions of a block do, and
    /// reports it together with the change of the balance.
    pub fn block_connected(&mut self, block: &Block, _height: u32) -> (r: BlockReport)
        requires
            old(self).wf(),
            total(old(self)@.utxos) <= u64::MAX,
            total(utxos_after(old(self)@, *block)) <= u64::MAX,
        ensures
            final(self).wf(),
            final(self)@ == (TrackerView {
                utxos: utxos_after(old(self)@, *block),
                ..old(self)@
            }),
            reports(r, old(self)@, *block),
    {
        let initial_balance = self.balance();
        let txids = block_txids(block);
        let events = self.connect_block(block, &txids);
        let final_balance = self.balance();
        let balance_change = if initial_balance != final_balance {
            Some((initial_balance, final_balance))
        } else {
            None
        };
        BlockReport { events, balance_change }
    }

    /// As [`Tracker::block_connected`], where the balance is found to be an
    /// amount before and after the block; else nothing, and nothing changes.
    pub fn try_block_connected(&mut self, block: &Block, height: u32) -> (r: Option<BlockReport>)
        requires
            old(self).wf(),
        ensures
            final(self).wf(),
            r is Some <==> total(old(self)@.utxos) <= u64::MAX && total(
                utxos_after(old(self)@, *block),
            ) <= u64::MAX,
            match r {
                Some(report) => {
                    &&& final(self)@ == (TrackerView {
                        utxos: utxos_after(old(self)@, *block),
                        ..old(self)@
                    })
                    &&& reports(report, old(self)@, *block)
                },
                None => *final(self) == *old(self),
            },
    {
        if self.checked_balance().is_none() {
            return None;
        }
        let mut trial = self.copy();
        let txids = block_txids(block);
        let _ = trial.connect_block(block, &txids);
        if trial.checked_balance().is_none() {
            return None;
        }
        Some(self.block_connected(block, height))
    }

    /// A header was added to the chain. The wallet does not change; the hash
    /// of the header is for display.
    pub fn header_connected(&mut self, header: &BlockHeader, _height: u32) -> (r: Hash256)
        ensures
            *final(self) == *old(self),
            r == header_hash(*header),
    {
        bitcoin_hash(header)
    }

    /// A block left the trunk. The wallet does not change; the hash of the
    /// header is for display.
    pub fn block_disconnected(&mut self, header: &BlockHeader) -> (r: Hash256)
        ensures
            *final(self) == *old(self),
            r == header_hash(*header),
    {
        bitcoin_hash(header)
    }

    /// A wallet with the same script and outputs.
    fn copy(&self) -> (r: Tracker)
        requires
            self.wf(),
        ensures
            r.wf(),
            r@ == self@,
    {
        let mut utxos: Vec<(OutPoint, TxOut)> = Vec::new();
        let mut i: usize = 0;
        while i < self.utxos.len()
            invariant
                i <= self.utxos@.len(),
                utxos@.len() == i,
                forall|j: int|
                    0 <= j < i ==> (#[trigger] utxos@[j]).0 == self.utxos@[j].0 && utxos@[j].1@
                        == self.utxos@[j].1@,
            decreases self.utxos@.len() - i,
        {
            utxos.push((self.utxos[i].0, copy_output(&self.utxos[i].1)));
            i = i + 1;
        }
        proof {
            assert forall|j: int, k: int| 0 <= j < k < utxos@.len() implies (
            #[trigger] utxos@[j]).0 != (#[trigger] utxos@[k]).0 by {
                assert(self.utxos@[j].0 != self.utxos@[k].0);
            }
            lemma_entries_same(utxos@, self.utxos@);
        }
        Tracker { script_pubkey: copy_bytes(&self.script_pubkey), utxos }
    }

    /// The sum of the unspent outputs, if it is an amount.
    pub fn checked_balance(&self) -> (r: Option<u64>)
        requires
            self.wf(),
        ensures
            match r {
                Some(sum) => sum == total(self@.utxos),
                None => total(self@.utxos) > u64::MAX,
            },
    {
        let mut sum: u64 = 0;
        let mut i: usize = 0;
        proof {
            lemma_entries_total(self.utxos@);
        }
        while i < self.utxos.len()
            invariant
                i <= self.utxos@.len(),
                sum == entries_total(self.utxos@.take(i as int)),
                entries_total(self.utxos@) == total(self@.utxos),
            decreases self.utxos@.len() - i,
        {
            proof {
                lemma_entries_total_take(self.utxos@, i + 1);
                assert(self.utxos@.take(i + 1).drop_last() =~= self.utxos@.take(i as int));
            }
            match sum.checked_add(self.utxos[i].1.value) {
                Some(next) => {
                    sum = next;
                },
                None => {
                    return None;
                },
            }
            i = i + 1;
        }
        assert(self.utxos@.take(i as int) =~= self.utxos@);
        Some(sum)
    }

    /// The sum of the unspent outputs.
    pub fn balance(&self) -> (r: u64)
        requires
            self.wf(),
            total(self@.utxos) <= u64::MAX,
        ensures
            r == total(self@.utxos),
    {
        self.checked_balance().unwrap()
    }
}

} // verus!
