//! What holds of the wallet after a block, in terms of the transactions of the
//! block.
use vstd::prelude::*;

use crate::digest::transaction_id;
use crate::ledger::{connect_txs, outpoint, spent_by, total, LedgerEvent};
use crate::ledger_laws::{
    law_block_receives, law_block_spends, law_held_after_tx, law_held_spend_is_reported,
    law_spent_is_gone, law_unspent_is_held, law_untouched_stays, makes, pays, takes,
};
use crate::tracker::{reports, transaction_ids, utxos_after, BlockReport, TrackerView};
use crate::types::{block_transactions, Block, Hash256, OutPoint, TransactionView};

verus! {

/// Whether the output in place `i` of the transaction in place `k` pays to the
/// wallet.
pub open spec fn pays_wallet(wallet: TrackerView, block: Block, k: int, i: int) -> bool {
    &&& 0 <= k < block.txdata@.len()
    &&& 0 <= i < block.txdata@[k].output@.len()
    &&& block.txdata@[k].output@[i].script_pubkey@ == wallet.script_pubkey
}

/// The name of that output: the id of its own transaction, and its place there.
pub open spec fn output_name(block: Block, k: int, i: int) -> OutPoint {
    OutPoint { txid: transaction_id(block.txdata@[k]@), vout: i as u32 }
}

/// Whether the input in place `i` of the transaction in place `k` spends an output.
pub open spec fn spends(block: Block, k: int, i: int, o: OutPoint) -> bool {
    &&& 0 <= k < block.txdata@.len()
    &&& 0 <= i < block.txdata@[k].input@.len()
    &&& block.txdata@[k].input@[i].previous_output == o
}

/// The laws on lists of ids and transactions speak of the block when they speak
/// of its transactions and their ids.
proof fn lemma_block_terms(wallet: TrackerView, block: Block, k: int, o: OutPoint)
    requires
        0 <= k < block.txdata@.len(),
    ensures
        ({
            let txs = block_transactions(block);
            let ids = transaction_ids(txs);
            &&& txs.len() == block.txdata@.len()
            &&& ids.len() == txs.len()
            &&& ids[k] == transaction_id(block.txdata@[k]@)
            &&& txs[k] == block.txdata@[k]@
            &&& makes(wallet.script_pubkey, ids, txs, k, o) <==> exists|i: int| #[trigger]
                pays_wallet(wallet, block, k, i) && output_name(block, k, i) == o
            &&& spent_by(txs[k].input).contains(o) <==> exists|i: int| #[trigger]
                spends(block, k, i, o)
        }),
{
    let txs = block_transactions(block);
    let ids = transaction_ids(txs);
    let tx = block.txdata@[k];
    assert(txs[k] == tx@);
    if makes(wallet.script_pubkey, ids, txs, k, o) {
        let outputs = txs[k].output;
        let i = choose|i: int|
            0 <= i < outputs.len() && (#[trigger] outputs[i]).script_pubkey
                == wallet.script_pubkey && outpoint(ids[k], i) == o;
        assert(outputs[i] == tx.output@[i]@);
        assert(pays_wallet(wallet, block, k, i));
        assert(output_name(block, k, i) == o);
    }
    if exists|i: int| #[trigger]
        pays_wallet(wallet, block, k, i) && output_name(block, k, i) == o {
        let i = choose|i: int| #[trigger]
            pays_wallet(wallet, block, k, i) && output_name(block, k, i) == o;
        assert(txs[k].output[i] == tx.output@[i]@);
        assert(pays(wallet.script_pubkey, ids[k], txs[k].output, o));
    }
    if spent_by(txs[k].input).contains(o) {
        let inputs = txs[k].input;
        let i = choose|i: int|
            0 <= i < inputs.len() && (#[trigger] inputs[i]).previous_output == o;
        assert(inputs[i] == tx.input@[i]@);
        assert(spends(block, k, i, o));
    }
    if exists|i: int| #[trigger] spends(block, k, i, o) {
        let i = choose|i: int| #[trigger] spends(block, k, i, o);
        assert(txs[k].input[i] == tx.input@[i]@);
        assert(txs[k].input[i].previous_output == o);
    }
}

/// An output that pays to the wallet, and that neither its own transaction nor a
/// later one of the block spends, is held after the block under the id of its own
/// transaction and its place in it. It is held as it is, unless a later
/// transaction is another one with the same id.
pub proof fn law_output_held_under_own_id(wallet: TrackerView, block: Block, k: int, i: int)
    requires
        pays_wallet(wallet, block, k, i),
        block.txdata@[k].output@.len() <= 0x1_0000_0000,
        forall|j: int, m: int|
            k <= j ==> !#[trigger] spends(block, j, m, output_name(block, k, i)),
    ensures
        utxos_after(wallet, block).contains_key(output_name(block, k, i)),
        (forall|j: int|
            k < j < block.txdata@.len() && transaction_id(#[trigger] block.txdata@[j]@)
                == transaction_id(block.txdata@[k]@) ==> block.txdata@[j]@ == block.txdata@[k]@)
            ==> utxos_after(wallet, block)[output_name(block, k, i)]
            == block.txdata@[k].output@[i]@,
    decreases block.txdata@.len() - k,
{
    let txs = block_transactions(block);
    let ids = transaction_ids(txs);
    let o = output_name(block, k, i);
    lemma_block_terms(wallet, block, k, o);
    assert(txs[k].output[i] == block.txdata@[k].output@[i]@);
    assert forall|j: int| k <= j < txs.len() implies !spent_by((#[trigger] txs[j]).input).contains(
        outpoint(ids[k], i),
    ) by {
        lemma_block_terms(wallet, block, j, o);
    }
    law_unspent_is_held(wallet.utxos, wallet.script_pubkey, ids, txs, k, i);
    if forall|j: int|
        k < j < block.txdata@.len() && transaction_id(#[trigger] block.txdata@[j]@)
            == transaction_id(block.txdata@[k]@) ==> block.txdata@[j]@ == block.txdata@[k]@ {
        if exists|j: int|
            k < j < block.txdata@.len() && transaction_id(#[trigger] block.txdata@[j]@)
                == transaction_id(block.txdata@[k]@) {
            let j = choose|j: int|
                k < j < block.txdata@.len() && transaction_id(#[trigger] block.txdata@[j]@)
                    == transaction_id(block.txdata@[k]@);
            assert(block.txdata@[j]@ == block.txdata@[k]@);
            assert(block.txdata@[j]@.output == block.txdata@[k]@.output);
            assert(block.txdata@[j]@.output[i] == block.txdata@[j].output@[i]@);
            assert(block.txdata@[k]@.output[i] == block.txdata@[k].output@[i]@);
            assert(block.txdata@[j].output@[i]@ == block.txdata@[k].output@[i]@);
            assert(pays_wallet(wallet, block, j, i));
            assert(output_name(block, j, i) == o);
            law_output_held_under_own_id(wallet, block, j, i);
        } else {
            assert forall|j: int| k < j < txs.len() implies !pays(
                wallet.script_pubkey,
                ids[j],
                (#[trigger] txs[j]).output,
                o,
            ) by {
                assert(transaction_id(block.txdata@[j]@) != transaction_id(block.txdata@[k]@));
                lemma_block_terms(wallet, block, j, o);
            }
        }
    }
}

/// An output that an input of the block spends is not held after the block,
/// unless a later transaction makes it for the wallet.
pub proof fn law_spent_by_input(wallet: TrackerView, block: Block, k: int, i: int, o: OutPoint)
    requires
        spends(block, k, i, o),
        forall|j: int, m: int|
            k < j && #[trigger] pays_wallet(wallet, block, j, m) ==> output_name(block, j, m) != o,
    ensures
        !utxos_after(wallet, block).contains_key(o),
{
    let txs = block_transactions(block);
    let ids = transaction_ids(txs);
    lemma_block_terms(wallet, block, k, o);
    assert forall|j: int| k < j < txs.len() implies !pays(
        wallet.script_pubkey,
        ids[j],
        (#[trigger] txs[j]).output,
        o,
    ) by {
        lemma_block_terms(wallet, block, j, o);
        assert(makes(wallet.script_pubkey, ids, txs, j, o) <==> pays(
            wallet.script_pubkey,
            ids[j],
            txs[j].output,
            o,
        ));
    }
    law_spent_is_gone(wallet.utxos, wallet.script_pubkey, ids, txs, k, o);
}

/// An output that no input of the block spends and no output of the block makes
/// for the wallet is held after the block exactly as before.
pub proof fn law_rest_is_kept(wallet: TrackerView, block: Block, o: OutPoint)
    requires
        forall|k: int, i: int| !#[trigger] spends(block, k, i, o),
        forall|k: int, i: int| #[trigger]
            pays_wallet(wallet, block, k, i) ==> output_name(block, k, i) != o,
    ensures
        utxos_after(wallet, block).get(o) == wallet.utxos.get(o),
{
    let txs = block_transactions(block);
    let ids = transaction_ids(txs);
    assert forall|k: int| !#[trigger] makes(wallet.script_pubkey, ids, txs, k, o) by {
        if 0 <= k < txs.len() {
            lemma_block_terms(wallet, block, k, o);
        }
    }
    assert forall|k: int| 0 <= k < txs.len() implies !spent_by((#[trigger] txs[k]).input).contains(
        o,
    ) by {
        lemma_block_terms(wallet, block, k, o);
    }
    law_untouched_stays(wallet.utxos, wallet.script_pubkey, ids, txs, o);
}

/// What is reported of a block: an output is received exactly if some
/// transaction of the block pays it to the wallet, under that transaction's id. An
/// output held before is reported as spent if some input spends it, and none is
/// but that an input spends it and it was held before or made in the block.
pub proof fn law_report_of_outputs(
    report: BlockReport,
    wallet: TrackerView,
    block: Block,
    o: OutPoint,
)
    requires
        reports(report, wallet, block),
    ensures
        report.events@.contains(LedgerEvent::Receive(o)) <==> exists|k: int, i: int| #[trigger]
            pays_wallet(wallet, block, k, i) && output_name(block, k, i) == o,
        wallet.utxos.contains_key(o) && (exists|k: int, i: int| #[trigger] spends(block, k, i, o))
            ==> report.events@.contains(LedgerEvent::Spend(o)),
        report.events@.contains(LedgerEvent::Spend(o)) ==> {
            &&& exists|k: int, i: int| #[trigger] spends(block, k, i, o)
            &&& wallet.utxos.contains_key(o) || exists|k: int, i: int| #[trigger]
                pays_wallet(wallet, block, k, i) && output_name(block, k, i) == o
        },
{
    let script = wallet.script_pubkey;
    let txs = block_transactions(block);
    let ids = transaction_ids(txs);
    law_block_receives(wallet.utxos, script, ids, txs, o);
    law_block_spends(wallet.utxos, script, ids, txs, o);
    if exists|k: int| #[trigger] makes(script, ids, txs, k, o) {
        let k = choose|k: int| #[trigger] makes(script, ids, txs, k, o);
        lemma_block_terms(wallet, block, k, o);
        let i = choose|i: int| #[trigger]
            pays_wallet(wallet, block, k, i) && output_name(block, k, i) == o;
        assert(pays_wallet(wallet, block, k, i));
    }
    if exists|k: int, i: int| #[trigger]
        pays_wallet(wallet, block, k, i) && output_name(block, k, i) == o {
        let (k, i) = choose|k: int, i: int| #[trigger]
            pays_wallet(wallet, block, k, i) && output_name(block, k, i) == o;
        lemma_block_terms(wallet, block, k, o);
        assert(makes(script, ids, txs, k, o));
    }
    if wallet.utxos.contains_key(o) && exists|k: int, i: int| #[trigger] spends(block, k, i, o) {
        let (k, i) = choose|k: int, i: int| #[trigger] spends(block, k, i, o);
        lemma_block_terms(wallet, block, k, o);
        law_held_spend_is_reported(wallet.utxos, script, ids, txs, k, o);
    }
    if exists|k: int| #[trigger] takes(wallet.utxos, script, ids, txs, k, o) {
        let k = choose|k: int| #[trigger] takes(wallet.utxos, script, ids, txs, k, o);
        lemma_block_terms(wallet, block, k, o);
        let i = choose|i: int| #[trigger] spends(block, k, i, o);
        assert(spends(block, k, i, o));
        if !(exists|j: int| #[trigger] makes(script, ids, txs, j, o)) && !wallet.utxos.contains_key(
            o,
        ) {
            let (early_ids, early) = (ids.take(k), txs.take(k));
            assert forall|j: int| !#[trigger] makes(script, early_ids, early, j, o) by {
                assert(!makes(script, ids, txs, j, o));
            }
            lemma_never_held(wallet, early_ids, early, o);
        }
    }
}

/// What was not held and is not made is not held.
proof fn lemma_never_held(
    wallet: TrackerView,
    ids: Seq<Hash256>,
    txs: Seq<TransactionView>,
    o: OutPoint,
)
    requires
        ids.len() == txs.len(),
        !wallet.utxos.contains_key(o),
        forall|j: int| !#[trigger] makes(wallet.script_pubkey, ids, txs, j, o),
    ensures
        !connect_txs(wallet.utxos, wallet.script_pubkey, ids, txs).contains_key(o),
    decreases txs.len(),
{
    if txs.len() > 0 {
        let (early_ids, early) = (ids.drop_last(), txs.drop_last());
        assert forall|j: int| !#[trigger] makes(
            wallet.script_pubkey,
            early_ids,
            early,
            j,
            o,
        ) by {
            assert(!makes(wallet.script_pubkey, ids, txs, j, o));
        }
        lemma_never_held(wallet, early_ids, early, o);
        assert(!makes(wallet.script_pubkey, ids, txs, txs.len() - 1, o));
        law_held_after_tx(
            connect_txs(wallet.utxos, wallet.script_pubkey, early_ids, early),
            wallet.script_pubkey,
            ids.last(),
            txs.last(),
            o,
        );
    }
}

/// The report has the balance before and after, as sums of what is held, exactly
/// where the two differ.
pub proof fn law_report_of_balance(report: BlockReport, wallet: TrackerView, block: Block)
    requires
        reports(report, wallet, block),
    ensures
        report.balance_change is Some <==> total(wallet.utxos) != total(
            utxos_after(wallet, block),
        ),
        report.balance_change matches Some((before, after)) ==> before == total(wallet.utxos)
            && after == total(utxos_after(wallet, block)),
{
}

} // verus!
