//! What holds of the unspent outputs.
use vstd::prelude::*;

use crate::ledger::{
    block_events, connect_tx, connect_txs, lemma_total_insert, lemma_total_remove, outpoint,
    receive, receive_events, spend, spend_events, spent_by, total, tx_events, LedgerEvent,
};
use crate::types::{Hash256, OutPoint, TransactionView, TxInView, TxOutView};

verus! {

/// Whether an output of a transaction pays to `script`.
pub open spec fn pays(
    script: Seq<u8>,
    txid: Hash256,
    outputs: Seq<TxOutView>,
    o: OutPoint,
) -> bool {
    exists|i: int|
        0 <= i < outputs.len() && (#[trigger] outputs[i]).script_pubkey == script && outpoint(
            txid,
            i,
        ) == o
}

proof fn lemma_pays_one_more(
    script: Seq<u8>,
    txid: Hash256,
    outputs: Seq<TxOutView>,
    o: OutPoint,
)
    requires
        outputs.len() > 0,
    ensures
        pays(script, txid, outputs, o) <==> {
            ||| pays(script, txid, outputs.drop_last(), o)
            ||| outputs.last().script_pubkey == script && outpoint(txid, outputs.len() - 1) == o
        },
{
    let before = outputs.drop_last();
    if pays(script, txid, before, o) {
        let i = choose|i: int|
            0 <= i < before.len() && (#[trigger] before[i]).script_pubkey == script && outpoint(
                txid,
                i,
            ) == o;
        assert(outputs[i].script_pubkey == script);
    }
    if pays(script, txid, outputs, o) {
        let i = choose|i: int|
            0 <= i < outputs.len() && (#[trigger] outputs[i]).script_pubkey == script && outpoint(
                txid,
                i,
            ) == o;
        if i < before.len() {
            assert(before[i].script_pubkey == script);
        }
    }
    if outputs.last().script_pubkey == script {
        assert(outputs[outputs.len() - 1].script_pubkey == script);
    }
}

proof fn lemma_receive_keys(
    utxos: Map<OutPoint, TxOutView>,
    script: Seq<u8>,
    txid: Hash256,
    outputs: Seq<TxOutView>,
    o: OutPoint,
)
    ensures
        receive(utxos, script, txid, outputs).contains_key(o) <==> utxos.contains_key(o) || pays(
            script,
            txid,
            outputs,
            o,
        ),
    decreases outputs.len(),
{
    if outputs.len() > 0 {
        lemma_receive_keys(utxos, script, txid, outputs.drop_last(), o);
        lemma_pays_one_more(script, txid, outputs, o);
    }
}

/// After a transaction an output is held exactly if it was held before or
/// pays to the wallet by this transaction, and the transaction does not spend
/// it.
pub proof fn law_held_after_tx(
    utxos: Map<OutPoint, TxOutView>,
    script: Seq<u8>,
    txid: Hash256,
    tx: TransactionView,
    o: OutPoint,
)
    ensures
        connect_tx(utxos, script, txid, tx).contains_key(o) <==> {
            &&& utxos.contains_key(o) || pays(script, txid, tx.output, o)
            &&& !spent_by(tx.input).contains(o)
        },
{
    lemma_receive_keys(utxos, script, txid, tx.output, o);
}

/// An output that a transaction of a block spends is not held after the block,
/// unless a later transaction of the block makes it anew.
pub proof fn law_spent_is_gone(
    utxos: Map<OutPoint, TxOutView>,
    script: Seq<u8>,
    txids: Seq<Hash256>,
    txs: Seq<TransactionView>,
    k: int,
    o: OutPoint,
)
    requires
        txids.len() == txs.len(),
        0 <= k < txs.len(),
        spent_by(txs[k].input).contains(o),
        forall|j: int| k < j < txs.len() ==> !pays(script, txids[j], (#[trigger] txs[j]).output, o),
    ensures
        !connect_txs(utxos, script, txids, txs).contains_key(o),
    decreases txs.len(),
{
    let before = connect_txs(utxos, script, txids.drop_last(), txs.drop_last());
    law_held_after_tx(before, script, txids.last(), txs.last(), o);
    if k < txs.len() - 1 {
        assert(txs.drop_last()[k] == txs[k]);
        assert forall|j: int| k < j < txs.drop_last().len() implies !pays(
            script,
            txids.drop_last()[j],
            (#[trigger] txs.drop_last()[j]).output,
            o,
        ) by {
            assert(txs[j] == txs.drop_last()[j]);
        }
        law_spent_is_gone(utxos, script, txids.drop_last(), txs.drop_last(), k, o);
        assert(!pays(script, txids[txs.len() - 1], txs[txs.len() - 1].output, o));
    }
}

/// An output that pays to the wallet and that no transaction spends, from the
/// one that makes it to the end of the block, is held after the block. It is
/// held as it was made, unless it is made anew.
pub proof fn law_unspent_is_held(
    utxos: Map<OutPoint, TxOutView>,
    script: Seq<u8>,
    txids: Seq<Hash256>,
    txs: Seq<TransactionView>,
    k: int,
    i: int,
)
    requires
        txids.len() == txs.len(),
        0 <= k < txs.len(),
        0 <= i < txs[k].output.len() <= 0x1_0000_0000,
        txs[k].output[i].script_pubkey == script,
        forall|j: int|
            k <= j < txs.len() ==> !spent_by((#[trigger] txs[j]).input).contains(
                outpoint(txids[k], i),
            ),
    ensures
        ({
            let after = connect_txs(utxos, script, txids, txs);
            let o = outpoint(txids[k], i);
            &&& after.contains_key(o)
            &&& (forall|j: int|
                k < j < txs.len() ==> !pays(script, txids[j], (#[trigger] txs[j]).output, o))
                ==> after[o] == txs[k].output[i]
        }),
    decreases txs.len(),
{
    let n = txs.len() - 1;
    let o = outpoint(txids[k], i);
    let before = connect_txs(utxos, script, txids.drop_last(), txs.drop_last());
    law_held_after_tx(before, script, txids.last(), txs.last(), o);
    assert(!spent_by(txs[n].input).contains(o));
    if k == n {
        assert(pays(script, txids[k], txs[k].output, o));
        lemma_receive_value(before, script, txids[k], txs[k].output, i);
    } else {
        assert(txs.drop_last()[k] == txs[k]);
        assert forall|j: int| k <= j < txs.drop_last().len() implies !spent_by(
            (#[trigger] txs.drop_last()[j]).input,
        ).contains(outpoint(txids.drop_last()[k], i)) by {
            assert(!spent_by(txs[j].input).contains(o));
        }
        law_unspent_is_held(utxos, script, txids.drop_last(), txs.drop_last(), k, i);
        if forall|j: int|
            k < j < txs.len() ==> !pays(script, txids[j], (#[trigger] txs[j]).output, o) {
            assert forall|j: int| k < j < txs.drop_last().len() implies !pays(
                script,
                txids.drop_last()[j],
                (#[trigger] txs.drop_last()[j]).output,
                o,
            ) by {
                assert(!pays(script, txids[j], txs[j].output, o));
            }
            assert(!pays(script, txids[n], txs[n].output, o));
            lemma_receive_keeps(before, script, txids.last(), txs.last().output, o);
        }
    }
}

/// What was held is held as it was, unless it is made anew.
proof fn lemma_receive_keeps(
    utxos: Map<OutPoint, TxOutView>,
    script: Seq<u8>,
    txid: Hash256,
    outputs: Seq<TxOutView>,
    o: OutPoint,
)
    requires
        !pays(script, txid, outputs, o),
    ensures
        receive(utxos, script, txid, outputs)[o] == utxos[o],
    decreases outputs.len(),
{
    if outputs.len() > 0 {
        lemma_pays_one_more(script, txid, outputs, o);
        lemma_receive_keeps(utxos, script, txid, outputs.drop_last(), o);
    }
}

/// What is received is held as it was made.
proof fn lemma_receive_value(
    utxos: Map<OutPoint, TxOutView>,
    script: Seq<u8>,
    txid: Hash256,
    outputs: Seq<TxOutView>,
    i: int,
)
    requires
        0 <= i < outputs.len() <= 0x1_0000_0000,
        outputs[i].script_pubkey == script,
    ensures
        receive(utxos, script, txid, outputs)[outpoint(txid, i)] == outputs[i],
    decreases outputs.len(),
{
    if i < outputs.len() - 1 {
        assert(outputs.drop_last()[i] == outputs[i]);
        lemma_receive_value(utxos, script, txid, outputs.drop_last(), i);
        assert(outpoint(txid, i) != outpoint(txid, outputs.len() - 1));
    }
}

/// Two blocks, one after the other, do what one block with the transactions
/// of both does, and the same is reported in the same order.
pub proof fn law_blocks_compose(
    utxos: Map<OutPoint, TxOutView>,
    script: Seq<u8>,
    first_ids: Seq<Hash256>,
    first: Seq<TransactionView>,
    second_ids: Seq<Hash256>,
    second: Seq<TransactionView>,
)
    requires
        first_ids.len() == first.len(),
        second_ids.len() == second.len(),
    ensures
        ({
            let between = connect_txs(utxos, script, first_ids, first);
            let ids = first_ids + second_ids;
            let both = first + second;
            &&& connect_txs(between, script, second_ids, second) == connect_txs(
                utxos,
                script,
                ids,
                both,
            )
            &&& block_events(utxos, script, first_ids, first) + block_events(
                between,
                script,
                second_ids,
                second,
            ) == block_events(utxos, script, ids, both)
        }),
    decreases second.len(),
{
    let between = connect_txs(utxos, script, first_ids, first);
    let ids = first_ids + second_ids;
    let both = first + second;
    if second.len() == 0 {
        assert(ids =~= first_ids);
        assert(both =~= first);
        assert(block_events(utxos, script, first_ids, first) + block_events(
            between,
            script,
            second_ids,
            second,
        ) =~= block_events(utxos, script, ids, both));
    } else {
        law_blocks_compose(
            utxos,
            script,
            first_ids,
            first,
            second_ids.drop_last(),
            second.drop_last(),
        );
        assert(ids.drop_last() =~= first_ids + second_ids.drop_last());
        assert(both.drop_last() =~= first + second.drop_last());
        assert(ids.last() == second_ids.last());
        assert(both.last() == second.last());
        assert(block_events(utxos, script, first_ids, first) + block_events(
            between,
            script,
            second_ids,
            second,
        ) =~= block_events(utxos, script, ids, both));
    }
}

/// All outputs in a map pay to `script`.
pub open spec fn all_pay(utxos: Map<OutPoint, TxOutView>, script: Seq<u8>) -> bool {
    forall|o: OutPoint| #[trigger]
        utxos.contains_key(o) ==> utxos[o].script_pubkey == script
}

proof fn lemma_receive_own(
    utxos: Map<OutPoint, TxOutView>,
    script: Seq<u8>,
    txid: Hash256,
    outputs: Seq<TxOutView>,
)
    requires
        all_pay(utxos, script),
        utxos.dom().finite(),
    ensures
        all_pay(receive(utxos, script, txid, outputs), script),
        receive(utxos, script, txid, outputs).dom().finite(),
    decreases outputs.len(),
{
    if outputs.len() > 0 {
        lemma_receive_own(utxos, script, txid, outputs.drop_last());
    }
}

/// The wallet never holds an output that does not pay to its script, and what
/// it holds stays finite.
pub proof fn law_holds_only_own(
    utxos: Map<OutPoint, TxOutView>,
    script: Seq<u8>,
    txids: Seq<Hash256>,
    txs: Seq<TransactionView>,
)
    requires
        all_pay(utxos, script),
        utxos.dom().finite(),
    ensures
        all_pay(connect_txs(utxos, script, txids, txs), script),
        connect_txs(utxos, script, txids, txs).dom().finite(),
    decreases txs.len(),
{
    if txs.len() > 0 {
        law_holds_only_own(utxos, script, txids.drop_last(), txs.drop_last());
        let before = connect_txs(utxos, script, txids.drop_last(), txs.drop_last());
        let received = receive(before, script, txids.last(), txs.last().output);
        lemma_receive_own(before, script, txids.last(), txs.last().output);
        let after = spend(received, txs.last().input);
        assert(after.dom() =~= received.dom().difference(spent_by(txs.last().input)));
        assert forall|o: OutPoint| #[trigger] after.contains_key(o) implies after[o].script_pubkey
            == script by {
            assert(received.contains_key(o));
        }
    }
}

/// The sum of the outputs that pay to `script`.
pub open spec fn paid(script: Seq<u8>, outputs: Seq<TxOutView>) -> nat
    decreases outputs.len(),
{
    if outputs.len() == 0 {
        0
    } else {
        let before = paid(script, outputs.drop_last());
        if outputs.last().script_pubkey == script {
            before + outputs.last().value as nat
        } else {
            before
        }
    }
}

/// The outputs of a new transaction raise the balance by what they pay to the
/// wallet. A transaction has at most as many outputs as 32 bits can number.
pub proof fn law_receive_raises_balance(
    utxos: Map<OutPoint, TxOutView>,
    script: Seq<u8>,
    txid: Hash256,
    outputs: Seq<TxOutView>,
)
    requires
        utxos.dom().finite(),
        forall|o: OutPoint| #[trigger] utxos.contains_key(o) ==> o.txid != txid,
        outputs.len() <= 0x1_0000_0000,
    ensures
        total(receive(utxos, script, txid, outputs)) == total(utxos) + paid(script, outputs),
        receive(utxos, script, txid, outputs).dom().finite(),
    decreases outputs.len(),
{
    if outputs.len() > 0 {
        let before = receive(utxos, script, txid, outputs.drop_last());
        let o = outpoint(txid, outputs.len() - 1);
        law_receive_raises_balance(utxos, script, txid, outputs.drop_last());
        if outputs.last().script_pubkey == script {
            lemma_receive_keys(utxos, script, txid, outputs.drop_last(), o);
            lemma_total_insert(before, o, outputs.last());
            assert(!before.contains_key(o));
            assert(before.remove(o) =~= before);
        }
    }
}

/// The inputs of a transaction lower the balance by the amounts of the
/// outputs that they spend.
pub proof fn law_spend_lowers_balance(utxos: Map<OutPoint, TxOutView>, inputs: Seq<TxInView>)
    requires
        utxos.dom().finite(),
    ensures
        total(utxos) == total(spend(utxos, inputs)) + total(utxos.restrict(spent_by(inputs))),
{
    lemma_total_split(utxos, spent_by(inputs));
}

proof fn lemma_total_split(utxos: Map<OutPoint, TxOutView>, out: Set<OutPoint>)
    requires
        utxos.dom().finite(),
    ensures
        total(utxos) == total(utxos.remove_keys(out)) + total(utxos.restrict(out)),
    decreases utxos.dom().len(),
{
    let left = utxos.remove_keys(out);
    let gone = utxos.restrict(out);
    assert(left.dom() =~= utxos.dom().difference(out));
    assert(gone.dom() =~= utxos.dom().intersect(out));
    if utxos.dom().len() == 0 {
        assert(left =~= utxos);
        assert(gone =~= utxos);
    } else {
        let o = utxos.dom().choose();
        lemma_total_split(utxos.remove(o), out);
        lemma_total_remove(utxos, o);
        if out.contains(o) {
            lemma_total_remove(gone, o);
            assert(utxos.remove(o).remove_keys(out) =~= left);
            assert(utxos.remove(o).restrict(out) =~= gone.remove(o));
        } else {
            lemma_total_remove(left, o);
            assert(utxos.remove(o).remove_keys(out) =~= left.remove(o));
            assert(utxos.remove(o).restrict(out) =~= gone);
        }
    }
}

/// An output is reported as received exactly if it pays to the wallet.
pub proof fn law_receives_are_reported(
    script: Seq<u8>,
    txid: Hash256,
    outputs: Seq<TxOutView>,
    o: OutPoint,
)
    ensures
        receive_events(script, txid, outputs).contains(LedgerEvent::Receive(o)) <==> pays(
            script,
            txid,
            outputs,
            o,
        ),
    decreases outputs.len(),
{
    if outputs.len() > 0 {
        let before = receive_events(script, txid, outputs.drop_last());
        let last = LedgerEvent::Receive(outpoint(txid, outputs.len() - 1));
        law_receives_are_reported(script, txid, outputs.drop_last(), o);
        lemma_pays_one_more(script, txid, outputs, o);
        lemma_contains_push(before, last, LedgerEvent::Receive(o));
    }
}

/// An output is reported as spent exactly if it was held and the inputs spend
/// it.
pub proof fn law_spends_are_reported(
    utxos: Map<OutPoint, TxOutView>,
    inputs: Seq<TxInView>,
    o: OutPoint,
)
    ensures
        spend_events(utxos, inputs).contains(LedgerEvent::Spend(o)) <==> utxos.contains_key(o)
            && spent_by(inputs).contains(o),
    decreases inputs.len(),
{
    if inputs.len() > 0 {
        let earlier = inputs.drop_last();
        let last = inputs.last().previous_output;
        law_spends_are_reported(utxos, earlier, o);
        lemma_contains_push(
            spend_events(utxos, earlier),
            LedgerEvent::Spend(last),
            LedgerEvent::Spend(o),
        );
        assert(spent_by(inputs).contains(o) <==> spent_by(earlier).contains(o) || o == last) by {
            if spent_by(earlier).contains(o) {
                let i = choose|i: int|
                    0 <= i < earlier.len() && (#[trigger] earlier[i]).previous_output == o;
                assert(inputs[i].previous_output == o);
            }
            if spent_by(inputs).contains(o) {
                let i = choose|i: int|
                    0 <= i < inputs.len() && (#[trigger] inputs[i]).previous_output == o;
                if i < earlier.len() {
                    assert(earlier[i].previous_output == o);
                }
            }
            assert(inputs[inputs.len() - 1].previous_output == last);
        }
    }
}

proof fn lemma_contains_push(events: Seq<LedgerEvent>, last: LedgerEvent, e: LedgerEvent)
    ensures
        events.push(last).contains(e) <==> events.contains(e) || e == last,
{
    let pushed = events.push(last);
    if events.contains(e) {
        let i = choose|i: int| 0 <= i < events.len() && events[i] == e;
        assert(pushed[i] == e);
    }
    if pushed.contains(e) {
        let i = choose|i: int| 0 <= i < pushed.len() && pushed[i] == e;
        if i < events.len() {
            assert(events[i] == e);
        }
    }
    assert(pushed[events.len() as int] == last);
}

/// A block that neither pays to the wallet nor spends what it holds changes
/// nothing, and nothing is reported of it.
pub proof fn law_foreign_block(
    utxos: Map<OutPoint, TxOutView>,
    script: Seq<u8>,
    txids: Seq<Hash256>,
    txs: Seq<TransactionView>,
)
    requires
        txids.len() == txs.len(),
        forall|k: int, i: int|
            0 <= k < txs.len() && 0 <= i < txs[k].output.len() ==> (
            #[trigger] txs[k].output[i]).script_pubkey != script,
        forall|k: int, i: int|
            0 <= k < txs.len() && 0 <= i < txs[k].input.len() ==> !utxos.contains_key(
                (#[trigger] txs[k].input[i]).previous_output,
            ),
    ensures
        connect_txs(utxos, script, txids, txs) == utxos,
        block_events(utxos, script, txids, txs).len() == 0,
    decreases txs.len(),
{
    if txs.len() > 0 {
        let n = txs.len() - 1;
        assert forall|k: int, i: int|
            0 <= k < txs.drop_last().len() && 0 <= i < txs.drop_last()[k].output.len() implies (
        #[trigger] txs.drop_last()[k].output[i]).script_pubkey != script by {
            assert(txs[k].output[i].script_pubkey != script);
        }
        assert forall|k: int, i: int|
            0 <= k < txs.drop_last().len() && 0 <= i < txs.drop_last()[k].input.len() implies
        !utxos.contains_key((#[trigger] txs.drop_last()[k].input[i]).previous_output) by {
            assert(!utxos.contains_key(txs[k].input[i].previous_output));
        }
        law_foreign_block(utxos, script, txids.drop_last(), txs.drop_last());
        let tx = txs[n];
        assert forall|i: int| 0 <= i < tx.output.len() implies (
        #[trigger] tx.output[i]).script_pubkey != script by {
            assert(txs[n].output[i].script_pubkey != script);
        }
        assert forall|i: int| 0 <= i < tx.input.len() implies !utxos.contains_key(
            (#[trigger] tx.input[i]).previous_output,
        ) by {
            assert(!utxos.contains_key(txs[n].input[i].previous_output));
        }
        lemma_foreign_outputs(utxos, script, txids.last(), tx.output);
        lemma_foreign_inputs(utxos, tx.input);
    }
}

proof fn lemma_foreign_outputs(
    utxos: Map<OutPoint, TxOutView>,
    script: Seq<u8>,
    txid: Hash256,
    outputs: Seq<TxOutView>,
)
    requires
        forall|i: int|
            0 <= i < outputs.len() ==> (#[trigger] outputs[i]).script_pubkey != script,
    ensures
        receive(utxos, script, txid, outputs) == utxos,
        receive_events(script, txid, outputs).len() == 0,
    decreases outputs.len(),
{
    if outputs.len() > 0 {
        assert forall|i: int| 0 <= i < outputs.drop_last().len() implies (
        #[trigger] outputs.drop_last()[i]).script_pubkey != script by {
            assert(outputs[i].script_pubkey != script);
        }
        lemma_foreign_outputs(utxos, script, txid, outputs.drop_last());
        assert(outputs[outputs.len() - 1].script_pubkey != script);
    }
}

proof fn lemma_foreign_inputs(utxos: Map<OutPoint, TxOutView>, inputs: Seq<TxInView>)
    requires
        forall|i: int|
            0 <= i < inputs.len() ==> !utxos.contains_key(
                (#[trigger] inputs[i]).previous_output,
            ),
    ensures
        spend(utxos, inputs) == utxos,
        spend_events(utxos, inputs).len() == 0,
    decreases inputs.len(),
{
    assert(spend(utxos, inputs) =~= utxos);
    if inputs.len() > 0 {
        assert forall|i: int| 0 <= i < inputs.drop_last().len() implies !utxos.contains_key(
            (#[trigger] inputs.drop_last()[i]).previous_output,
        ) by {
            assert(!utxos.contains_key(inputs[i].previous_output));
        }
        lemma_foreign_inputs(utxos, inputs.drop_last());
        assert(!utxos.contains_key(inputs[inputs.len() - 1].previous_output));
    }
}

/// What is at one place of the unspent outputs after the outputs of a
/// transaction: the same for any two maps, or in each what was there before.
proof fn lemma_receive_at(
    a: Map<OutPoint, TxOutView>,
    b: Map<OutPoint, TxOutView>,
    script: Seq<u8>,
    txid: Hash256,
    outputs: Seq<TxOutView>,
    o: OutPoint,
)
    ensures
        ({
            let (x, y) = (receive(a, script, txid, outputs), receive(b, script, txid, outputs));
            x.get(o) == y.get(o) || x.get(o) == a.get(o) && y.get(o) == b.get(o)
        }),
    decreases outputs.len(),
{
    if outputs.len() > 0 {
        lemma_receive_at(a, b, script, txid, outputs.drop_last(), o);
    }
}

/// What is at one place of the unspent outputs after a block: the same for any
/// two maps, or in each what was there before.
proof fn lemma_connect_at(
    a: Map<OutPoint, TxOutView>,
    b: Map<OutPoint, TxOutView>,
    script: Seq<u8>,
    txids: Seq<Hash256>,
    txs: Seq<TransactionView>,
    o: OutPoint,
)
    ensures
        ({
            let x = connect_txs(a, script, txids, txs);
            let y = connect_txs(b, script, txids, txs);
            x.get(o) == y.get(o) || x.get(o) == a.get(o) && y.get(o) == b.get(o)
        }),
    decreases txs.len(),
{
    if txs.len() > 0 {
        let (ids, before) = (txids.drop_last(), txs.drop_last());
        lemma_connect_at(a, b, script, ids, before, o);
        lemma_receive_at(
            connect_txs(a, script, ids, before),
            connect_txs(b, script, ids, before),
            script,
            txids.last(),
            txs.last().output,
            o,
        );
    }
}

/// A block that is connected once more changes nothing.
pub proof fn law_block_twice(
    utxos: Map<OutPoint, TxOutView>,
    script: Seq<u8>,
    txids: Seq<Hash256>,
    txs: Seq<TransactionView>,
)
    ensures
        ({
            let after = connect_txs(utxos, script, txids, txs);
            connect_txs(after, script, txids, txs) == after
        }),
{
    let once = connect_txs(utxos, script, txids, txs);
    let twice = connect_txs(once, script, txids, txs);
    assert forall|o: OutPoint|
        #![trigger twice.dom().contains(o)]
        #![trigger twice[o]]
        twice.dom().contains(o) == once.dom().contains(o) && (once.dom().contains(o) ==> twice[o]
            == once[o]) by {
        lemma_connect_at(utxos, once, script, txids, txs, o);
        assert(twice.get(o) == once.get(o));
    }
    assert(twice =~= once);
}

/// The outputs that the transactions of a block spend.
pub open spec fn spent_in(txs: Seq<TransactionView>) -> Set<OutPoint> {
    Set::new(
        |o: OutPoint| exists|k: int|
            0 <= k < txs.len() && spent_by((#[trigger] txs[k]).input).contains(o),
    )
}

/// The sum of the outputs of a transaction that pay to `script` and are not in
/// `spent`.
pub open spec fn left_of_outputs(
    script: Seq<u8>,
    txid: Hash256,
    outputs: Seq<TxOutView>,
    spent: Set<OutPoint>,
) -> nat
    decreases outputs.len(),
{
    if outputs.len() == 0 {
        0
    } else {
        let before = left_of_outputs(script, txid, outputs.drop_last(), spent);
        if outputs.last().script_pubkey == script && !spent.contains(
            outpoint(txid, outputs.len() - 1),
        ) {
            before + outputs.last().value as nat
        } else {
            before
        }
    }
}

/// The sum of the outputs of transactions that pay to `script` and are not in
/// `spent`.
pub open spec fn left_of_txs(
    script: Seq<u8>,
    txids: Seq<Hash256>,
    txs: Seq<TransactionView>,
    spent: Set<OutPoint>,
) -> nat
    decreases txs.len(),
{
    if txs.len() == 0 {
        0
    } else {
        left_of_txs(script, txids.drop_last(), txs.drop_last(), spent) + left_of_outputs(
            script,
            txids.last(),
            txs.last().output,
            spent,
        )
    }
}

/// What is new in a block: the ids of its transactions differ, no output that
/// it makes for the wallet is held already, and none is spent by a transaction
/// before the one that makes it. A transaction has at most as many outputs as
/// 32 bits can number.
pub open spec fn is_new_block(
    utxos: Map<OutPoint, TxOutView>,
    script: Seq<u8>,
    txids: Seq<Hash256>,
    txs: Seq<TransactionView>,
) -> bool {
    &&& txids.len() == txs.len()
    &&& forall|j: int, k: int|
        0 <= j < k < txids.len() ==> #[trigger] txids[j] != #[trigger] txids[k]
    &&& forall|k: int| 0 <= k < txs.len() ==> (#[trigger] txs[k]).output.len() <= 0x1_0000_0000
    &&& forall|k: int, o: OutPoint| #[trigger]
        makes(script, txids, txs, k, o) ==> !utxos.contains_key(o)
    &&& forall|j: int, k: int, o: OutPoint|
        0 <= j < k && #[trigger] makes(script, txids, txs, k, o) ==> !spent_by(
            (#[trigger] txs[j]).input,
        ).contains(o)
}

/// Whether the transaction in place `k` makes an output for the wallet.
pub open spec fn makes(
    script: Seq<u8>,
    txids: Seq<Hash256>,
    txs: Seq<TransactionView>,
    k: int,
    o: OutPoint,
) -> bool {
    0 <= k < txs.len() && pays(script, txids[k], txs[k].output, o)
}

/// The unspent outputs after the outputs of a block have joined them, and
/// nothing was spent.
spec fn receive_all(
    utxos: Map<OutPoint, TxOutView>,
    script: Seq<u8>,
    txids: Seq<Hash256>,
    txs: Seq<TransactionView>,
) -> Map<OutPoint, TxOutView>
    decreases txs.len(),
{
    if txs.len() == 0 {
        utxos
    } else {
        receive(
            receive_all(utxos, script, txids.drop_last(), txs.drop_last()),
            script,
            txids.last(),
            txs.last().output,
        )
    }
}

proof fn lemma_new_block_before(
    utxos: Map<OutPoint, TxOutView>,
    script: Seq<u8>,
    txids: Seq<Hash256>,
    txs: Seq<TransactionView>,
)
    requires
        is_new_block(utxos, script, txids, txs),
        txs.len() > 0,
    ensures
        is_new_block(utxos, script, txids.drop_last(), txs.drop_last()),
{
    let (ids, before) = (txids.drop_last(), txs.drop_last());
    assert forall|k: int, o: OutPoint| #[trigger] makes(script, ids, before, k, o) implies makes(
        script,
        txids,
        txs,
        k,
        o,
    ) by {}
    assert forall|j: int, k: int, o: OutPoint|
        0 <= j < k && #[trigger] makes(script, ids, before, k, o) implies !spent_by(
        (#[trigger] before[j]).input,
    ).contains(o) by {
        assert(makes(script, txids, txs, k, o));
        assert(before[j] == txs[j]);
    }
    assert forall|k: int| 0 <= k < before.len() implies (#[trigger] before[k]).output.len()
        <= 0x1_0000_0000 by {
        assert(before[k] == txs[k]);
    }
}

proof fn lemma_receive_all_keys(
    utxos: Map<OutPoint, TxOutView>,
    script: Seq<u8>,
    txids: Seq<Hash256>,
    txs: Seq<TransactionView>,
    o: OutPoint,
)
    requires
        txids.len() == txs.len(),
        receive_all(utxos, script, txids, txs).contains_key(o),
    ensures
        utxos.contains_key(o) || exists|k: int| #[trigger] makes(script, txids, txs, k, o),
    decreases txs.len(),
{
    if txs.len() > 0 {
        let (ids, before) = (txids.drop_last(), txs.drop_last());
        let earlier = receive_all(utxos, script, ids, before);
        lemma_receive_keys(earlier, script, txids.last(), txs.last().output, o);
        if earlier.contains_key(o) {
            lemma_receive_all_keys(utxos, script, ids, before, o);
            if !utxos.contains_key(o) {
                let k = choose|k: int| #[trigger] makes(script, ids, before, k, o);
                assert(makes(script, txids, txs, k, o));
            }
        } else {
            assert(makes(script, txids, txs, txs.len() - 1, o));
        }
    }
}

/// The last transaction of a new block makes nothing that is there before it.
proof fn lemma_last_is_new(
    utxos: Map<OutPoint, TxOutView>,
    script: Seq<u8>,
    txids: Seq<Hash256>,
    txs: Seq<TransactionView>,
    o: OutPoint,
)
    requires
        is_new_block(utxos, script, txids, txs),
        txs.len() > 0,
        pays(script, txids.last(), txs.last().output, o),
    ensures
        !receive_all(utxos, script, txids.drop_last(), txs.drop_last()).contains_key(o),
        !spent_in(txs.drop_last()).contains(o),
{
    let n = txs.len() - 1;
    let (ids, before) = (txids.drop_last(), txs.drop_last());
    assert(makes(script, txids, txs, n, o));
    if receive_all(utxos, script, ids, before).contains_key(o) {
        lemma_receive_all_keys(utxos, script, ids, before, o);
        let k = choose|k: int| #[trigger] makes(script, ids, before, k, o);
        assert(o.txid == ids[k]);
        assert(txids[k] != txids[n]);
    }
    if spent_in(before).contains(o) {
        let j = choose|j: int|
            0 <= j < before.len() && spent_by((#[trigger] before[j]).input).contains(o);
        assert(before[j] == txs[j]);
    }
}

/// Outputs that are not in `spent` join the rest of a map as they join the map.
proof fn lemma_receive_beside(
    utxos: Map<OutPoint, TxOutView>,
    script: Seq<u8>,
    txid: Hash256,
    outputs: Seq<TxOutView>,
    spent: Set<OutPoint>,
)
    requires
        forall|o: OutPoint| #[trigger] pays(script, txid, outputs, o) ==> !spent.contains(o),
    ensures
        receive(utxos.remove_keys(spent), script, txid, outputs) == receive(
            utxos,
            script,
            txid,
            outputs,
        ).remove_keys(spent),
    decreases outputs.len(),
{
    if outputs.len() > 0 {
        let earlier = outputs.drop_last();
        assert forall|o: OutPoint| #[trigger] pays(script, txid, earlier, o) implies !spent.contains(
            o,
        ) by {
            lemma_pays_one_more(script, txid, outputs, o);
        }
        lemma_receive_beside(utxos, script, txid, earlier, spent);
        let o = outpoint(txid, outputs.len() - 1);
        if outputs.last().script_pubkey == script {
            lemma_pays_one_more(script, txid, outputs, o);
            let before = receive(utxos, script, txid, earlier);
            assert(before.remove_keys(spent).insert(o, outputs.last()) =~= before.insert(
                o,
                outputs.last(),
            ).remove_keys(spent));
        }
    }
}

/// A new block does what its outputs do, and then its inputs.
proof fn lemma_spend_at_end(
    utxos: Map<OutPoint, TxOutView>,
    script: Seq<u8>,
    txids: Seq<Hash256>,
    txs: Seq<TransactionView>,
)
    requires
        is_new_block(utxos, script, txids, txs),
    ensures
        connect_txs(utxos, script, txids, txs) == receive_all(
            utxos,
            script,
            txids,
            txs,
        ).remove_keys(spent_in(txs)),
    decreases txs.len(),
{
    if txs.len() == 0 {
        assert(utxos.remove_keys(spent_in(txs)) =~= utxos);
    } else {
        let n = txs.len() - 1;
        let (ids, before) = (txids.drop_last(), txs.drop_last());
        lemma_new_block_before(utxos, script, txids, txs);
        lemma_spend_at_end(utxos, script, ids, before);
        let earlier = receive_all(utxos, script, ids, before);
        assert forall|o: OutPoint| #[trigger]
            pays(script, txids.last(), txs.last().output, o) implies !spent_in(before).contains(
            o,
        ) by {
            lemma_last_is_new(utxos, script, txids, txs, o);
        }
        lemma_receive_beside(
            earlier,
            script,
            txids.last(),
            txs.last().output,
            spent_in(before),
        );
        let all = receive_all(utxos, script, txids, txs);
        assert forall|o: OutPoint| #[trigger]
            spent_in(txs).contains(o) <==> spent_in(before).contains(o) || spent_by(
                txs.last().input,
            ).contains(o) by {
            if spent_in(before).contains(o) {
                let k = choose|k: int|
                    0 <= k < before.len() && spent_by((#[trigger] before[k]).input).contains(o);
                assert(spent_by(txs[k].input).contains(o));
            }
            if spent_in(txs).contains(o) {
                let k = choose|k: int|
                    0 <= k < txs.len() && spent_by((#[trigger] txs[k]).input).contains(o);
                if k < n {
                    assert(spent_by(before[k].input).contains(o));
                }
            }
            assert(txs[n] == txs.last());
        }
        assert(all.remove_keys(spent_in(before)).remove_keys(spent_by(txs.last().input))
            =~= all.remove_keys(spent_in(txs)));
    }
}

/// New outputs raise the sum of what is not in `spent` by those among them that
/// are not.
proof fn lemma_left_of_outputs(
    utxos: Map<OutPoint, TxOutView>,
    script: Seq<u8>,
    txid: Hash256,
    outputs: Seq<TxOutView>,
    spent: Set<OutPoint>,
)
    requires
        utxos.dom().finite(),
        outputs.len() <= 0x1_0000_0000,
        forall|o: OutPoint| #[trigger] pays(script, txid, outputs, o) ==> !utxos.contains_key(o),
    ensures
        receive(utxos, script, txid, outputs).dom().finite(),
        total(receive(utxos, script, txid, outputs).remove_keys(spent)) == total(
            utxos.remove_keys(spent),
        ) + left_of_outputs(script, txid, outputs, spent),
    decreases outputs.len(),
{
    if outputs.len() > 0 {
        let earlier = outputs.drop_last();
        assert forall|o: OutPoint| #[trigger] pays(script, txid, earlier, o) implies
            !utxos.contains_key(o) by {
            lemma_pays_one_more(script, txid, outputs, o);
        }
        lemma_left_of_outputs(utxos, script, txid, earlier, spent);
        if outputs.last().script_pubkey == script {
            let o = outpoint(txid, outputs.len() - 1);
            let before = receive(utxos, script, txid, earlier);
            lemma_pays_one_more(script, txid, outputs, o);
            lemma_receive_keys(utxos, script, txid, earlier, o);
            assert(!before.contains_key(o));
            let kept = before.remove_keys(spent);
            let after = before.insert(o, outputs.last()).remove_keys(spent);
            assert(kept.dom() =~= before.dom().difference(spent));
            if spent.contains(o) {
                assert(after =~= kept);
            } else {
                assert(after =~= kept.insert(o, outputs.last()));
                lemma_total_insert(kept, o, outputs.last());
                assert(kept.remove(o) =~= kept);
            }
        }
    }
}

proof fn lemma_left_of_txs(
    utxos: Map<OutPoint, TxOutView>,
    script: Seq<u8>,
    txids: Seq<Hash256>,
    txs: Seq<TransactionView>,
    spent: Set<OutPoint>,
)
    requires
        utxos.dom().finite(),
        is_new_block(utxos, script, txids, txs),
    ensures
        receive_all(utxos, script, txids, txs).dom().finite(),
        total(receive_all(utxos, script, txids, txs).remove_keys(spent)) == total(
            utxos.remove_keys(spent),
        ) + left_of_txs(script, txids, txs, spent),
    decreases txs.len(),
{
    if txs.len() > 0 {
        let (ids, before) = (txids.drop_last(), txs.drop_last());
        lemma_new_block_before(utxos, script, txids, txs);
        lemma_left_of_txs(utxos, script, ids, before, spent);
        let earlier = receive_all(utxos, script, ids, before);
        assert forall|o: OutPoint| #[trigger]
            pays(script, txids.last(), txs.last().output, o) implies !earlier.contains_key(o) by {
            lemma_last_is_new(utxos, script, txids, txs, o);
        }
        assert(txs[txs.len() - 1].output.len() <= 0x1_0000_0000);
        lemma_left_of_outputs(earlier, script, txids.last(), txs.last().output, spent);
    }
}

/// The balance over a new block: it goes up by what the block pays to the wallet
/// and leaves unspent, and down by what the block spends of the outputs that the
/// wallet held before.
pub proof fn law_block_balance(
    utxos: Map<OutPoint, TxOutView>,
    script: Seq<u8>,
    txids: Seq<Hash256>,
    txs: Seq<TransactionView>,
)
    requires
        utxos.dom().finite(),
        is_new_block(utxos, script, txids, txs),
    ensures
        total(connect_txs(utxos, script, txids, txs)) == total(utxos) + left_of_txs(
            script,
            txids,
            txs,
            spent_in(txs),
        ) - total(utxos.restrict(spent_in(txs))),
{
    lemma_spend_at_end(utxos, script, txids, txs);
    lemma_left_of_txs(utxos, script, txids, txs, spent_in(txs));
    lemma_total_split(utxos, spent_in(txs));
}

/// An output is spent by inputs exactly if one of them names it.
pub proof fn law_spent_by_naming(inputs: Seq<TxInView>, i: int, o: OutPoint)
    ensures
        0 <= i < inputs.len() ==> spent_by(inputs).contains(inputs[i].previous_output),
        (forall|j: int| 0 <= j < inputs.len() ==> (#[trigger] inputs[j]).previous_output != o)
            ==> !spent_by(inputs).contains(o),
{
    if 0 <= i < inputs.len() {
        assert(inputs[i].previous_output == inputs[i].previous_output);
    }
}

/// One more output of a transaction is reported last, under the id of the
/// transaction and its place in it, exactly if it pays to the wallet; what is
/// reported of the outputs before it stays.
pub proof fn law_one_more_output(
    script: Seq<u8>,
    txid: Hash256,
    outputs: Seq<TxOutView>,
    out: TxOutView,
)
    ensures
        receive_events(script, txid, outputs.push(out)) == receive_events(script, txid, outputs) + (
        if out.script_pubkey == script {
            seq![LedgerEvent::Receive(OutPoint { txid, vout: outputs.len() as u32 })]
        } else {
            Seq::empty()
        }),
        receive_events(script, txid, Seq::empty()).len() == 0,
{
    assert(outputs.push(out).drop_last() =~= outputs);
    assert(receive_events(script, txid, outputs.push(out)) =~= receive_events(
        script,
        txid,
        outputs,
    ) + (if out.script_pubkey == script {
        seq![LedgerEvent::Receive(OutPoint { txid, vout: outputs.len() as u32 })]
    } else {
        Seq::empty()
    }));
}

/// One more input of a transaction is reported last exactly if it spends an
/// output that was held and that no input before it spends; what is reported of
/// those stays.
pub proof fn law_one_more_input(
    utxos: Map<OutPoint, TxOutView>,
    inputs: Seq<TxInView>,
    input: TxInView,
)
    ensures
        ({
            let o = input.previous_output;
            let fresh = forall|j: int|
                0 <= j < inputs.len() ==> (#[trigger] inputs[j]).previous_output != o;
            spend_events(utxos, inputs.push(input)) == spend_events(utxos, inputs) + (
            if utxos.contains_key(o) && fresh {
                seq![LedgerEvent::Spend(o)]
            } else {
                Seq::empty()
            })
        }),
        spend_events(utxos, Seq::empty()).len() == 0,
{
    let o = input.previous_output;
    assert(inputs.push(input).drop_last() =~= inputs);
    if exists|j: int| 0 <= j < inputs.len() && (#[trigger] inputs[j]).previous_output == o {
        assert(spent_by(inputs).contains(o));
    }
    assert(spend_events(utxos, inputs.push(input)) =~= spend_events(utxos, inputs) + (
    if utxos.contains_key(o) && !spent_by(inputs).contains(o) {
        seq![LedgerEvent::Spend(o)]
    } else {
        Seq::empty()
    }));
}

/// Of a transaction first its outputs are reported, then its inputs, which can
/// also spend its own outputs. It is reported alone as in a block of one, where it
/// also does the same; a block without transactions does nothing.
pub proof fn law_outputs_before_inputs(
    utxos: Map<OutPoint, TxOutView>,
    script: Seq<u8>,
    txid: Hash256,
    tx: TransactionView,
    o: OutPoint,
)
    ensures
        ({
            let events = tx_events(utxos, script, txid, tx);
            let n = receive_events(script, txid, tx.output).len() as int;
            &&& n <= events.len()
            &&& events.take(n) == receive_events(script, txid, tx.output)
            &&& events.skip(n).contains(LedgerEvent::Spend(o)) <==> (utxos.contains_key(o) || pays(
                script,
                txid,
                tx.output,
                o,
            )) && spent_by(tx.input).contains(o)
            &&& block_events(utxos, script, seq![txid], seq![tx]) == events
        }),
        connect_txs(utxos, script, seq![txid], seq![tx]) == connect_tx(utxos, script, txid, tx),
        connect_txs(utxos, script, Seq::empty(), Seq::empty()) == utxos,
        block_events(utxos, script, Seq::empty(), Seq::empty()).len() == 0,
{
    let events = tx_events(utxos, script, txid, tx);
    let n = receive_events(script, txid, tx.output).len() as int;
    let held = receive(utxos, script, txid, tx.output);
    reveal_with_fuel(connect_txs, 2);
    reveal_with_fuel(block_events, 2);
    assert(seq![tx].drop_last() =~= Seq::empty());
    assert(seq![txid].drop_last() =~= Seq::empty());
    assert(events.take(n) =~= receive_events(script, txid, tx.output));
    assert(events.skip(n) =~= spend_events(held, tx.input));
    assert(block_events(utxos, script, seq![txid], seq![tx]) =~= events);
    law_spends_are_reported(held, tx.input, o);
    lemma_receive_keys(utxos, script, txid, tx.output, o);
}

/// What a transaction does not spend is held as it was made where it pays to the
/// wallet, and as it was before where the transaction does not make it.
pub proof fn law_held_as_made(
    utxos: Map<OutPoint, TxOutView>,
    script: Seq<u8>,
    txid: Hash256,
    tx: TransactionView,
    i: int,
    o: OutPoint,
)
    requires
        !spent_by(tx.input).contains(o),
    ensures
        !pays(script, txid, tx.output, o) ==> connect_tx(utxos, script, txid, tx).get(o)
            == utxos.get(o),
        0 <= i < tx.output.len() <= 0x1_0000_0000 && tx.output[i].script_pubkey == script && o
            == outpoint(txid, i) ==> connect_tx(utxos, script, txid, tx).get(o) == Some(
            tx.output[i],
        ),
{
    law_held_after_tx(utxos, script, txid, tx, o);
    if !pays(script, txid, tx.output, o) {
        lemma_receive_keeps(utxos, script, txid, tx.output, o);
    }
    if 0 <= i < tx.output.len() <= 0x1_0000_0000 && tx.output[i].script_pubkey == script && o
        == outpoint(txid, i) {
        lemma_receive_value(utxos, script, txid, tx.output, i);
        assert(pays(script, txid, tx.output, o));
    }
}

/// A block does nothing to an output that it neither makes for the wallet nor
/// spends.
pub proof fn law_untouched_stays(
    utxos: Map<OutPoint, TxOutView>,
    script: Seq<u8>,
    txids: Seq<Hash256>,
    txs: Seq<TransactionView>,
    o: OutPoint,
)
    requires
        txids.len() == txs.len(),
        forall|k: int| !#[trigger] makes(script, txids, txs, k, o),
        forall|k: int|
            0 <= k < txs.len() ==> !spent_by((#[trigger] txs[k]).input).contains(o),
    ensures
        connect_txs(utxos, script, txids, txs).get(o) == utxos.get(o),
    decreases txs.len(),
{
    if txs.len() > 0 {
        let n = txs.len() - 1;
        let (ids, before) = (txids.drop_last(), txs.drop_last());
        assert forall|k: int| !#[trigger] makes(script, ids, before, k, o) by {
            assert(!makes(script, txids, txs, k, o));
        }
        assert forall|k: int| 0 <= k < before.len() implies !spent_by(
            (#[trigger] before[k]).input,
        ).contains(o) by {
            assert(!spent_by(txs[k].input).contains(o));
        }
        law_untouched_stays(utxos, script, ids, before, o);
        assert(!makes(script, txids, txs, n, o));
        assert(!spent_by(txs[n].input).contains(o));
        law_held_as_made(
            connect_txs(utxos, script, ids, before),
            script,
            txids.last(),
            txs.last(),
            0,
            o,
        );
    }
}

/// What is held stays held over a block that does not spend it.
proof fn lemma_held_stays(
    utxos: Map<OutPoint, TxOutView>,
    script: Seq<u8>,
    txids: Seq<Hash256>,
    txs: Seq<TransactionView>,
    o: OutPoint,
)
    requires
        utxos.contains_key(o),
        forall|k: int|
            0 <= k < txs.len() ==> !spent_by((#[trigger] txs[k]).input).contains(o),
    ensures
        connect_txs(utxos, script, txids, txs).contains_key(o),
    decreases txs.len(),
{
    if txs.len() > 0 {
        let (ids, before) = (txids.drop_last(), txs.drop_last());
        assert forall|k: int| 0 <= k < before.len() implies !spent_by(
            (#[trigger] before[k]).input,
        ).contains(o) by {
            assert(!spent_by(txs[k].input).contains(o));
        }
        lemma_held_stays(utxos, script, ids, before, o);
        assert(!spent_by(txs[txs.len() - 1].input).contains(o));
        law_held_after_tx(
            connect_txs(utxos, script, ids, before),
            script,
            txids.last(),
            txs.last(),
            o,
        );
    }
}

proof fn lemma_contains_add(a: Seq<LedgerEvent>, b: Seq<LedgerEvent>, e: LedgerEvent)
    ensures
        (a + b).contains(e) <==> a.contains(e) || b.contains(e),
{
    let both = a + b;
    if a.contains(e) {
        let i = choose|i: int| 0 <= i < a.len() && a[i] == e;
        assert(both[i] == e);
    }
    if b.contains(e) {
        let i = choose|i: int| 0 <= i < b.len() && b[i] == e;
        assert(both[a.len() + i] == e);
    }
    if both.contains(e) {
        let i = choose|i: int| 0 <= i < both.len() && both[i] == e;
        if i < a.len() {
            assert(a[i] == e);
        } else {
            assert(b[i - a.len()] == e);
        }
    }
}

proof fn lemma_receives_only(
    script: Seq<u8>,
    txid: Hash256,
    outputs: Seq<TxOutView>,
    o: OutPoint,
)
    ensures
        !receive_events(script, txid, outputs).contains(LedgerEvent::Spend(o)),
    decreases outputs.len(),
{
    if outputs.len() > 0 {
        lemma_receives_only(script, txid, outputs.drop_last(), o);
        lemma_contains_push(
            receive_events(script, txid, outputs.drop_last()),
            LedgerEvent::Receive(outpoint(txid, outputs.len() - 1)),
            LedgerEvent::Spend(o),
        );
    }
}

proof fn lemma_spends_only(utxos: Map<OutPoint, TxOutView>, inputs: Seq<TxInView>, o: OutPoint)
    ensures
        !spend_events(utxos, inputs).contains(LedgerEvent::Receive(o)),
    decreases inputs.len(),
{
    if inputs.len() > 0 {
        lemma_spends_only(utxos, inputs.drop_last(), o);
        lemma_contains_push(
            spend_events(utxos, inputs.drop_last()),
            LedgerEvent::Spend(inputs.last().previous_output),
            LedgerEvent::Receive(o),
        );
    }
}

/// A block is reported to pay an output to the wallet exactly if one of its
/// transactions makes it.
pub proof fn law_block_receives(
    utxos: Map<OutPoint, TxOutView>,
    script: Seq<u8>,
    txids: Seq<Hash256>,
    txs: Seq<TransactionView>,
    o: OutPoint,
)
    requires
        txids.len() == txs.len(),
    ensures
        block_events(utxos, script, txids, txs).contains(LedgerEvent::Receive(o)) <==> exists|
            k: int,
        | #[trigger] makes(script, txids, txs, k, o),
    decreases txs.len(),
{
    if txs.len() > 0 {
        let n = txs.len() - 1;
        let (ids, before) = (txids.drop_last(), txs.drop_last());
        let held = connect_txs(utxos, script, ids, before);
        let received = receive(held, script, txids.last(), txs.last().output);
        let e = LedgerEvent::Receive(o);
        law_block_receives(utxos, script, ids, before, o);
        lemma_contains_add(
            block_events(utxos, script, ids, before),
            tx_events(held, script, txids.last(), txs.last()),
            e,
        );
        lemma_contains_add(
            receive_events(script, txids.last(), txs.last().output),
            spend_events(received, txs.last().input),
            e,
        );
        law_receives_are_reported(script, txids.last(), txs.last().output, o);
        lemma_spends_only(received, txs.last().input, o);
        if exists|k: int| #[trigger] makes(script, ids, before, k, o) {
            let k = choose|k: int| #[trigger] makes(script, ids, before, k, o);
            assert(makes(script, txids, txs, k, o));
        }
        if exists|k: int| #[trigger] makes(script, txids, txs, k, o) {
            let k = choose|k: int| #[trigger] makes(script, txids, txs, k, o);
            if k < n {
                assert(makes(script, ids, before, k, o));
            }
        }
        if pays(script, txids.last(), txs.last().output, o) {
            assert(makes(script, txids, txs, n, o));
        }
    }
}

/// Whether the transaction in place `k` spends an output that the wallet then
/// holds: from before it, or by its own outputs.
pub open spec fn takes(
    utxos: Map<OutPoint, TxOutView>,
    script: Seq<u8>,
    txids: Seq<Hash256>,
    txs: Seq<TransactionView>,
    k: int,
    o: OutPoint,
) -> bool {
    &&& 0 <= k < txs.len()
    &&& spent_by(txs[k].input).contains(o)
    &&& connect_txs(utxos, script, txids.take(k), txs.take(k)).contains_key(o) || makes(
        script,
        txids,
        txs,
        k,
        o,
    )
}

/// A block is reported to spend an output exactly if one of its transactions
/// spends it while the wallet holds it.
pub proof fn law_block_spends(
    utxos: Map<OutPoint, TxOutView>,
    script: Seq<u8>,
    txids: Seq<Hash256>,
    txs: Seq<TransactionView>,
    o: OutPoint,
)
    requires
        txids.len() == txs.len(),
    ensures
        block_events(utxos, script, txids, txs).contains(LedgerEvent::Spend(o)) <==> exists|
            k: int,
        | #[trigger] takes(utxos, script, txids, txs, k, o),
    decreases txs.len(),
{
    if txs.len() > 0 {
        let n = txs.len() - 1;
        let (ids, before) = (txids.drop_last(), txs.drop_last());
        let held = connect_txs(utxos, script, ids, before);
        let received = receive(held, script, txids.last(), txs.last().output);
        let e = LedgerEvent::Spend(o);
        law_block_spends(utxos, script, ids, before, o);
        lemma_contains_add(
            block_events(utxos, script, ids, before),
            tx_events(held, script, txids.last(), txs.last()),
            e,
        );
        lemma_contains_add(
            receive_events(script, txids.last(), txs.last().output),
            spend_events(received, txs.last().input),
            e,
        );
        lemma_receives_only(script, txids.last(), txs.last().output, o);
        law_spends_are_reported(received, txs.last().input, o);
        lemma_receive_keys(held, script, txids.last(), txs.last().output, o);
        assert(txids.take(n) =~= ids);
        assert(txs.take(n) =~= before);
        assert(takes(utxos, script, txids, txs, n, o) <==> spend_events(
            received,
            txs.last().input,
        ).contains(e));
        assert forall|k: int| 0 <= k < n implies (#[trigger] takes(
            utxos,
            script,
            ids,
            before,
            k,
            o,
        ) <==> takes(utxos, script, txids, txs, k, o)) by {
            assert(ids.take(k) =~= txids.take(k));
            assert(before.take(k) =~= txs.take(k));
            assert(makes(script, ids, before, k, o) <==> makes(script, txids, txs, k, o));
        }
        if exists|k: int| #[trigger] takes(utxos, script, txids, txs, k, o) {
            let k = choose|k: int| #[trigger] takes(utxos, script, txids, txs, k, o);
            if k < n {
                assert(takes(utxos, script, ids, before, k, o));
            }
        }
        if exists|k: int| #[trigger] takes(utxos, script, ids, before, k, o) {
            let k = choose|k: int| #[trigger] takes(utxos, script, ids, before, k, o);
            assert(takes(utxos, script, txids, txs, k, o));
        }
    }
}

/// An output that the wallet holds and that some transaction of a block spends is
/// reported as spent.
pub proof fn law_held_spend_is_reported(
    utxos: Map<OutPoint, TxOutView>,
    script: Seq<u8>,
    txids: Seq<Hash256>,
    txs: Seq<TransactionView>,
    k: int,
    o: OutPoint,
)
    requires
        txids.len() == txs.len(),
        utxos.contains_key(o),
        0 <= k < txs.len(),
        spent_by(txs[k].input).contains(o),
    ensures
        block_events(utxos, script, txids, txs).contains(LedgerEvent::Spend(o)),
    decreases k,
{
    if exists|j: int| 0 <= j < k && spent_by((#[trigger] txs[j]).input).contains(o) {
        let j = choose|j: int| 0 <= j < k && spent_by((#[trigger] txs[j]).input).contains(o);
        law_held_spend_is_reported(utxos, script, txids, txs, j, o);
    } else {
        let before = txs.take(k);
        assert forall|j: int| 0 <= j < before.len() implies !spent_by(
            (#[trigger] before[j]).input,
        ).contains(o) by {
            assert(!spent_by(txs[j].input).contains(o));
        }
        lemma_held_stays(utxos, script, txids.take(k), before, o);
        assert(takes(utxos, script, txids, txs, k, o));
        law_block_spends(utxos, script, txids, txs, o);
    }
}

/// Nothing held is worth nothing; each output adds its amount, whatever else is
/// held.
pub proof fn law_sum_of_amounts(utxos: Map<OutPoint, TxOutView>, o: OutPoint, out: TxOutView)
    requires
        utxos.dom().finite(),
        !utxos.contains_key(o),
    ensures
        total(Map::empty()) == 0,
        total(utxos.insert(o, out)) == total(utxos) + out.value,
{
    lemma_total_insert(utxos, o, out);
    assert(utxos.remove(o) =~= utxos);
    assert(Map::<OutPoint, TxOutView>::empty().dom() =~= Set::empty());
}

} // verus!
