//! Unspent outputs, and what blocks do to them.
use vstd::prelude::*;

use crate::types::{Hash256, OutPoint, TransactionView, TxInView, TxOutView};

verus! {

/// What the wallet reports of a block, in order.
#[derive(Clone, Copy, Debug, PartialEq, Eq)]
pub enum LedgerEvent {
    /// An output that pays to the wallet.
    Receive(OutPoint),
    /// An unspent output of the wallet that was spent.
    Spend(OutPoint),
}

/// The output in place `i` of a transaction. Places are numbers of 32 bits.
pub open spec fn outpoint(txid: Hash256, i: int) -> OutPoint {
    OutPoint { txid, vout: i as u32 }
}

/// The unspent outputs after those of a transaction that pay to `script` have
/// joined them.
pub open spec fn receive(
    utxos: Map<OutPoint, TxOutView>,
    script: Seq<u8>,
    txid: Hash256,
    outputs: Seq<TxOutView>,
) -> Map<OutPoint, TxOutView>
    decreases outputs.len(),
{
    if outputs.len() == 0 {
        utxos
    } else {
        let before = receive(utxos, script, txid, outputs.drop_last());
        if outputs.last().script_pubkey == script {
            before.insert(outpoint(txid, outputs.len() - 1), outputs.last())
        } else {
            before
        }
    }
}

/// What is reported of the outputs of a transaction.
pub open spec fn receive_events(
    script: Seq<u8>,
    txid: Hash256,
    outputs: Seq<TxOutView>,
) -> Seq<LedgerEvent>
    decreases outputs.len(),
{
    if outputs.len() == 0 {
        Seq::empty()
    } else {
        let before = receive_events(script, txid, outputs.drop_last());
        if outputs.last().script_pubkey == script {
            before.push(LedgerEvent::Receive(outpoint(txid, outputs.len() - 1)))
        } else {
            before
        }
    }
}

/// The outputs that inputs spend.
pub open spec fn spent_by(inputs: Seq<TxInView>) -> Set<OutPoint> {
    Set::new(|o: OutPoint| exists|i: int|
        0 <= i < inputs.len() && (#[trigger] inputs[i]).previous_output == o)
}

/// The unspent outputs after those that the inputs spend have left them.
pub open spec fn spend(
    utxos: Map<OutPoint, TxOutView>,
    inputs: Seq<TxInView>,
) -> Map<OutPoint, TxOutView> {
    utxos.remove_keys(spent_by(inputs))
}

/// What is reported of the inputs of a transaction: each unspent output that
/// they spend, at its first occurrence.
pub open spec fn spend_events(
    utxos: Map<OutPoint, TxOutView>,
    inputs: Seq<TxInView>,
) -> Seq<LedgerEvent>
    decreases inputs.len(),
{
    if inputs.len() == 0 {
        Seq::empty()
    } else {
        let before = spend_events(utxos, inputs.drop_last());
        let o = inputs.last().previous_output;
        if spend(utxos, inputs.drop_last()).contains_key(o) {
            before.push(LedgerEvent::Spend(o))
        } else {
            before
        }
    }
}

/// The unspent outputs after a transaction: its outputs join them, then
/// those that its inputs spend leave.
pub open spec fn connect_tx(
    utxos: Map<OutPoint, TxOutView>,
    script: Seq<u8>,
    txid: Hash256,
    tx: TransactionView,
) -> Map<OutPoint, TxOutView> {
    spend(receive(utxos, script, txid, tx.output), tx.input)
}

/// What is reported of a transaction.
pub open spec fn tx_events(
    utxos: Map<OutPoint, TxOutView>,
    script: Seq<u8>,
    txid: Hash256,
    tx: TransactionView,
) -> Seq<LedgerEvent> {
    receive_events(script, txid, tx.output) + spend_events(
        receive(utxos, script, txid, tx.output),
        tx.input,
    )
}

/// The unspent outputs after the transactions of a block, where `txids` are
/// their ids.
pub open spec fn connect_txs(
    utxos: Map<OutPoint, TxOutView>,
    script: Seq<u8>,
    txids: Seq<Hash256>,
    txs: Seq<TransactionView>,
) -> Map<OutPoint, TxOutView>
    decreases txs.len(),
{
    if txs.len() == 0 {
        utxos
    } else {
        connect_tx(
            connect_txs(utxos, script, txids.drop_last(), txs.drop_last()),
            script,
            txids.last(),
            txs.last(),
        )
    }
}

/// What is reported of the transactions of a block.
pub open spec fn block_events(
    utxos: Map<OutPoint, TxOutView>,
    script: Seq<u8>,
    txids: Seq<Hash256>,
    txs: Seq<TransactionView>,
) -> Seq<LedgerEvent>
    decreases txs.len(),
{
    if txs.len() == 0 {
        Seq::empty()
    } else {
        block_events(utxos, script, txids.drop_last(), txs.drop_last()) + tx_events(
            connect_txs(utxos, script, txids.drop_last(), txs.drop_last()),
            script,
            txids.last(),
            txs.last(),
        )
    }
}

/// The sum of the amounts of unspent outputs.
pub open spec fn total(utxos: Map<OutPoint, TxOutView>) -> nat
    decreases utxos.dom().len(),
    when utxos.dom().finite()
{
    if utxos.dom().len() == 0 {
        0
    } else {
        let o = utxos.dom().choose();
        utxos[o].value as nat + total(utxos.remove(o))
    }
}

/// Taking any one output out lowers the sum by its amount.
pub proof fn lemma_total_remove(utxos: Map<OutPoint, TxOutView>, o: OutPoint)
    requires
        utxos.dom().finite(),
        utxos.contains_key(o),
    ensures
        total(utxos) == total(utxos.remove(o)) + utxos[o].value,
    decreases utxos.dom().len(),
{
    let c = utxos.dom().choose();
    assert(utxos.dom().contains(o));
    assert(utxos.dom().len() > 0);
    if c != o {
        lemma_total_remove(utxos.remove(c), o);
        lemma_total_remove(utxos.remove(o), c);
        assert(utxos.remove(c).remove(o) =~= utxos.remove(o).remove(c));
    }
}

/// A new output raises the sum by its amount; one that takes the place of
/// another also lowers it by the other's.
pub proof fn lemma_total_insert(utxos: Map<OutPoint, TxOutView>, o: OutPoint, out: TxOutView)
    requires
        utxos.dom().finite(),
    ensures
        total(utxos.insert(o, out)) == out.value + total(utxos.remove(o)),
{
    lemma_total_remove(utxos.insert(o, out), o);
    assert(utxos.insert(o, out).remove(o) =~= utxos.remove(o));
}

} // verus!
