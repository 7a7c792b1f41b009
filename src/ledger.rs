use vstd::prelude::*;

use crate::block::Block;
use crate::transaction::{tx_hash, Transaction, TransactionOutput};
use crate::utxo::UtxoSet;
use crate::validation::{input_keys, UtxoMap};

verus! {

/// One change that a transaction makes to the unspent outputs.
pub enum UtxoOp {
    /// The output under this key is spent.
    Remove(crate::hash::Hash),
    /// An output becomes spendable under the hash of the transaction that made it.
    Insert(crate::hash::Hash, TransactionOutput),
}

pub open spec fn apply_op(m: UtxoMap, op: UtxoOp) -> UtxoMap {
    match op {
        UtxoOp::Remove(k) => m.remove(k),
        UtxoOp::Insert(k, o) => m.insert(k, (false, o)),
    }
}

pub open spec fn apply_ops(m: UtxoMap, ops: Seq<UtxoOp>) -> UtxoMap
    decreases ops.len(),
{
    if ops.len() == 0 {
        m
    } else {
        apply_op(apply_ops(m, ops.drop_last()), ops.last())
    }
}

/// A transaction spends its inputs, then files each of its outputs under its own hash (so
/// that of several outputs the last one stays).
pub open spec fn tx_ops(t: Transaction) -> Seq<UtxoOp> {
    input_keys(t.inputs@).map_values(|k: crate::hash::Hash| UtxoOp::Remove(k)) + t.outputs@.map_values(
        |o: TransactionOutput| UtxoOp::Insert(tx_hash(t), o),
    )
}

pub open spec fn txs_ops(txs: Seq<Transaction>) -> Seq<UtxoOp>
    decreases txs.len(),
{
    if txs.len() == 0 {
        seq![]
    } else {
        txs_ops(txs.drop_last()) + tx_ops(txs.last())
    }
}

pub open spec fn blocks_ops(blocks: Seq<Block>) -> Seq<UtxoOp>
    decreases blocks.len(),
{
    if blocks.len() == 0 {
        seq![]
    } else {
        blocks_ops(blocks.drop_last()) + txs_ops(blocks.last().transactions@)
    }
}

pub open spec fn touches(op: UtxoOp, k: crate::hash::Hash) -> bool {
    match op {
        UtxoOp::Remove(x) => x == k,
        UtxoOp::Insert(x, _) => x == k,
    }
}

pub proof fn lemma_apply_concat(m: UtxoMap, a: Seq<UtxoOp>, b: Seq<UtxoOp>)
    ensures
        apply_ops(m, a + b) == apply_ops(apply_ops(m, a), b),
    decreases b.len(),
{
    if b.len() == 0 {
        assert(a + b =~= a);
    } else {
        assert((a + b).drop_last() =~= a + b.drop_last());
        lemma_apply_concat(m, a, b.drop_last());
    }
}

proof fn lemma_untouched(m: UtxoMap, ops: Seq<UtxoOp>, k: crate::hash::Hash)
    requires
        forall|i: int| 0 <= i < ops.len() ==> !touches(#[trigger] ops[i], k),
    ensures
        apply_ops(m, ops).contains_key(k) == m.contains_key(k),
        m.contains_key(k) ==> apply_ops(m, ops)[k] == m[k],
    decreases ops.len(),
{
    if ops.len() > 0 {
        assert(!touches(ops[ops.len() - 1], k));
        lemma_untouched(m, ops.drop_last(), k);
    }
}

proof fn lemma_touched(m1: UtxoMap, m2: UtxoMap, ops: Seq<UtxoOp>, k: crate::hash::Hash, i: int)
    requires
        0 <= i < ops.len(),
        touches(ops[i], k),
    ensures
        apply_ops(m1, ops).contains_key(k) == apply_ops(m2, ops).contains_key(k),
        apply_ops(m1, ops).contains_key(k) ==> apply_ops(m1, ops)[k] == apply_ops(m2, ops)[k],
    decreases ops.len(),
{
    if !touches(ops.last(), k) {
        lemma_touched(m1, m2, ops.drop_last(), k, i);
    }
}

/// Applying the same changes twice gives what applying them once gives: each key ends with
/// the last change that touches it, or as it was if none does.
pub proof fn lemma_apply_ops_idempotent(m: UtxoMap, ops: Seq<UtxoOp>)
    ensures
        apply_ops(apply_ops(m, ops), ops) == apply_ops(m, ops),
{
    let once = apply_ops(m, ops);
    let twice = apply_ops(once, ops);
    assert forall|k: crate::hash::Hash| #[trigger] twice.contains_key(k) == once.contains_key(k)
        && (once.contains_key(k) ==> twice[k] == once[k]) by {
        if exists|i: int| 0 <= i < ops.len() && touches(#[trigger] ops[i], k) {
            let i = choose|i: int| 0 <= i < ops.len() && touches(#[trigger] ops[i], k);
            lemma_touched(once, m, ops, k, i);
        } else {
            lemma_untouched(once, ops, k);
        }
    }
    assert(twice =~= once);
}

/// Applies a block's changes to the unspent outputs.
pub fn apply_block(utxos: &mut UtxoSet, block: &Block)
    ensures
        final(utxos)@ == apply_ops(old(utxos)@, txs_ops(block.transactions@)),
{
    let ghost m0 = utxos@;
    let mut i: usize = 0;
    while i < block.transactions.len()
        invariant
            i <= block.transactions@.len(),
            utxos@ == apply_ops(m0, txs_ops(block.transactions@.take(i as int))),
        decreases block.transactions@.len() - i,
    {
        let t = &block.transactions[i];
        let h = t.hash();
        let ghost before = txs_ops(block.transactions@.take(i as int));
        let ghost removes = input_keys(t.inputs@).map_values(
            |k: crate::hash::Hash| UtxoOp::Remove(k),
        );
        let ghost inserts = t.outputs@.map_values(|o: TransactionOutput| UtxoOp::Insert(h, o));
        let mut j: usize = 0;
        while j < t.inputs.len()
            invariant
                j <= t.inputs@.len(),
                removes.len() == t.inputs@.len(),
                forall|a: int|
                    0 <= a < t.inputs@.len() ==> #[trigger] removes[a] == UtxoOp::Remove(
                        t.inputs@[a].prev_transaction_output_hash,
                    ),
                utxos@ == apply_ops(m0, before + removes.take(j as int)),
            decreases t.inputs@.len() - j,
        {
            utxos.remove(&t.inputs[j].prev_transaction_output_hash);
            proof {
                assert((before + removes.take(j + 1)).drop_last() =~= before + removes.take(
                    j as int,
                ));
            }
            j = j + 1;
        }
        proof {
            assert(removes.take(j as int) =~= removes);
            assert(before + removes + inserts.take(0) =~= before + removes.take(j as int));
        }
        let mut k: usize = 0;
        while k < t.outputs.len()
            invariant
                k <= t.outputs@.len(),
                inserts.len() == t.outputs@.len(),
                forall|a: int|
                    0 <= a < t.outputs@.len() ==> #[trigger] inserts[a] == UtxoOp::Insert(
                        h,
                        t.outputs@[a],
                    ),
                utxos@ == apply_ops(m0, before + removes + inserts.take(k as int)),
            decreases t.outputs@.len() - k,
        {
            utxos.insert(h, false, t.outputs[k]);
            proof {
                assert((before + removes + inserts.take(k + 1)).drop_last() =~= before + removes
                    + inserts.take(k as int));
            }
            k = k + 1;
        }
        proof {
            assert(inserts.take(k as int) =~= inserts);
            assert(block.transactions@.take(i + 1).drop_last() =~= block.transactions@.take(
                i as int,
            ));
            assert(block.transactions@.take(i + 1).last() == *t);
            assert(tx_ops(*t) =~= removes + inserts);
            assert(before + removes + inserts =~= txs_ops(block.transactions@.take(i + 1)));
        }
        i = i + 1;
    }
    assert(block.transactions@.take(i as int) =~= block.transactions@);
}

} // verus!
