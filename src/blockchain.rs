use vstd::prelude::*;

use crate::block::{
    block_hash, meets_target, merkle_root_of, same_transaction, tx_hashes, zero_hash, Block,
    BlockHeader, MerkleRoot,
};
use crate::crypto::PublicKey;
use crate::error::BtcError;
use crate::ledger::{apply_block, apply_ops, blocks_ops, lemma_apply_concat, tx_ops, txs_ops, UtxoOp};
use crate::time::Timestamp;
use crate::transaction::{sum_outputs, tx_hash, Transaction, TransactionOutput};
use crate::u256::{limb_base, min_target_value, u256_modulus, U256};
use crate::utxo::UtxoSet;
use crate::validation::{
    all_known, block_inputs, block_reward, calculate_block_reward, has_duplicate, input_keys,
    keys_known, keys_of, sum_output_values, sum_values, transactions_outcome, tx_input_value,
    UtxoMap,
};

verus! {

/// Seconds that a block should take on average.
pub const IDEAL_BLOCK_TIME: u64 = 10;

/// The target is reconsidered every this many blocks.
pub const DIFFICULTY_UPDATE_INTERVAL: u64 = 50;

/// Seconds after which a transaction that no block took leaves the mempool.
pub const MAX_MEMPOOL_TRANSACTION_AGE: u64 = 600;

/// The most transactions in a block, coinbase included.
pub const BLOCK_TRANSACTION_CAP: usize = 20;

/// The interval's duration when every block takes the ideal time.
pub const IDEAL_INTERVAL_SECONDS: u64 = 500;

/// The retarget rule: the target scaled by how long the interval actually took against the
/// ideal, rounded down, kept within a quarter and four times the old target, and never
/// easier than the minimum target.
pub open spec fn retarget_value(target: nat, actual_seconds: int) -> nat {
    let raw = target * actual_seconds / (IDEAL_INTERVAL_SECONDS as int);
    let clamped = if raw < target / 4 {
        (target / 4) as int
    } else if raw > target * 4 {
        (target * 4) as int
    } else {
        raw
    };
    if clamped <= min_target_value() {
        clamped as nat
    } else {
        min_target_value()
    }
}

/// The new target for a target and the seconds that the last interval took.
pub fn next_target(target: U256, actual_seconds: u64) -> (r: U256)
    requires
        target.value() <= min_target_value(),
    ensures
        r.value() == retarget_value(target.value(), actual_seconds as int),
{
    let capped: u64 = if actual_seconds > 2000 {
        2000
    } else {
        actual_seconds
    };
    proof {
        let t = target.value();
        let b = limb_base();
        let md = u256_modulus();
        let mn = min_target_value();
        assert(mn < 0x1_0000_0000_0000_0000_0000_0000_0000_0000_0000_0000_0000_0000_0000nat);
        assert(t * capped <= t * 2000) by (nonlinear_arith)
            requires
                capped <= 2000,
        ;
        assert(t * 2000 < md) by (nonlinear_arith)
            requires
                t <= mn,
                mn < 0x1_0000_0000_0000_0000_0000_0000_0000_0000_0000_0000_0000_0000_0000nat,
                b == 0x1_0000_0000_0000_0000nat,
                md == b * b * b * b,
        ;
        assert(t * 4 <= t * 2000) by (nonlinear_arith);
        lemma_retarget_cap(t, actual_seconds as int);
    }
    let raw = target.mul_u64(capped).div_u64(IDEAL_INTERVAL_SECONDS);
    let quarter = target.div_u64(4);
    let quadruple = target.mul_u64(4);
    let clamped = if raw.lt(&quarter) {
        quarter
    } else if quadruple.lt(&raw) {
        quadruple
    } else {
        raw
    };
    clamped.min(U256::min_target())
}

/// Intervals longer than four times the ideal all give four times the target.
proof fn lemma_retarget_cap(t: nat, actual: int)
    requires
        actual >= 0,
    ensures
        retarget_value(t, actual) == retarget_value(t, if actual > 2000 { 2000 } else { actual }),
{
    if actual > 2000 {
        assert(t * actual >= t * 2000) by (nonlinear_arith)
            requires
                actual > 2000,
        ;
        vstd::arithmetic::div_mod::lemma_div_is_ordered((t * 2000) as int, t * actual, 500);
        assert((t * 2000) as int / 500 == t * 4) by {
            vstd::arithmetic::div_mod::lemma_div_multiples_vanish((t * 4) as int, 500);
        }
        assert(t * 4 >= t / 4);
    }
}

/// A transaction waiting in the mempool: when it arrived and the fee it pays.
#[derive(Debug)]
pub struct MempoolEntry {
    pub timestamp: Timestamp,
    pub transaction: Transaction,
    pub fee: u64,
}

/// Entries ordered by fee, highest first.
pub open spec fn fee_ordered(s: Seq<MempoolEntry>) -> bool {
    forall|i: int, j: int| 0 <= i < j < s.len() ==> s[i].fee >= s[j].fee
}

/// The rules that every chain built by appending blocks keeps: the first block follows the
/// zero hash; every later block follows the hash of the one before, meets its own target
/// and commits to its transactions; and timestamps increase strictly.
#[verifier::opaque]
pub open spec fn chain_valid(blocks: Seq<Block>) -> bool {
    &&& blocks.len() > 0 ==> blocks[0].header.prev_block_hash == zero_hash()
    &&& forall|i: int|
        0 < i < blocks.len() ==> (#[trigger] blocks[i]).header.prev_block_hash == block_hash(
            blocks[i - 1],
        )
    &&& forall|i: int| 0 < i < blocks.len() ==> meets_target((#[trigger] blocks[i]).header)
    &&& forall|i: int|
        0 < i < blocks.len() ==> (#[trigger] blocks[i]).header.merkle_root == merkle_root_of(
            blocks[i].transactions@,
        )
    &&& forall|i: int, j: int|
        0 <= i < j < blocks.len() ==> (#[trigger] blocks[i]).header.timestamp.total_nanos() < (
        #[trigger] blocks[j]).header.timestamp.total_nanos()
}

/// The target after the chain `blocks` has grown to its length, from the target before.
pub open spec fn adjusted_target(blocks: Seq<Block>, target: U256) -> nat {
    let n = blocks.len();
    if n == 0 || n % (DIFFICULTY_UPDATE_INTERVAL as nat) != 0 {
        target.value()
    } else {
        let start = blocks[n - DIFFICULTY_UPDATE_INTERVAL].header.timestamp;
        let end = blocks[n - 1].header.timestamp;
        retarget_value(
            target.value(),
            (end.total_nanos() - start.total_nanos()) / 1_000_000_000,
        )
    }
}

/// The hash that the next block must name as its predecessor.
pub open spec fn expected_prev_hash(blocks: Seq<Block>) -> crate::hash::Hash {
    if blocks.len() == 0 {
        zero_hash()
    } else {
        block_hash(blocks.last())
    }
}

/// The entries that `keep` accepts, in their order.
pub open spec fn retain_entries(s: Seq<MempoolEntry>, keep: spec_fn(MempoolEntry) -> bool) -> Seq<
    MempoolEntry,
>
    decreases s.len(),
{
    if s.len() == 0 {
        s
    } else if keep(s.last()) {
        retain_entries(s.drop_last(), keep).push(s.last())
    } else {
        retain_entries(s.drop_last(), keep)
    }
}

proof fn lemma_retain_bound(s: Seq<MempoolEntry>, keep: spec_fn(MempoolEntry) -> bool, b: u64)
    requires
        forall|i: int| 0 <= i < s.len() ==> (#[trigger] s[i]).fee >= b,
    ensures
        forall|i: int|
            0 <= i < retain_entries(s, keep).len() ==> (#[trigger] retain_entries(s, keep)[i]).fee
                >= b,
    decreases s.len(),
{
    if s.len() > 0 {
        let rest = s.drop_last();
        assert forall|i: int| 0 <= i < rest.len() implies (#[trigger] rest[i]).fee >= b by {
            assert(rest[i] == s[i]);
        }
        lemma_retain_bound(rest, keep, b);
        let r = retain_entries(rest, keep);
        assert(s[s.len() - 1].fee >= b);
        if keep(s.last()) {
            assert(retain_entries(s, keep) == r.push(s.last()));
            assert forall|i: int| 0 <= i < r.len() + 1 implies (#[trigger] r.push(s.last())[i]).fee
                >= b by {
                if i < r.len() {
                    assert(r.push(s.last())[i] == r[i]);
                }
            }
        } else {
            assert(retain_entries(s, keep) == r);
        }
    }
}

/// Dropping entries keeps the mempool ordered by fee.
pub proof fn lemma_retain_ordered(s: Seq<MempoolEntry>, keep: spec_fn(MempoolEntry) -> bool)
    requires
        fee_ordered(s),
    ensures
        fee_ordered(retain_entries(s, keep)),
    decreases s.len(),
{
    if s.len() > 0 {
        let rest = s.drop_last();
        assert(fee_ordered(rest)) by {
            assert forall|i: int, j: int| 0 <= i < j < rest.len() implies rest[i].fee
                >= rest[j].fee by {
                assert(rest[i] == s[i] && rest[j] == s[j]);
            }
        }
        lemma_retain_ordered(rest, keep);
        assert forall|i: int| 0 <= i < rest.len() implies (#[trigger] rest[i]).fee
            >= s.last().fee by {
            assert(rest[i] == s[i]);
        }
        lemma_retain_bound(rest, keep, s.last().fee);
    }
}

/// The one-step unfolding of `retain_entries` on a prefix.
proof fn lemma_retain_step(s: Seq<MempoolEntry>, keep: spec_fn(MempoolEntry) -> bool, p: int)
    requires
        0 <= p < s.len(),
    ensures
        retain_entries(s.take(p + 1), keep) == (if keep(s[p]) {
            retain_entries(s.take(p), keep).push(s[p])
        } else {
            retain_entries(s.take(p), keep)
        }),
{
    assert(s.take(p + 1).drop_last() =~= s.take(p));
    assert(s.take(p + 1).last() == s[p]);
}

/// Keeps the entries whose transaction is not among the hashes.
pub open spec fn not_included(hashes: Seq<crate::hash::Hash>) -> spec_fn(MempoolEntry) -> bool {
    |e: MempoolEntry| !hashes.contains(tx_hash(e.transaction))
}

/// What appending a block to a chain with these blocks and unspent outputs gives.
pub open spec fn add_block_outcome(blocks: Seq<Block>, m: UtxoMap, block: Block) -> Result<
    (),
    BtcError,
> {
    if blocks.len() == 0 {
        if block.header.prev_block_hash == zero_hash() {
            Ok(())
        } else {
            Err(BtcError::InvalidBlock)
        }
    } else if block.header.prev_block_hash != block_hash(blocks.last()) {
        Err(BtcError::InvalidBlock)
    } else if !meets_target(block.header) {
        Err(BtcError::InvalidBlock)
    } else if block.header.merkle_root != merkle_root_of(block.transactions@) {
        Err(BtcError::InvalidMerkleRoot)
    } else if block.header.timestamp.total_nanos() <= blocks.last().header.timestamp.total_nanos() {
        Err(BtcError::InvalidBlock)
    } else {
        transactions_outcome(block.transactions@, blocks.len() as u64, m)
    }
}

fn transaction_hashes(txs: &Vec<Transaction>) -> (r: Vec<crate::hash::Hash>)
    ensures
        r@ == tx_hashes(txs@),
{
    let mut r: Vec<crate::hash::Hash> = Vec::new();
    let mut i: usize = 0;
    while i < txs.len()
        invariant
            i <= txs@.len(),
            r@ =~= tx_hashes(txs@).take(i as int),
        decreases txs@.len() - i,
    {
        let h = txs[i].hash();
        r.push(h);
        i = i + 1;
    }
    assert(r@ =~= tx_hashes(txs@));
    r
}

/// Whether the hash is among the hashes.
pub fn contains_hash(v: &Vec<crate::hash::Hash>, k: &crate::hash::Hash) -> (r: bool)
    ensures
        r == v@.contains(*k),
{
    let mut i: usize = 0;
    while i < v.len()
        invariant
            i <= v@.len(),
            forall|j: int| 0 <= j < i ==> v@[j] != *k,
        decreases v@.len() - i,
    {
        if v[i] == *k {
            return true;
        }
        i = i + 1;
    }
    false
}

/// Appending a block that passed the checks keeps a chain valid.
#[verifier::rlimit(50)]
proof fn lemma_chain_push(blocks: Seq<Block>, block: Block)
    requires
        chain_valid(blocks),
        blocks.len() == 0 ==> block.header.prev_block_hash == zero_hash(),
        blocks.len() > 0 ==> {
            &&& block.header.prev_block_hash == block_hash(blocks.last())
            &&& meets_target(block.header)
            &&& block.header.merkle_root == merkle_root_of(block.transactions@)
            &&& block.header.timestamp.total_nanos() > blocks.last().header.timestamp.total_nanos()
        },
    ensures
        chain_valid(blocks.push(block)),
{
    reveal(chain_valid);
    let bs = blocks.push(block);
    let n = blocks.len() as int;
    assert forall|i: int| 0 <= i < n implies #[trigger] bs[i] == blocks[i] by {}
    assert(bs[n] == block);
    assert forall|i: int| 0 < i < bs.len() implies (#[trigger] bs[i]).header.prev_block_hash
        == block_hash(bs[i - 1]) by {
        if i < n {
            assert(bs[i - 1] == blocks[i - 1]);
        }
    }
    assert forall|i: int| 0 < i < bs.len() implies meets_target((#[trigger] bs[i]).header) by {}
    assert forall|i: int| 0 < i < bs.len() implies (#[trigger] bs[i]).header.merkle_root
        == merkle_root_of(bs[i].transactions@) by {}
    assert forall|i: int, j: int| 0 <= i < j < bs.len() implies (#[trigger] bs[i]).header.timestamp.total_nanos()
        < (#[trigger] bs[j]).header.timestamp.total_nanos() by {
        if j == n && i < n - 1 {
            assert(blocks[i].header.timestamp.total_nanos() < blocks[n - 1].header.timestamp.total_nanos());
        }
    }
}

/// Removes from the mempool the entries whose transaction is among the hashes.
#[verifier::spinoff_prover]
#[verifier::rlimit(60)]
fn remove_included(mempool: &mut Vec<MempoolEntry>, hashes: &Vec<crate::hash::Hash>)
    ensures
        final(mempool)@ == retain_entries(old(mempool)@, not_included(hashes@)),
{
    let ghost keep = not_included(hashes@);
    let ghost orig = mempool@;
    let ghost mut p: int = 0;
    let mut i: usize = 0;
    while i < mempool.len()
        invariant
            0 <= p <= orig.len(),
            i == retain_entries(orig.take(p), keep).len(),
            mempool@ == retain_entries(orig.take(p), keep) + orig.skip(p),
            keep == not_included(hashes@),
        decreases mempool@.len() - i,
    {
        let ghost r = retain_entries(orig.take(p), keep);
        let ghost rest = orig.skip(p);
        proof {
            assert(rest.len() > 0);
            assert(mempool@[i as int] == rest[0]);
            assert(rest[0] == orig[p]);
            lemma_retain_step(orig, keep, p);
            assert(rest.skip(1) =~= orig.skip(p + 1));
        }
        let h = mempool[i].transaction.hash();
        if contains_hash(hashes, &h) {
            let _ = mempool.remove(i);
            proof {
                assert(!keep(orig[p]));
                assert(mempool@ =~= r + rest.skip(1));
            }
        } else {
            i = i + 1;
            proof {
                assert(keep(orig[p]));
                assert(r + rest =~= r.push(orig[p]) + rest.skip(1));
            }
        }
        proof {
            p = p + 1;
        }
    }
    proof {
        assert(orig.take(p) =~= orig);
        assert(mempool@ =~= retain_entries(orig, keep));
    }
}

/// Whether a transaction spends any of the keys.
pub open spec fn spends_any(t: Transaction, keys: Seq<crate::hash::Hash>) -> bool {
    exists|j: int|
        0 <= j < t.inputs@.len() && keys.contains(#[trigger] t.inputs@[j].prev_transaction_output_hash)
}

/// Keeps the entries that spend none of the keys.
pub open spec fn no_conflict(keys: Seq<crate::hash::Hash>) -> spec_fn(MempoolEntry) -> bool {
    |e: MempoolEntry| !spends_any(e.transaction, keys)
}

/// Whether an entry has waited more than the longest a transaction may wait.
pub open spec fn expired(now: Timestamp, e: MempoolEntry) -> bool {
    now.total_nanos() - e.timestamp.total_nanos() > MAX_MEMPOOL_TRANSACTION_AGE * 1_000_000_000
}

pub open spec fn not_expired(now: Timestamp) -> spec_fn(MempoolEntry) -> bool {
    |e: MempoolEntry| !expired(now, e)
}

/// The conditions for a transaction to enter the mempool: every output that it spends
/// exists and is spent once, what it spends fits in 64 bits, and it pays out no more than
/// it spends.
pub open spec fn mempool_admissible(t: Transaction, m: UtxoMap) -> bool {
    &&& keys_known(input_keys(t.inputs@), m)
    &&& input_keys(t.inputs@).no_duplicates()
    &&& tx_input_value(t, m) <= u64::MAX
    &&& sum_outputs(t.outputs@) <= tx_input_value(t, m)
}

/// Two maps of unspent outputs with the same keys and outputs; only marks may differ.
pub open spec fn same_outputs(a: UtxoMap, b: UtxoMap) -> bool {
    &&& forall|k: crate::hash::Hash| #[trigger] a.contains_key(k) == b.contains_key(k)
    &&& forall|k: crate::hash::Hash| #[trigger] a.contains_key(k) ==> a[k].1 == b[k].1
}

/// Clears the marks of the outputs that a transaction spends.
fn unmark_inputs(utxos: &mut UtxoSet, t: &Transaction)
    ensures
        same_outputs(final(utxos)@, old(utxos)@),
        forall|j: int|
            0 <= j < t.inputs@.len() && final(utxos)@.contains_key(
                #[trigger] t.inputs@[j].prev_transaction_output_hash,
            ) ==> !final(utxos)@[t.inputs@[j].prev_transaction_output_hash].0,
        forall|k: crate::hash::Hash|
            !input_keys(t.inputs@).contains(k) && old(utxos)@.contains_key(k)
                ==> #[trigger] final(utxos)@[k] == old(utxos)@[k],
{
    let mut j: usize = 0;
    while j < t.inputs.len()
        invariant
            j <= t.inputs@.len(),
            same_outputs(utxos@, old(utxos)@),
            forall|a: int|
                0 <= a < j && utxos@.contains_key(#[trigger] t.inputs@[a].prev_transaction_output_hash)
                    ==> !utxos@[t.inputs@[a].prev_transaction_output_hash].0,
            forall|k: crate::hash::Hash|
                !input_keys(t.inputs@).contains(k) && old(utxos)@.contains_key(k) ==> #[trigger] utxos@[k]
                    == old(utxos)@[k],
        decreases t.inputs@.len() - j,
    {
        let k = t.inputs[j].prev_transaction_output_hash;
        proof {
            assert(input_keys(t.inputs@)[j as int] == k);
        }
        utxos.set_marked(&k, false);
        j = j + 1;
    }
}

/// Whether the transaction spends one of the keys.
fn spends_one_of(t: &Transaction, keys: &Vec<crate::hash::Hash>) -> (r: bool)
    ensures
        r == spends_any(*t, keys@),
{
    let mut j: usize = 0;
    while j < t.inputs.len()
        invariant
            j <= t.inputs@.len(),
            forall|a: int| 0 <= a < j ==> !keys@.contains(#[trigger] t.inputs@[a].prev_transaction_output_hash),
        decreases t.inputs@.len() - j,
    {
        if contains_hash(keys, &t.inputs[j].prev_transaction_output_hash) {
            return true;
        }
        j = j + 1;
    }
    false
}

/// Whether a pending entry that spends one of the keys spends output `k`.
pub open spec fn spent_by_conflicting(
    s: Seq<MempoolEntry>,
    keys: Seq<crate::hash::Hash>,
    k: crate::hash::Hash,
) -> bool {
    exists|q: int, j: int|
        0 <= q < s.len() && spends_any(s[q].transaction, keys) && 0 <= j
            < s[q].transaction.inputs@.len() && #[trigger] s[q].transaction.inputs@[j].prev_transaction_output_hash
            == k
}

/// Whether a pending entry that has expired at `now` spends output `k`.
pub open spec fn spent_by_expired(s: Seq<MempoolEntry>, now: Timestamp, k: crate::hash::Hash) -> bool {
    exists|q: int, j: int|
        0 <= q < s.len() && expired(now, s[q]) && 0 <= j < s[q].transaction.inputs@.len()
            && #[trigger] s[q].transaction.inputs@[j].prev_transaction_output_hash == k
}

/// Evicts the entries that spend one of the keys, clearing the marks of what they spent.
#[verifier::spinoff_prover]
#[verifier::rlimit(60)]
fn evict_conflicting(
    mempool: &mut Vec<MempoolEntry>,
    utxos: &mut UtxoSet,
    keys: &Vec<crate::hash::Hash>,
)
    ensures
        final(mempool)@ == retain_entries(old(mempool)@, no_conflict(keys@)),
        same_outputs(final(utxos)@, old(utxos)@),
        forall|q: int, j: int|
            0 <= q < old(mempool)@.len() && spends_any(old(mempool)@[q].transaction, keys@) && 0 <= j
                < old(mempool)@[q].transaction.inputs@.len() && final(utxos)@.contains_key(
                #[trigger] old(mempool)@[q].transaction.inputs@[j].prev_transaction_output_hash,
            ) ==> !final(utxos)@[old(mempool)@[q].transaction.inputs@[j].prev_transaction_output_hash].0,
        forall|k: crate::hash::Hash|
            old(utxos)@.contains_key(k) && !spent_by_conflicting(old(mempool)@, keys@, k)
                ==> #[trigger] final(utxos)@[k] == old(utxos)@[k],
{
    let ghost keep = no_conflict(keys@);
    let ghost orig = mempool@;
    let ghost mut p: int = 0;
    let mut i: usize = 0;
    while i < mempool.len()
        invariant
            0 <= p <= orig.len(),
            i == retain_entries(orig.take(p), keep).len(),
            mempool@ == retain_entries(orig.take(p), keep) + orig.skip(p),
            keep == no_conflict(keys@),
            orig == old(mempool)@,
            same_outputs(utxos@, old(utxos)@),
            forall|q: int, j: int|
                0 <= q < p && spends_any(orig[q].transaction, keys@) && 0 <= j
                    < orig[q].transaction.inputs@.len() && utxos@.contains_key(
                    #[trigger] orig[q].transaction.inputs@[j].prev_transaction_output_hash,
                ) ==> !utxos@[orig[q].transaction.inputs@[j].prev_transaction_output_hash].0,
            forall|k: crate::hash::Hash|
                old(utxos)@.contains_key(k) && (forall|q: int, j: int|
                    0 <= q < p && spends_any(orig[q].transaction, keys@) && 0 <= j
                        < orig[q].transaction.inputs@.len()
                        ==> #[trigger] orig[q].transaction.inputs@[j].prev_transaction_output_hash
                        != k) ==> #[trigger] utxos@[k] == old(utxos)@[k],
        decreases mempool@.len() - i,
    {
        let ghost r = retain_entries(orig.take(p), keep);
        let ghost rest = orig.skip(p);
        proof {
            assert(rest.len() > 0);
            assert(mempool@[i as int] == rest[0]);
            assert(rest[0] == orig[p]);
            lemma_retain_step(orig, keep, p);
            assert(rest.skip(1) =~= orig.skip(p + 1));
        }
        let ghost before = utxos@;
        if spends_one_of(&mempool[i].transaction, keys) {
            unmark_inputs(utxos, &mempool[i].transaction);
            let _ = mempool.remove(i);
            proof {
                assert(!keep(orig[p]));
                assert(mempool@ =~= r + rest.skip(1));
                assert forall|q: int, j: int|
                    0 <= q < p + 1 && spends_any(orig[q].transaction, keys@) && 0 <= j
                        < orig[q].transaction.inputs@.len() && utxos@.contains_key(
                        #[trigger] orig[q].transaction.inputs@[j].prev_transaction_output_hash,
                    ) implies !utxos@[orig[q].transaction.inputs@[j].prev_transaction_output_hash].0 by {
                    let k = orig[q].transaction.inputs@[j].prev_transaction_output_hash;
                    if q < p && !input_keys(orig[p].transaction.inputs@).contains(k) {
                        assert(before.contains_key(k));
                        assert(utxos@[k] == before[k]);
                    } else if q < p {
                        let a = choose|a: int|
                            0 <= a < input_keys(orig[p].transaction.inputs@).len() && input_keys(
                                orig[p].transaction.inputs@,
                            )[a] == k;
                        assert(orig[p].transaction.inputs@[a].prev_transaction_output_hash == k);
                    }
                }
                assert forall|k: crate::hash::Hash|
                    old(utxos)@.contains_key(k) && (forall|q: int, j: int|
                        0 <= q < p + 1 && spends_any(orig[q].transaction, keys@) && 0 <= j
                            < orig[q].transaction.inputs@.len()
                            ==> #[trigger] orig[q].transaction.inputs@[j].prev_transaction_output_hash
                            != k) implies #[trigger] utxos@[k] == old(utxos)@[k] by {
                    if input_keys(orig[p].transaction.inputs@).contains(k) {
                        let a = choose|a: int|
                            0 <= a < input_keys(orig[p].transaction.inputs@).len() && input_keys(
                                orig[p].transaction.inputs@,
                            )[a] == k;
                        assert(orig[p].transaction.inputs@[a].prev_transaction_output_hash == k);
                    }
                    assert(before[k] == old(utxos)@[k]);
                }
            }
        } else {
            i = i + 1;
            proof {
                assert(keep(orig[p]));
                assert(r + rest =~= r.push(orig[p]) + rest.skip(1));
            }
        }
        proof {
            p = p + 1;
        }
    }
    proof {
        assert(orig.take(p) =~= orig);
        assert(mempool@ =~= retain_entries(orig, keep));
    }
}

/// No pending transaction spends an output that is not unspent.
pub open spec fn mempool_spendable(mempool: Seq<MempoolEntry>, m: UtxoMap) -> bool {
    forall|i: int, j: int|
        0 <= i < mempool.len() && 0 <= j < mempool[i].transaction.inputs@.len() ==> m.contains_key(
            #[trigger] mempool[i].transaction.inputs@[j].prev_transaction_output_hash,
        )
}

/// Whether a pending entry spends one of the keys.
pub open spec fn pool_spends_any(mempool: Seq<MempoolEntry>, keys: Seq<crate::hash::Hash>) -> bool {
    exists|i: int| 0 <= i < mempool.len() && #[trigger] spends_any(mempool[i].transaction, keys)
}

proof fn lemma_retain_spendable(s: Seq<MempoolEntry>, keep: spec_fn(MempoolEntry) -> bool, m: UtxoMap)
    requires
        mempool_spendable(s, m),
    ensures
        mempool_spendable(retain_entries(s, keep), m),
    decreases s.len(),
{
    if s.len() > 0 {
        let rest = s.drop_last();
        assert forall|i: int, j: int|
            0 <= i < rest.len() && 0 <= j < rest[i].transaction.inputs@.len() implies m.contains_key(
            #[trigger] rest[i].transaction.inputs@[j].prev_transaction_output_hash,
        ) by {
            assert(rest[i] == s[i]);
        }
        lemma_retain_spendable(rest, keep, m);
        let r = retain_entries(rest, keep);
        if keep(s.last()) {
            let q = r.push(s.last());
            assert forall|i: int, j: int|
                0 <= i < q.len() && 0 <= j < q[i].transaction.inputs@.len() implies m.contains_key(
                #[trigger] q[i].transaction.inputs@[j].prev_transaction_output_hash,
            ) by {
                if i < r.len() {
                    assert(q[i] == r[i]);
                } else {
                    assert(q[i] == s[s.len() - 1]);
                }
            }
        }
    }
}

proof fn lemma_spendable_same_outputs(s: Seq<MempoolEntry>, a: UtxoMap, b: UtxoMap)
    requires
        mempool_spendable(s, a),
        same_outputs(b, a),
    ensures
        mempool_spendable(s, b),
{
    assert forall|i: int, j: int|
        0 <= i < s.len() && 0 <= j < s[i].transaction.inputs@.len() implies b.contains_key(
        #[trigger] s[i].transaction.inputs@[j].prev_transaction_output_hash,
    ) by {
        assert(a.contains_key(s[i].transaction.inputs@[j].prev_transaction_output_hash));
    }
}

/// A key stays unspent through changes that never spend it.
proof fn lemma_keeps_key(m: UtxoMap, ops: Seq<UtxoOp>, k: crate::hash::Hash)
    requires
        m.contains_key(k),
        forall|i: int| 0 <= i < ops.len() ==> #[trigger] ops[i] != UtxoOp::Remove(k),
    ensures
        apply_ops(m, ops).contains_key(k),
    decreases ops.len(),
{
    if ops.len() > 0 {
        assert(ops[ops.len() - 1] != UtxoOp::Remove(k));
        lemma_keeps_key(m, ops.drop_last(), k);
    }
}

/// The transactions' changes spend only keys that their inputs name.
proof fn lemma_removes_are_inputs(txs: Seq<Transaction>, i: int, k: crate::hash::Hash)
    requires
        0 <= i < txs_ops(txs).len(),
        txs_ops(txs)[i] == UtxoOp::Remove(k),
    ensures
        input_keys(block_inputs(txs)).contains(k),
    decreases txs.len(),
{
    let rest = txs.drop_last();
    let t = txs.last();
    let before = txs_ops(rest);
    let removes = input_keys(t.inputs@).map_values(|x: crate::hash::Hash| UtxoOp::Remove(x));
    assert(tx_ops(t) == removes + t.outputs@.map_values(
        |o: crate::transaction::TransactionOutput| UtxoOp::Insert(crate::transaction::tx_hash(t), o),
    ));
    assert(input_keys(block_inputs(txs)) =~= input_keys(block_inputs(rest)) + input_keys(t.inputs@));
    if i < before.len() {
        assert(txs_ops(txs)[i] == before[i]);
        lemma_removes_are_inputs(rest, i, k);
        let w = choose|w: int| 0 <= w < input_keys(block_inputs(rest)).len() && input_keys(block_inputs(rest))[w] == k;
        assert(input_keys(block_inputs(txs))[w] == k);
    } else if i < before.len() + removes.len() {
        let w = i - before.len();
        assert(txs_ops(txs)[i] == removes[w]);
        assert(input_keys(block_inputs(txs))[input_keys(block_inputs(rest)).len() + w] == k);
    } else {
        assert(txs_ops(txs)[i] is Insert);
    }
}

proof fn lemma_insert_spendable(s: Seq<MempoolEntry>, p: int, e: MempoolEntry, m: UtxoMap)
    requires
        mempool_spendable(s, m),
        0 <= p <= s.len(),
        forall|j: int|
            0 <= j < e.transaction.inputs@.len() ==> m.contains_key(
                #[trigger] e.transaction.inputs@[j].prev_transaction_output_hash,
            ),
    ensures
        mempool_spendable(s.insert(p, e), m),
{
    let q = s.insert(p, e);
    assert forall|i: int, j: int|
        0 <= i < q.len() && 0 <= j < q[i].transaction.inputs@.len() implies m.contains_key(
        #[trigger] q[i].transaction.inputs@[j].prev_transaction_output_hash,
    ) by {
        if i < p {
            assert(q[i] == s[i]);
        } else if i > p {
            assert(q[i] == s[i - 1]);
        }
    }
}

/// A block that spends none of the pool's inputs leaves the pool spendable.
proof fn lemma_block_keeps_pool_spendable(pool: Seq<MempoolEntry>, m: UtxoMap, txs: Seq<Transaction>)
    requires
        mempool_spendable(pool, m),
        !pool_spends_any(pool, input_keys(block_inputs(txs))),
    ensures
        mempool_spendable(pool, apply_ops(m, txs_ops(txs))),
{
    let keys = input_keys(block_inputs(txs));
    assert forall|i: int, j: int|
        0 <= i < pool.len() && 0 <= j < pool[i].transaction.inputs@.len() implies apply_ops(m, txs_ops(txs)).contains_key(
        #[trigger] pool[i].transaction.inputs@[j].prev_transaction_output_hash,
    ) by {
        let k = pool[i].transaction.inputs@[j].prev_transaction_output_hash;
        assert(!spends_any(pool[i].transaction, keys));
        assert(!keys.contains(k));
        assert forall|o: int| 0 <= o < txs_ops(txs).len() implies #[trigger] txs_ops(txs)[o] != UtxoOp::Remove(k) by {
            if txs_ops(txs)[o] == UtxoOp::Remove(k) {
                lemma_removes_are_inputs(txs, o, k);
            }
        }
        lemma_keeps_key(m, txs_ops(txs), k);
    }
}

/// Inserts an entry after every entry with at least its fee.
fn insert_by_fee(mempool: &mut Vec<MempoolEntry>, entry: MempoolEntry)
    requires
        fee_ordered(old(mempool)@),
    ensures
        fee_ordered(final(mempool)@),
        exists|p: int| 0 <= p <= old(mempool)@.len() && final(mempool)@ == old(mempool)@.insert(p, entry),
{
    let mut p: usize = 0;
    while p < mempool.len() && mempool[p].fee >= entry.fee
        invariant
            p <= mempool@.len(),
            forall|a: int| 0 <= a < p ==> (#[trigger] mempool@[a]).fee >= entry.fee,
        decreases mempool@.len() - p,
    {
        p = p + 1;
    }
    let ghost s = mempool@;
    let ghost f = entry.fee;
    mempool.insert(p, entry);
    proof {
        let t = mempool@;
        assert(t =~= s.insert(p as int, entry));
        assert forall|i: int, j: int| 0 <= i < j < t.len() implies t[i].fee >= t[j].fee by {
            if j < p {
                assert(t[i] == s[i] && t[j] == s[j]);
            } else if j == p {
                assert(t[i] == s[i]);
            } else if i < p {
                assert(t[i] == s[i] && t[j] == s[j - 1]);
                assert(s[p as int].fee < f);
            } else if i == p {
                assert(t[j] == s[j - 1]);
                assert(s[p as int].fee < f);
            } else {
                assert(t[i] == s[i - 1] && t[j] == s[j - 1]);
            }
        }
    }
}

/// The sum of the fees of the entries.
pub open spec fn fee_sum(s: Seq<MempoolEntry>) -> int
    decreases s.len(),
{
    if s.len() == 0 {
        0
    } else {
        fee_sum(s.drop_last()) + s.last().fee
    }
}

/// How many mempool entries a template takes: as many as fit beside the coinbase.
pub open spec fn template_count(mempool_len: nat) -> nat {
    if mempool_len < (BLOCK_TRANSACTION_CAP - 1) as nat {
        mempool_len
    } else {
        (BLOCK_TRANSACTION_CAP - 1) as nat
    }
}

/// The coinbase value of a template: the reward plus the fees, or the largest amount where
/// that sum does not fit.
pub open spec fn coinbase_value(reward: u64, fees: int) -> u64 {
    if reward + fees <= u64::MAX {
        (reward + fees) as u64
    } else {
        u64::MAX
    }
}

/// Fee conservation for appended blocks: when a block after the first is accepted, its
/// coinbase pays exactly the reward at the chain's height plus the fees of its other
/// transactions, valued against the unspent outputs before the block.
pub proof fn lemma_appended_block_fees(blocks: Seq<Block>, m: UtxoMap, block: Block)
    requires
        blocks.len() > 0,
        add_block_outcome(blocks, m, block) is Ok,
    ensures
        sum_outputs(block.transactions@[0].outputs@) == block_reward(blocks.len() as u64)
            + crate::validation::per_transaction_fees(
            crate::validation::non_coinbase(block.transactions@),
            m,
        ),
{
    crate::validation::lemma_fee_conservation(block.transactions@, blocks.len() as u64, m);
}

/// Rebuilding the unspent outputs from a fixed sequence of blocks a second time changes
/// nothing: `rebuild_utxos` is idempotent.
pub proof fn lemma_rebuild_utxos_idempotent(m: UtxoMap, blocks: Seq<Block>)
    ensures
        apply_ops(apply_ops(m, blocks_ops(blocks)), blocks_ops(blocks)) == apply_ops(
            m,
            blocks_ops(blocks),
        ),
{
    crate::ledger::lemma_apply_ops_idempotent(m, blocks_ops(blocks));
}

/// The stored form of a chain: its target and its blocks. The mempool is not stored, and
/// the unspent outputs are rebuilt from the blocks when the chain is loaded.
pub open spec fn enc_chain(target: U256, blocks: Seq<Block>) -> Seq<u8> {
    crate::encoding::enc_array_head(2) + crate::hash::enc_u256(target)
        + crate::encoding::enc_array_head(blocks.len()) + crate::block::enc_blocks(blocks)
}

/// The chain engine: the unspent outputs, the current target, the blocks and the mempool.
pub struct Blockchain {
    utxos: UtxoSet,
    target: U256,
    blocks: Vec<Block>,
    mempool: Vec<MempoolEntry>,
}

/// What admitting transaction `t` at `now` did to the engine: blocks and target are kept; the
/// pending transactions that spend one of its outputs are evicted and it is inserted with its
/// fee; the unspent outputs keep their keys and values; its inputs are marked; the other
/// inputs of evicted transactions are unmarked; and every other mark is kept.
pub open spec fn mempool_admission(
    before: Blockchain,
    after: Blockchain,
    t: Transaction,
    now: Timestamp,
) -> bool {
    let keys = input_keys(t.inputs@);
    let pool = before.mempool_seq();
    let m = before.utxo_map();
    let m2 = after.utxo_map();
    &&& after.block_seq() == before.block_seq()
    &&& after.target_value() == before.target_value()
    &&& exists|p: int|
        0 <= p && after.mempool_seq() == #[trigger] retain_entries(pool, no_conflict(keys)).insert(
            p,
            MempoolEntry {
                timestamp: now,
                transaction: t,
                fee: (tx_input_value(t, m) - sum_outputs(t.outputs@)) as u64,
            },
        )
    &&& same_outputs(m2, m)
    &&& forall|j: int|
        0 <= j < t.inputs@.len() ==> m2[(#[trigger] t.inputs@[j]).prev_transaction_output_hash].0
    &&& forall|q: int, j: int|
        0 <= q < pool.len() && spends_any(pool[q].transaction, keys) && 0 <= j
            < pool[q].transaction.inputs@.len() && m2.contains_key(
            #[trigger] pool[q].transaction.inputs@[j].prev_transaction_output_hash,
        ) && !keys.contains(pool[q].transaction.inputs@[j].prev_transaction_output_hash)
            ==> !m2[pool[q].transaction.inputs@[j].prev_transaction_output_hash].0
    &&& forall|k: crate::hash::Hash|
        m.contains_key(k) && !keys.contains(k) && !spent_by_conflicting(pool, keys, k)
            ==> #[trigger] m2[k] == m[k]
}

/// What dropping the entries expired at `now` did to the engine: the rest of the mempool is
/// kept in order, blocks and target are kept, the unspent outputs keep their keys and values,
/// the outputs that a dropped entry spent are unmarked, and every other mark is kept.
pub open spec fn mempool_cleanup(before: Blockchain, after: Blockchain, now: Timestamp) -> bool {
    let pool = before.mempool_seq();
    let m = before.utxo_map();
    let m2 = after.utxo_map();
    &&& after.mempool_seq() == retain_entries(pool, not_expired(now))
    &&& after.block_seq() == before.block_seq()
    &&& after.target_value() == before.target_value()
    &&& same_outputs(m2, m)
    &&& forall|q: int, j: int|
        0 <= q < pool.len() && expired(now, pool[q]) && 0 <= j < pool[q].transaction.inputs@.len()
            && m2.contains_key(#[trigger] pool[q].transaction.inputs@[j].prev_transaction_output_hash)
            ==> !m2[pool[q].transaction.inputs@[j].prev_transaction_output_hash].0
    &&& forall|k: crate::hash::Hash|
        m.contains_key(k) && !spent_by_expired(pool, now, k) ==> #[trigger] m2[k] == m[k]
}

impl Blockchain {
    pub closed spec fn utxo_map(&self) -> UtxoMap {
        self.utxos@
    }

    pub closed spec fn target_value(&self) -> U256 {
        self.target
    }

    pub closed spec fn block_seq(&self) -> Seq<Block> {
        self.blocks@
    }

    pub closed spec fn mempool_seq(&self) -> Seq<MempoolEntry> {
        self.mempool@
    }

    /// What every state of the engine satisfies.
    pub open spec fn wf(&self) -> bool {
        &&& chain_valid(self.block_seq())
        &&& self.target_value().value() <= min_target_value()
        &&& fee_ordered(self.mempool_seq())
    }

    pub fn new() -> (r: Blockchain)
        ensures
            r.wf(),
            r.utxo_map() == Map::<crate::hash::Hash, (bool, crate::transaction::TransactionOutput)>::empty(),
            r.target_value().value() == min_target_value(),
            r.block_seq().len() == 0,
            r.mempool_seq().len() == 0,
            mempool_spendable(r.mempool_seq(), r.utxo_map()),
    {
        let r = Blockchain {
            utxos: UtxoSet::new(),
            target: U256::min_target(),
            blocks: Vec::new(),
            mempool: Vec::new(),
        };
        assert(chain_valid(r.blocks@)) by {
            reveal(chain_valid);
        }
        r
    }

    pub fn utxos(&self) -> (r: &UtxoSet)
        ensures
            r@ == self.utxo_map(),
    {
        &self.utxos
    }

    pub fn target(&self) -> (r: U256)
        ensures
            r == self.target_value(),
    {
        self.target
    }

    pub fn blocks(&self) -> (r: &Vec<Block>)
        ensures
            r@ == self.block_seq(),
    {
        &self.blocks
    }

    pub fn mempool(&self) -> (r: &Vec<MempoolEntry>)
        ensures
            r@ == self.mempool_seq(),
    {
        &self.mempool
    }

    pub fn block_height(&self) -> (r: u64)
        ensures
            r == self.block_seq().len() as u64,
    {
        self.blocks.len() as u64
    }

    /// The reward for the next block, at the current height.
    pub fn calculate_block_reward(&self) -> (r: u64)
        ensures
            r == block_reward(self.block_seq().len() as u64),
    {
        calculate_block_reward(self.block_height())
    }

    /// The stored form of the chain: its target and its blocks.
    pub fn encode(&self) -> (r: Vec<u8>)
        ensures
            r@ == enc_chain(self.target_value(), self.block_seq()),
    {
        let mut out: Vec<u8> = Vec::new();
        crate::encoding::write_array_head(&mut out, 2);
        crate::hash::write_u256(&mut out, &self.target);
        crate::encoding::write_array_head(&mut out, self.blocks.len());
        crate::block::write_blocks(&mut out, &self.blocks);
        assert(out@ =~= enc_chain(self.target, self.blocks@));
        out
    }

    /// Recomputes the unspent outputs by applying every block's changes, in order, to the
    /// current set.
    pub fn rebuild_utxos(&mut self)
        ensures
            final(self).utxo_map() == apply_ops(old(self).utxo_map(), blocks_ops(old(self).block_seq())),
            final(self).block_seq() == old(self).block_seq(),
            final(self).mempool_seq() == old(self).mempool_seq(),
            final(self).target_value() == old(self).target_value(),
    {
        let ghost m0 = self.utxos@;
        let mut i: usize = 0;
        while i < self.blocks.len()
            invariant
                i <= self.blocks@.len(),
                self.blocks@ == old(self).blocks@,
                self.mempool@ == old(self).mempool@,
                self.target == old(self).target,
                m0 == old(self).utxos@,
                self.utxos@ == apply_ops(m0, blocks_ops(self.blocks@.take(i as int))),
            decreases self.blocks@.len() - i,
        {
            apply_block(&mut self.utxos, &self.blocks[i]);
            proof {
                let bs = self.blocks@.take(i + 1);
                assert(bs.drop_last() =~= self.blocks@.take(i as int));
                lemma_apply_concat(
                    m0,
                    blocks_ops(self.blocks@.take(i as int)),
                    txs_ops(self.blocks@[i as int].transactions@),
                );
            }
            i = i + 1;
        }
        assert(self.blocks@.take(i as int) =~= self.blocks@);
    }

    /// Every interval of blocks, scales the target by how long the interval took.
    pub fn try_adjust_target(&mut self)
        requires
            old(self).wf(),
        ensures
            final(self).target_value().value() == adjusted_target(
                old(self).block_seq(),
                old(self).target_value(),
            ),
            final(self).wf(),
            final(self).block_seq() == old(self).block_seq(),
            final(self).utxo_map() == old(self).utxo_map(),
            final(self).mempool_seq() == old(self).mempool_seq(),
    {
        let n = self.blocks.len();
        if n == 0 {
            return;
        }
        if n % (DIFFICULTY_UPDATE_INTERVAL as usize) != 0 {
            return;
        }
        let start = self.blocks[n - DIFFICULTY_UPDATE_INTERVAL as usize].header.timestamp;
        let end = self.blocks[n - 1].header.timestamp;
        assert(self.blocks@[n - 50].header.timestamp.total_nanos()
            < self.blocks@[n - 1].header.timestamp.total_nanos()) by {
            reveal(chain_valid);
        }
        let actual = end.seconds_since_capped(&start, 2000);
        proof {
            lemma_retarget_cap(
                self.target.value(),
                (end.total_nanos() - start.total_nanos()) / 1_000_000_000,
            );
        }
        self.target = next_target(self.target, actual);
    }
    /// Appends a block after checking it, removes the transactions that it includes from
    /// the mempool, applies it to the unspent outputs and reconsiders the target. The first
    /// block only has to follow the zero hash.
    #[verifier::spinoff_prover]
    #[verifier::rlimit(60)]
    pub fn add_block(&mut self, block: Block) -> (r: Result<(), BtcError>)
        requires
            old(self).wf(),
        ensures
            r == add_block_outcome(old(self).block_seq(), old(self).utxo_map(), block),
            final(self).wf(),
            r is Err ==> *final(self) == *old(self),
            r is Ok ==> {
                &&& final(self).block_seq() == old(self).block_seq().push(block)
                &&& final(self).utxo_map() == apply_ops(
                    old(self).utxo_map(),
                    txs_ops(block.transactions@),
                )
                &&& final(self).mempool_seq() == retain_entries(
                    old(self).mempool_seq(),
                    not_included(tx_hashes(block.transactions@)),
                )
                &&& final(self).target_value().value() == adjusted_target(
                    final(self).block_seq(),
                    old(self).target_value(),
                )
            },
            r is Ok && mempool_spendable(old(self).mempool_seq(), old(self).utxo_map())
                && !pool_spends_any(final(self).mempool_seq(), input_keys(block_inputs(block.transactions@)))
                ==> mempool_spendable(final(self).mempool_seq(), final(self).utxo_map()),
    {
        let n = self.blocks.len();
        if n == 0 {
            if block.header.prev_block_hash != crate::hash::Hash::zero() {
                return Err(BtcError::InvalidBlock);
            }
        } else {
            let last = &self.blocks[n - 1];
            if block.header.prev_block_hash != last.hash() {
                return Err(BtcError::InvalidBlock);
            }
            if !block.header.hash().matches_target(block.header.target) {
                return Err(BtcError::InvalidBlock);
            }
            let calculated_merkle_root = MerkleRoot::calculate(&block.transactions);
            if calculated_merkle_root != block.header.merkle_root {
                return Err(BtcError::InvalidMerkleRoot);
            }
            if !block.header.timestamp.is_after(&last.header.timestamp) {
                return Err(BtcError::InvalidBlock);
            }
            match block.verify_transactions(n as u64, &self.utxos) {
                Ok(()) => {},
                Err(e) => {
                    return Err(e);
                },
            }
        }
        proof {
            lemma_chain_push(self.blocks@, block);
        }
        let hashes = transaction_hashes(&block.transactions);
        remove_included(&mut self.mempool, &hashes);
        proof {
            lemma_retain_ordered(old(self).mempool@, not_included(hashes@));
        }
        proof {
            if mempool_spendable(old(self).mempool@, old(self).utxos@) {
                lemma_retain_spendable(old(self).mempool@, not_included(hashes@), old(self).utxos@);
                if !pool_spends_any(self.mempool@, input_keys(block_inputs(block.transactions@))) {
                    lemma_block_keeps_pool_spendable(self.mempool@, old(self).utxos@, block.transactions@);
                }
            }
        }
        apply_block(&mut self.utxos, &block);
        self.blocks.push(block);
        self.try_adjust_target();
        Ok(())
    }
    /// Admits a transaction that arrived at `now` to the mempool. Every pending transaction
    /// that spends one of the same outputs is evicted first (the later arrival wins), the
    /// outputs that the transaction spends are marked, and the mempool stays ordered by fee.
    #[verifier::spinoff_prover]
    #[verifier::rlimit(60)]
    pub fn add_to_mempool_at(&mut self, transaction: Transaction, now: Timestamp) -> (r: Result<
        (),
        BtcError,
    >)
        requires
            old(self).wf(),
        ensures
            r == (if mempool_admissible(transaction, old(self).utxo_map()) {
                Ok(())
            } else {
                Err(BtcError::InvalidTransaction)
            }),
            final(self).wf(),
            r is Err ==> *final(self) == *old(self),
            r is Ok ==> mempool_admission(*old(self), *final(self), transaction, now),
            mempool_spendable(old(self).mempool_seq(), old(self).utxo_map()) ==> mempool_spendable(
                final(self).mempool_seq(),
                final(self).utxo_map(),
            ),
    {
        let keys = keys_of(&transaction.inputs);
        if !all_known(&keys, &self.utxos) {
            return Err(BtcError::InvalidTransaction);
        }
        if has_duplicate(&keys) {
            return Err(BtcError::InvalidTransaction);
        }
        let input_value = sum_values(&keys, &self.utxos);
        let output_value = sum_output_values(&transaction.outputs);
        if input_value > u64::MAX as u128 || input_value < output_value {
            return Err(BtcError::InvalidTransaction);
        }
        let fee = (input_value - output_value) as u64;
        let ghost m0 = self.utxos@;
        evict_conflicting(&mut self.mempool, &mut self.utxos, &keys);
        let ghost evicted_pool = self.mempool@;
        proof {
            lemma_retain_ordered(old(self).mempool@, no_conflict(keys@));
        }
        let ghost evicted = self.utxos@;
        let mut j: usize = 0;
        while j < keys.len()
            invariant
                j <= keys@.len(),
                keys_known(keys@, m0),
                same_outputs(evicted, m0),
                forall|k: crate::hash::Hash|
                    !keys@.contains(k) && evicted.contains_key(k) ==> #[trigger] self.utxos@[k]
                        == evicted[k],
                self.mempool@ == retain_entries(old(self).mempool@, no_conflict(keys@)),
                fee_ordered(self.mempool@),
                self.blocks@ == old(self).blocks@,
                self.target == old(self).target,
                same_outputs(self.utxos@, m0),
                forall|a: int| 0 <= a < j ==> self.utxos@[#[trigger] keys@[a]].0,
            decreases keys@.len() - j,
        {
            assert(m0.contains_key(keys@[j as int]));
            self.utxos.set_marked(&keys[j], true);
            j = j + 1;
        }
        proof {
            assert forall|a: int| 0 <= a < transaction.inputs@.len() implies self.utxos@[(
            #[trigger] transaction.inputs@[a]).prev_transaction_output_hash].0 by {
                assert(keys@[a] == transaction.inputs@[a].prev_transaction_output_hash);
            }
        }
        let ghost retained = self.mempool@;
        let entry = MempoolEntry { timestamp: now, transaction, fee };
        proof {
            assert forall|a: int| 0 <= a < entry.transaction.inputs@.len() implies m0.contains_key(
                #[trigger] entry.transaction.inputs@[a].prev_transaction_output_hash,
            ) by {
                assert(keys@[a] == entry.transaction.inputs@[a].prev_transaction_output_hash);
            }
        }
        insert_by_fee(&mut self.mempool, entry);
        proof {
            assert(keys@ == input_keys(entry.transaction.inputs@));
            assert(mempool_admission(*old(self), *self, entry.transaction, now));
            if mempool_spendable(old(self).mempool@, old(self).utxos@) {
                lemma_retain_spendable(old(self).mempool@, no_conflict(keys@), m0);
                let p = choose|p: int| 0 <= p <= retained.len() && self.mempool@ == retained.insert(p, entry);
                lemma_insert_spendable(retained, p, entry, m0);
                lemma_spendable_same_outputs(self.mempool@, m0, self.utxos@);
            }
        }
        Ok(())
    }

    /// Admits a transaction to the mempool as arriving now.
    pub fn add_to_mempool(&mut self, transaction: Transaction) -> (r: Result<(), BtcError>)
        requires
            old(self).wf(),
        ensures
            r == (if mempool_admissible(transaction, old(self).utxo_map()) {
                Ok(())
            } else {
                Err(BtcError::InvalidTransaction)
            }),
            final(self).wf(),
            r is Err ==> *final(self) == *old(self),
            r is Ok ==> exists|now: Timestamp|
                #[trigger] mempool_admission(*old(self), *final(self), transaction, now),
            mempool_spendable(old(self).mempool_seq(), old(self).utxo_map()) ==> mempool_spendable(
                final(self).mempool_seq(),
                final(self).utxo_map(),
            ),
    {
        let now = Timestamp::now();
        self.add_to_mempool_at(transaction, now)
    }

    /// Drops the entries that have waited more than the longest a transaction may wait at
    /// `now`, and clears the marks of the outputs that they spent.
    #[verifier::spinoff_prover]
    #[verifier::rlimit(60)]
    pub fn cleanup_mempool_at(&mut self, now: Timestamp)
        requires
            old(self).wf(),
        ensures
            final(self).wf(),
            mempool_cleanup(*old(self), *final(self), now),
            mempool_spendable(old(self).mempool_seq(), old(self).utxo_map()) ==> mempool_spendable(
                final(self).mempool_seq(),
                final(self).utxo_map(),
            ),
    {
        let ghost keep = not_expired(now);
        let ghost orig = self.mempool@;
        let ghost mut p: int = 0;
        let mut i: usize = 0;
        while i < self.mempool.len()
            invariant
                0 <= p <= orig.len(),
                orig == old(self).mempool@,
                i == retain_entries(orig.take(p), keep).len(),
                self.mempool@ == retain_entries(orig.take(p), keep) + orig.skip(p),
                keep == not_expired(now),
                same_outputs(self.utxos@, old(self).utxos@),
                self.blocks@ == old(self).blocks@,
                self.target == old(self).target,
                forall|q: int, j: int|
                    0 <= q < p && expired(now, orig[q]) && 0 <= j
                        < orig[q].transaction.inputs@.len() && self.utxos@.contains_key(
                        #[trigger] orig[q].transaction.inputs@[j].prev_transaction_output_hash,
                    ) ==> !self.utxos@[orig[q].transaction.inputs@[j].prev_transaction_output_hash].0,
                forall|k: crate::hash::Hash|
                    old(self).utxos@.contains_key(k) && (forall|q: int, j: int|
                        0 <= q < p && expired(now, orig[q]) && 0 <= j
                            < orig[q].transaction.inputs@.len()
                            ==> #[trigger] orig[q].transaction.inputs@[j].prev_transaction_output_hash
                            != k) ==> #[trigger] self.utxos@[k] == old(self).utxos@[k],
            decreases self.mempool@.len() - i,
        {
            let ghost r = retain_entries(orig.take(p), keep);
            let ghost rest = orig.skip(p);
            proof {
                assert(rest.len() > 0);
                assert(self.mempool@[i as int] == rest[0]);
                assert(rest[0] == orig[p]);
                lemma_retain_step(orig, keep, p);
                assert(rest.skip(1) =~= orig.skip(p + 1));
            }
            let ghost before = self.utxos@;
            if now.more_than_seconds_after(&self.mempool[i].timestamp, MAX_MEMPOOL_TRANSACTION_AGE) {
                unmark_inputs(&mut self.utxos, &self.mempool[i].transaction);
                let _ = self.mempool.remove(i);
                proof {
                    assert(!keep(orig[p]));
                    assert(self.mempool@ =~= r + rest.skip(1));
                    assert forall|q: int, j: int|
                        0 <= q < p + 1 && expired(now, orig[q]) && 0 <= j
                            < orig[q].transaction.inputs@.len() && self.utxos@.contains_key(
                            #[trigger] orig[q].transaction.inputs@[j].prev_transaction_output_hash,
                        ) implies !self.utxos@[orig[q].transaction.inputs@[j].prev_transaction_output_hash].0 by {
                        let k = orig[q].transaction.inputs@[j].prev_transaction_output_hash;
                        if q < p && !input_keys(orig[p].transaction.inputs@).contains(k) {
                            assert(before.contains_key(k));
                            assert(self.utxos@[k] == before[k]);
                        } else if q < p {
                            let a = choose|a: int|
                                0 <= a < input_keys(orig[p].transaction.inputs@).len() && input_keys(
                                    orig[p].transaction.inputs@,
                                )[a] == k;
                            assert(orig[p].transaction.inputs@[a].prev_transaction_output_hash == k);
                        }
                    }
                    assert forall|k: crate::hash::Hash|
                        old(self).utxos@.contains_key(k) && (forall|q: int, j: int|
                            0 <= q < p + 1 && expired(now, orig[q]) && 0 <= j
                                < orig[q].transaction.inputs@.len()
                                ==> #[trigger] orig[q].transaction.inputs@[j].prev_transaction_output_hash
                                != k) implies #[trigger] self.utxos@[k] == old(self).utxos@[k] by {
                        if input_keys(orig[p].transaction.inputs@).contains(k) {
                            let a = choose|a: int|
                                0 <= a < input_keys(orig[p].transaction.inputs@).len() && input_keys(
                                    orig[p].transaction.inputs@,
                                )[a] == k;
                            assert(orig[p].transaction.inputs@[a].prev_transaction_output_hash == k);
                        }
                        assert(before[k] == old(self).utxos@[k]);
                    }
                }
            } else {
                i = i + 1;
                proof {
                    assert(keep(orig[p]));
                    assert(r + rest =~= r.push(orig[p]) + rest.skip(1));
                }
            }
            proof {
                p = p + 1;
            }
        }
        proof {
            assert(orig.take(p) =~= orig);
            assert(self.mempool@ =~= retain_entries(orig, keep));
            lemma_retain_ordered(orig, keep);
            if mempool_spendable(orig, old(self).utxos@) {
                lemma_retain_spendable(orig, keep, old(self).utxos@);
                lemma_spendable_same_outputs(self.mempool@, old(self).utxos@, self.utxos@);
            }
            assert(mempool_cleanup(*old(self), *self, now));
        }
    }

    /// Drops the entries that have waited too long, as of now.
    pub fn cleanup_mempool(&mut self)
        requires
            old(self).wf(),
        ensures
            final(self).wf(),
            exists|now: Timestamp| #[trigger] mempool_cleanup(*old(self), *final(self), now),
            mempool_spendable(old(self).mempool_seq(), old(self).utxo_map()) ==> mempool_spendable(
                final(self).mempool_seq(),
                final(self).utxo_map(),
            ),
    {
        let now = Timestamp::now();
        self.cleanup_mempool_at(now);
    }

    /// A candidate block for a miner paid to `pubkey`: it follows the last block (or the zero
    /// hash), carries the current target, a coinbase paying the reward and the fees, and the
    /// highest-fee mempool transactions that fit.
    #[verifier::spinoff_prover]
    #[verifier::rlimit(60)]
    pub fn build_template_at(&self, pubkey: PublicKey, now: Timestamp, unique_id: u128) -> (r:
        Block)
        ensures
            r.header.prev_block_hash == expected_prev_hash(self.block_seq()),
            r.header.timestamp == now,
            r.header.nonce == 0,
            r.header.target == self.target_value(),
            r.header.merkle_root == merkle_root_of(r.transactions@),
            r.transactions@.len() == template_count(self.mempool_seq().len()) + 1,
            r.transactions@[0].inputs@.len() == 0,
            r.transactions@[0].outputs@ == seq![
                TransactionOutput {
                    value: coinbase_value(
                        block_reward(self.block_seq().len() as u64),
                        fee_sum(self.mempool_seq().take(template_count(self.mempool_seq().len()) as int)),
                    ),
                    unique_id,
                    pubkey,
                },
            ],
            forall|i: int|
                1 <= i < r.transactions@.len() ==> same_transaction(
                    #[trigger] r.transactions@[i],
                    self.mempool_seq()[i - 1].transaction,
                ),
    {
        let prev_block_hash = if self.blocks.len() == 0 {
            crate::hash::Hash::zero()
        } else {
            self.blocks[self.blocks.len() - 1].hash()
        };
        let count: usize = if self.mempool.len() < BLOCK_TRANSACTION_CAP - 1 {
            self.mempool.len()
        } else {
            BLOCK_TRANSACTION_CAP - 1
        };
        let mut fees: u128 = 0;
        let mut selected: Vec<Transaction> = Vec::new();
        let mut i: usize = 0;
        while i < count
            invariant
                count == template_count(self.mempool@.len()),
                i <= count,
                fees == fee_sum(self.mempool@.take(i as int)),
                fees <= i * (u64::MAX as int),
                selected@.len() == i,
                forall|j: int|
                    0 <= j < i ==> same_transaction(
                        #[trigger] selected@[j],
                        self.mempool@[j].transaction,
                    ),
            decreases count - i,
        {
            proof {
                assert(self.mempool@.take(i + 1).drop_last() =~= self.mempool@.take(i as int));
            }
            fees = fees + self.mempool[i].fee as u128;
            selected.push(self.mempool[i].transaction.clone());
            i = i + 1;
        }
        let reward = calculate_block_reward(self.blocks.len() as u64);
        let total: u128 = reward as u128 + fees;
        let value: u64 = if total <= u64::MAX as u128 {
            total as u64
        } else {
            u64::MAX
        };
        let mut outputs: Vec<TransactionOutput> = Vec::new();
        outputs.push(TransactionOutput { value, unique_id, pubkey });
        let coinbase = Transaction { inputs: Vec::new(), outputs };
        let mut transactions: Vec<Transaction> = Vec::new();
        transactions.push(coinbase);
        let mut k: usize = 0;
        while k < selected.len()
            invariant
                k <= selected@.len(),
                transactions@.len() == k + 1,
                transactions@[0].inputs@.len() == 0,
                transactions@[0].outputs@ == seq![TransactionOutput { value, unique_id, pubkey }],
                forall|j: int|
                    1 <= j < k + 1 ==> same_transaction(
                        #[trigger] transactions@[j],
                        selected@[j - 1],
                    ),
            decreases selected@.len() - k,
        {
            transactions.push(selected[k].clone());
            k = k + 1;
        }
        let merkle_root = MerkleRoot::calculate(&transactions);
        let header = BlockHeader {
            timestamp: now,
            nonce: 0,
            prev_block_hash,
            merkle_root,
            target: self.target,
        };
        proof {
            assert(transactions@[0].outputs@ =~= seq![TransactionOutput { value, unique_id, pubkey }]);
        }
        Block { header, transactions }
    }

    /// A candidate block paid to `pubkey`, stamped now, whose coinbase output has a fresh
    /// identifier.
    pub fn build_template(&self, pubkey: PublicKey) -> (r: Block)
        ensures
            r.header.prev_block_hash == expected_prev_hash(self.block_seq()),
            r.header.nonce == 0,
            r.header.target == self.target_value(),
            r.header.merkle_root == merkle_root_of(r.transactions@),
            r.transactions@.len() == template_count(self.mempool_seq().len()) + 1,
            r.transactions@[0].inputs@.len() == 0,
            r.transactions@[0].outputs@.len() == 1,
            r.transactions@[0].outputs@[0].value == coinbase_value(
                block_reward(self.block_seq().len() as u64),
                fee_sum(self.mempool_seq().take(template_count(self.mempool_seq().len()) as int)),
            ),
            r.transactions@[0].outputs@[0].pubkey == pubkey,
            forall|i: int|
                1 <= i < r.transactions@.len() ==> same_transaction(
                    #[trigger] r.transactions@[i],
                    self.mempool_seq()[i - 1].transaction,
                ),
    {
        let now = Timestamp::now();
        let unique_id = crate::transaction::random_unique_id();
        self.build_template_at(pubkey, now, unique_id)
    }

    /// Whether a template still extends the chain's last block with the current target.
    pub fn validate_template(&self, template: &Block) -> (r: bool)
        ensures
            r == (template.header.prev_block_hash == expected_prev_hash(self.block_seq())
                && template.header.target == self.target_value()),
    {
        let expected = if self.blocks.len() == 0 {
            crate::hash::Hash::zero()
        } else {
            self.blocks[self.blocks.len() - 1].hash()
        };
        template.header.prev_block_hash == expected && template.header.target == self.target
    }
}

} // verus!
