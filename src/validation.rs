use vstd::prelude::*;

use crate::block::Block;
use crate::crypto::signature_valid;
use crate::error::BtcError;
use crate::transaction::{output_hash, sum_outputs, Transaction, TransactionInput, TransactionOutput};
use crate::utxo::UtxoSet;

verus! {

pub type UtxoMap = Map<crate::hash::Hash, (bool, TransactionOutput)>;

pub const INITIAL_REWARD: u64 = 50;

pub const HALVING_INTERVAL: u64 = 210;

/// Satoshi in one coin.
pub const COIN: u64 = 100_000_000;

/// The reward for the block at a height: 50 coins, halved every interval, and nothing once
/// 64 halvings have passed.
pub open spec fn block_reward(height: u64) -> u64 {
    if height / HALVING_INTERVAL >= 64 {
        0
    } else {
        ((INITIAL_REWARD * COIN) as u64) >> ((height / HALVING_INTERVAL) as u64)
    }
}

pub fn calculate_block_reward(height: u64) -> (r: u64)
    ensures
        r == block_reward(height),
{
    let halvings = height / HALVING_INTERVAL;
    if halvings >= 64 {
        0
    } else {
        (INITIAL_REWARD * COIN) >> halvings
    }
}

/// The transactions after the coinbase.
pub open spec fn non_coinbase(txs: Seq<Transaction>) -> Seq<Transaction> {
    if txs.len() == 0 {
        txs
    } else {
        txs.subrange(1, txs.len() as int)
    }
}

/// All inputs of a sequence of transactions, in order.
pub open spec fn block_inputs(txs: Seq<Transaction>) -> Seq<TransactionInput>
    decreases txs.len(),
{
    if txs.len() == 0 {
        seq![]
    } else {
        block_inputs(txs.drop_last()) + txs.last().inputs@
    }
}

/// All outputs of a sequence of transactions, in order.
pub open spec fn block_outputs(txs: Seq<Transaction>) -> Seq<TransactionOutput>
    decreases txs.len(),
{
    if txs.len() == 0 {
        seq![]
    } else {
        block_outputs(txs.drop_last()) + txs.last().outputs@
    }
}

pub open spec fn input_keys(ins: Seq<TransactionInput>) -> Seq<crate::hash::Hash> {
    ins.map_values(|i: TransactionInput| i.prev_transaction_output_hash)
}

pub open spec fn output_hashes(outs: Seq<TransactionOutput>) -> Seq<crate::hash::Hash> {
    outs.map_values(|o: TransactionOutput| output_hash(o))
}

pub open spec fn keys_known(keys: Seq<crate::hash::Hash>, m: UtxoMap) -> bool {
    forall|i: int| 0 <= i < keys.len() ==> m.contains_key(#[trigger] keys[i])
}

/// The value of the outputs that the keys name.
pub open spec fn sum_key_values(keys: Seq<crate::hash::Hash>, m: UtxoMap) -> int
    decreases keys.len(),
{
    if keys.len() == 0 {
        0
    } else {
        sum_key_values(keys.drop_last(), m) + m[keys.last()].1.value
    }
}

/// The value that a transaction spends.
pub open spec fn tx_input_value(t: Transaction, m: UtxoMap) -> int {
    sum_key_values(input_keys(t.inputs@), m)
}

pub open spec fn total_inputs(txs: Seq<Transaction>, m: UtxoMap) -> int {
    sum_key_values(input_keys(block_inputs(txs)), m)
}

pub open spec fn total_outputs(txs: Seq<Transaction>) -> int {
    sum_outputs(block_outputs(txs))
}

/// The conditions under which the fees of the transactions can be computed: every spent
/// output exists and is spent once, no two outputs share a hash, and the values add up
/// within 64 bits with no more paid out than spent.
pub open spec fn fees_valid(txs: Seq<Transaction>, m: UtxoMap) -> bool {
    &&& keys_known(input_keys(block_inputs(txs)), m)
    &&& input_keys(block_inputs(txs)).no_duplicates()
    &&& output_hashes(block_outputs(txs)).no_duplicates()
    &&& total_inputs(txs, m) <= u64::MAX
    &&& total_outputs(txs) <= total_inputs(txs, m)
}

pub open spec fn miner_fees(txs: Seq<Transaction>, m: UtxoMap) -> int {
    total_inputs(txs, m) - total_outputs(txs)
}

/// The coinbase rules: no inputs, at least one output, and outputs worth exactly the
/// reward plus the fees of the other transactions.
pub open spec fn coinbase_valid(txs: Seq<Transaction>, height: u64, m: UtxoMap) -> bool {
    &&& txs.len() > 0
    &&& txs[0].inputs@.len() == 0
    &&& txs[0].outputs@.len() > 0
    &&& fees_valid(non_coinbase(txs), m)
    &&& sum_outputs(txs[0].outputs@) == block_reward(height) + miner_fees(non_coinbase(txs), m)
}

pub open spec fn input_signature_ok(i: TransactionInput, m: UtxoMap) -> bool {
    signature_valid(i.signature, i.prev_transaction_output_hash, m[i.prev_transaction_output_hash].1.pubkey)
}

/// What is wrong with one transaction, if anything: a signature that fails, else less value
/// in than out.
pub open spec fn tx_problem(t: Transaction, m: UtxoMap) -> Option<BtcError> {
    if exists|j: int| 0 <= j < t.inputs@.len() && !input_signature_ok(#[trigger] t.inputs@[j], m) {
        Some(BtcError::InvalidSignature)
    } else if tx_input_value(t, m) < sum_outputs(t.outputs@) {
        Some(BtcError::InvalidTransaction)
    } else {
        None
    }
}

/// The problem of the first transaction that has one.
pub open spec fn first_problem(txs: Seq<Transaction>, m: UtxoMap) -> Option<BtcError>
    decreases txs.len(),
{
    if txs.len() == 0 {
        None
    } else {
        match first_problem(txs.drop_last(), m) {
            Some(e) => Some(e),
            None => tx_problem(txs.last(), m),
        }
    }
}

/// The outcome of checking a block's transactions at a height against the unspent outputs.
pub open spec fn transactions_outcome(txs: Seq<Transaction>, height: u64, m: UtxoMap) -> Result<
    (),
    BtcError,
> {
    if txs.len() == 0 || !coinbase_valid(txs, height, m) {
        Err(BtcError::InvalidTransaction)
    } else {
        match first_problem(non_coinbase(txs), m) {
            Some(e) => Err(e),
            None => Ok(()),
        }
    }
}

/// Collects the inputs and the outputs of every transaction after the coinbase.
fn collect_io(txs: &Vec<Transaction>) -> (r: (Vec<TransactionInput>, Vec<TransactionOutput>))
    ensures
        r.0@ == block_inputs(non_coinbase(txs@)),
        r.1@ == block_outputs(non_coinbase(txs@)),
{
    let mut ins: Vec<TransactionInput> = Vec::new();
    let mut outs: Vec<TransactionOutput> = Vec::new();
    if txs.len() == 0 {
        return (ins, outs);
    }
    let ghost nc = non_coinbase(txs@);
    let mut i: usize = 1;
    while i < txs.len()
        invariant
            1 <= i <= txs@.len(),
            nc == txs@.subrange(1, txs@.len() as int),
            ins@ == block_inputs(nc.take(i - 1)),
            outs@ == block_outputs(nc.take(i - 1)),
        decreases txs@.len() - i,
    {
        let t = &txs[i];
        let ghost before_ins = ins@;
        let mut j: usize = 0;
        while j < t.inputs.len()
            invariant
                j <= t.inputs@.len(),
                ins@ == before_ins + t.inputs@.take(j as int),
            decreases t.inputs@.len() - j,
        {
            ins.push(t.inputs[j]);
            j = j + 1;
            assert(ins@ =~= before_ins + t.inputs@.take(j as int));
        }
        let ghost before_outs = outs@;
        let mut k: usize = 0;
        while k < t.outputs.len()
            invariant
                k <= t.outputs@.len(),
                outs@ == before_outs + t.outputs@.take(k as int),
            decreases t.outputs@.len() - k,
        {
            outs.push(t.outputs[k]);
            k = k + 1;
            assert(outs@ =~= before_outs + t.outputs@.take(k as int));
        }
        proof {
            assert(nc.take(i as int).drop_last() =~= nc.take(i - 1));
            assert(nc.take(i as int).last() == txs@[i as int]);
            assert(t.inputs@.take(j as int) =~= t.inputs@);
            assert(t.outputs@.take(k as int) =~= t.outputs@);
        }
        i = i + 1;
    }
    assert(nc.take(i - 1) =~= nc);
    (ins, outs)
}

pub fn keys_of(ins: &Vec<TransactionInput>) -> (r: Vec<crate::hash::Hash>)
    ensures
        r@ == input_keys(ins@),
{
    let mut r: Vec<crate::hash::Hash> = Vec::new();
    let mut i: usize = 0;
    while i < ins.len()
        invariant
            i <= ins@.len(),
            r@ =~= input_keys(ins@.take(i as int)),
        decreases ins@.len() - i,
    {
        r.push(ins[i].prev_transaction_output_hash);
        i = i + 1;
    }
    assert(ins@.take(i as int) =~= ins@);
    r
}

fn hashes_of(outs: &Vec<TransactionOutput>) -> (r: Vec<crate::hash::Hash>)
    ensures
        r@ == output_hashes(outs@),
{
    let mut r: Vec<crate::hash::Hash> = Vec::new();
    let mut i: usize = 0;
    while i < outs.len()
        invariant
            i <= outs@.len(),
            r@ =~= output_hashes(outs@.take(i as int)),
        decreases outs@.len() - i,
    {
        let h = outs[i].hash();
        r.push(h);
        i = i + 1;
    }
    assert(outs@.take(i as int) =~= outs@);
    r
}

/// Whether some hash occurs twice.
pub fn has_duplicate(v: &Vec<crate::hash::Hash>) -> (r: bool)
    ensures
        r == !v@.no_duplicates(),
{
    let n = v.len();
    let mut i: usize = 0;
    while i < n
        invariant
            n == v@.len(),
            i <= n,
            forall|a: int, b: int| 0 <= a < i && a < b < n ==> v@[a] != v@[b],
        decreases n - i,
    {
        let mut j: usize = i + 1;
        while j < n
            invariant
                n == v@.len(),
                i < n,
                i + 1 <= j <= n,
                forall|a: int, b: int| 0 <= a < i && a < b < n ==> v@[a] != v@[b],
                forall|b: int| i < b < j ==> v@[i as int] != v@[b],
            decreases n - j,
        {
            if v[i] == v[j] {
                return true;
            }
            j = j + 1;
        }
        i = i + 1;
    }
    false
}

pub fn all_known(keys: &Vec<crate::hash::Hash>, utxos: &UtxoSet) -> (r: bool)
    ensures
        r == keys_known(keys@, utxos@),
{
    let mut i: usize = 0;
    while i < keys.len()
        invariant
            i <= keys@.len(),
            forall|a: int| 0 <= a < i ==> utxos@.contains_key(#[trigger] keys@[a]),
        decreases keys@.len() - i,
    {
        if !utxos.contains_key(&keys[i]) {
            return false;
        }
        i = i + 1;
    }
    true
}

proof fn lemma_sum_key_values_bound(keys: Seq<crate::hash::Hash>, m: UtxoMap)
    ensures
        0 <= sum_key_values(keys, m) <= keys.len() * (u64::MAX as int),
    decreases keys.len(),
{
    if keys.len() > 0 {
        lemma_sum_key_values_bound(keys.drop_last(), m);
    }
}

proof fn lemma_sum_outputs_bound(s: Seq<TransactionOutput>)
    ensures
        0 <= sum_outputs(s) <= s.len() * (u64::MAX as int),
    decreases s.len(),
{
    if s.len() > 0 {
        lemma_sum_outputs_bound(s.drop_last());
    }
}

/// The value of the outputs that the keys name, all of which must exist.
pub fn sum_values(keys: &Vec<crate::hash::Hash>, utxos: &UtxoSet) -> (r: u128)
    requires
        keys_known(keys@, utxos@),
    ensures
        r == sum_key_values(keys@, utxos@),
{
    let mut total: u128 = 0;
    let mut i: usize = 0;
    while i < keys.len()
        invariant
            i <= keys@.len(),
            keys_known(keys@, utxos@),
            total == sum_key_values(keys@.take(i as int), utxos@),
        decreases keys@.len() - i,
    {
        let k = keys[i];
        assert(utxos@.contains_key(keys@[i as int]));
        let entry = utxos.get(&k);
        let (_, output) = entry.unwrap();
        proof {
            assert(keys@.take(i + 1).drop_last() =~= keys@.take(i as int));
            lemma_sum_key_values_bound(keys@.take(i as int), utxos@);
            assert(i * (u64::MAX as int) + u64::MAX <= 0xFFFF_FFFF_FFFF_FFFF_FFFF_FFFF_FFFF_FFFFint)
                by (nonlinear_arith)
                requires
                    i <= 0xFFFF_FFFF_FFFF_FFFF,
            ;
            assert(sum_key_values(keys@.take(i as int), utxos@) <= i * (u64::MAX as int))
                by (nonlinear_arith)
                requires
                    sum_key_values(keys@.take(i as int), utxos@) <= keys@.take(i as int).len() * (
                    u64::MAX as int),
                    keys@.take(i as int).len() == i,
            ;
        }
        total = total + output.value as u128;
        i = i + 1;
    }
    assert(keys@.take(i as int) =~= keys@);
    total
}

/// The value of the outputs.
pub fn sum_output_values(outs: &Vec<TransactionOutput>) -> (r: u128)
    ensures
        r == sum_outputs(outs@),
{
    let mut total: u128 = 0;
    let mut i: usize = 0;
    while i < outs.len()
        invariant
            i <= outs@.len(),
            total == sum_outputs(outs@.take(i as int)),
        decreases outs@.len() - i,
    {
        proof {
            assert(outs@.take(i + 1).drop_last() =~= outs@.take(i as int));
            lemma_sum_outputs_bound(outs@.take(i as int));
            assert(i * (u64::MAX as int) + u64::MAX <= 0xFFFF_FFFF_FFFF_FFFF_FFFF_FFFF_FFFF_FFFFint)
                by (nonlinear_arith)
                requires
                    i <= 0xFFFF_FFFF_FFFF_FFFF,
            ;
            assert(sum_outputs(outs@.take(i as int)) <= i * (u64::MAX as int)) by (nonlinear_arith)
                requires
                    sum_outputs(outs@.take(i as int)) <= outs@.take(i as int).len() * (
                    u64::MAX as int),
                    outs@.take(i as int).len() == i,
            ;
        }
        total = total + outs[i].value as u128;
        i = i + 1;
    }
    assert(outs@.take(i as int) =~= outs@);
    total
}

proof fn lemma_input_in_block(txs: Seq<Transaction>, i: int, j: int)
    requires
        0 <= i < txs.len(),
        0 <= j < txs[i].inputs@.len(),
    ensures
        input_keys(block_inputs(txs)).contains(txs[i].inputs@[j].prev_transaction_output_hash),
    decreases txs.len(),
{
    let b = block_inputs(txs);
    let prev = block_inputs(txs.drop_last());
    assert(b == prev + txs.last().inputs@);
    if i == txs.len() - 1 {
        assert(input_keys(b)[prev.len() + j] == txs[i].inputs@[j].prev_transaction_output_hash);
    } else {
        lemma_input_in_block(txs.drop_last(), i, j);
        let p = choose|p: int|
            0 <= p < input_keys(prev).len() && input_keys(prev)[p]
                == txs[i].inputs@[j].prev_transaction_output_hash;
        assert(input_keys(b)[p] == input_keys(prev)[p]);
    }
}

impl Block {
    /// The fees that the transactions after the coinbase leave to the miner.
    pub fn calculate_miner_fees(&self, utxos: &UtxoSet) -> (r: Result<u64, BtcError>)
        ensures
            r == (if fees_valid(non_coinbase(self.transactions@), utxos@) {
                Ok(miner_fees(non_coinbase(self.transactions@), utxos@) as u64)
            } else {
                Err(BtcError::InvalidTransaction)
            }),
    {
        let (ins, outs) = collect_io(&self.transactions);
        let keys = keys_of(&ins);
        if !all_known(&keys, utxos) {
            return Err(BtcError::InvalidTransaction);
        }
        if has_duplicate(&keys) {
            return Err(BtcError::InvalidTransaction);
        }
        let hashes = hashes_of(&outs);
        if has_duplicate(&hashes) {
            return Err(BtcError::InvalidTransaction);
        }
        let input_value = sum_values(&keys, utxos);
        let output_value = sum_output_values(&outs);
        if input_value > u64::MAX as u128 || output_value > input_value {
            return Err(BtcError::InvalidTransaction);
        }
        Ok((input_value - output_value) as u64)
    }

    /// Checks the coinbase transaction of a block to be added at `predicted_block_height`.
    pub fn verify_coinbase_transaction(&self, predicted_block_height: u64, utxos: &UtxoSet) -> (r:
        Result<(), BtcError>)
        requires
            self.transactions@.len() > 0,
        ensures
            r == (if coinbase_valid(self.transactions@, predicted_block_height, utxos@) {
                Ok(())
            } else {
                Err(BtcError::InvalidTransaction)
            }),
    {
        let coinbase = &self.transactions[0];
        if coinbase.inputs.len() != 0 {
            return Err(BtcError::InvalidTransaction);
        }
        if coinbase.outputs.len() == 0 {
            return Err(BtcError::InvalidTransaction);
        }
        let miner_fees = match self.calculate_miner_fees(utxos) {
            Ok(f) => f,
            Err(e) => {
                return Err(e);
            },
        };
        let block_reward = calculate_block_reward(predicted_block_height);
        let total_coinbase_outputs = sum_output_values(&coinbase.outputs);
        proof {
            let nc = non_coinbase(self.transactions@);
            assert(fees_valid(nc, utxos@));
            lemma_sum_outputs_bound(block_outputs(nc));
            assert(miner_fees as int == crate::validation::miner_fees(nc, utxos@));
        }
        if total_coinbase_outputs != block_reward as u128 + miner_fees as u128 {
            return Err(BtcError::InvalidTransaction);
        }
        Ok(())
    }

    /// Checks every transaction of a block to be added at `predicted_block_height`: the
    /// coinbase first, then each other transaction's signatures and values in order.
    pub fn verify_transactions(&self, predicted_block_height: u64, utxos: &UtxoSet) -> (r: Result<
        (),
        BtcError,
    >)
        ensures
            r == transactions_outcome(self.transactions@, predicted_block_height, utxos@),
    {
        if self.transactions.len() == 0 {
            return Err(BtcError::InvalidTransaction);
        }
        match self.verify_coinbase_transaction(predicted_block_height, utxos) {
            Ok(()) => {},
            Err(e) => {
                return Err(e);
            },
        }
        let ghost txs = self.transactions@;
        let ghost nc = non_coinbase(txs);
        let ghost m = utxos@;
        let mut i: usize = 1;
        while i < self.transactions.len()
            invariant
                1 <= i <= txs.len(),
                txs == self.transactions@,
                nc == txs.subrange(1, txs.len() as int),
                m == utxos@,
                fees_valid(nc, m),
                coinbase_valid(txs, predicted_block_height, m),
                first_problem(nc.take(i - 1), m) == None::<BtcError>,
            decreases txs.len() - i,
        {
            let t = &self.transactions[i];
            let mut j: usize = 0;
            while j < t.inputs.len()
                invariant
                    j <= t.inputs@.len(),
                    *t == txs[i as int],
                    1 <= i < txs.len(),
                    nc == txs.subrange(1, txs.len() as int),
                    m == utxos@,
                    fees_valid(nc, m),
                    txs == self.transactions@,
                    coinbase_valid(txs, predicted_block_height, m),
                    first_problem(nc.take(i - 1), m) == None::<BtcError>,
                    forall|a: int| 0 <= a < j ==> input_signature_ok(#[trigger] t.inputs@[a], m),
                decreases t.inputs@.len() - j,
            {
                let input = t.inputs[j];
                proof {
                    assert(nc[i - 1] == txs[i as int]);
                    lemma_input_in_block(nc, i - 1, j as int);
                    let p = choose|p: int|
                        0 <= p < input_keys(block_inputs(nc)).len() && input_keys(
                            block_inputs(nc),
                        )[p] == input.prev_transaction_output_hash;
                    assert(m.contains_key(input_keys(block_inputs(nc))[p]));
                }
                let (_, prev_output) = utxos.get(&input.prev_transaction_output_hash).unwrap();
                if !input.signature.verify(&input.prev_transaction_output_hash, &prev_output.pubkey) {
                    proof {
                        assert(!input_signature_ok(t.inputs@[j as int], m));
                        assert(tx_problem(*t, m) == Some(BtcError::InvalidSignature));
                        assert(nc.take(i as int).drop_last() =~= nc.take(i - 1));
                        assert(nc.take(i as int).last() == *t);
                        assert(first_problem(nc.take(i as int), m) == Some(
                            BtcError::InvalidSignature,
                        ));
                        lemma_first_problem_prefix(nc, i as int);
                    }
                    return Err(BtcError::InvalidSignature);
                }
                j = j + 1;
            }
            proof {
                assert forall|k: int| 0 <= k < t.inputs@.len() implies m.contains_key(
                    #[trigger] input_keys(t.inputs@)[k],
                ) by {
                    lemma_input_in_block(nc, i - 1, k);
                    assert(nc[i - 1] == txs[i as int]);
                    let p = choose|p: int|
                        0 <= p < input_keys(block_inputs(nc)).len() && input_keys(
                            block_inputs(nc),
                        )[p] == t.inputs@[k].prev_transaction_output_hash;
                    assert(m.contains_key(input_keys(block_inputs(nc))[p]));
                }
            }
            let keys = keys_of(&t.inputs);
            let input_value = sum_values(&keys, utxos);
            let output_value = sum_output_values(&t.outputs);
            proof {
                assert(nc.take(i as int).drop_last() =~= nc.take(i - 1));
                assert(nc.take(i as int).last() == *t);
            }
            if input_value < output_value {
                proof {
                    assert(!exists|a: int|
                        0 <= a < t.inputs@.len() && !input_signature_ok(
                            #[trigger] t.inputs@[a],
                            m,
                        ));
                    assert(tx_input_value(*t, m) == input_value);
                    assert(tx_problem(*t, m) == Some(BtcError::InvalidTransaction));
                    assert(first_problem(nc.take(i as int), m) == Some(
                        BtcError::InvalidTransaction,
                    ));
                    lemma_first_problem_prefix(nc, i as int);
                }
                return Err(BtcError::InvalidTransaction);
            }
            i = i + 1;
        }
        proof {
            assert(nc.take(i - 1) =~= nc);
        }
        Ok(())
    }
}

/// A problem in a prefix is the first problem of the whole.
proof fn lemma_first_problem_prefix(txs: Seq<Transaction>, n: int)
    requires
        0 <= n <= txs.len(),
    ensures
        forall|m: UtxoMap|
            #![trigger first_problem(txs.take(n), m)]
            first_problem(txs.take(n), m) is Some ==> first_problem(txs, m) == first_problem(
                txs.take(n),
                m,
            ),
    decreases txs.len(),
{
    if n < txs.len() {
        lemma_first_problem_prefix(txs.drop_last(), n);
        assert(txs.drop_last().take(n) =~= txs.take(n));
    } else {
        assert(txs.take(n) =~= txs);
    }
}

/// The fee of each transaction, added up.
pub open spec fn per_transaction_fees(txs: Seq<Transaction>, m: UtxoMap) -> int
    decreases txs.len(),
{
    if txs.len() == 0 {
        0
    } else {
        per_transaction_fees(txs.drop_last(), m) + (tx_input_value(txs.last(), m) - sum_outputs(
            txs.last().outputs@,
        ))
    }
}

proof fn lemma_sum_key_values_concat(a: Seq<crate::hash::Hash>, b: Seq<crate::hash::Hash>, m: UtxoMap)
    ensures
        sum_key_values(a + b, m) == sum_key_values(a, m) + sum_key_values(b, m),
    decreases b.len(),
{
    if b.len() == 0 {
        assert(a + b =~= a);
    } else {
        assert((a + b).drop_last() =~= a + b.drop_last());
        lemma_sum_key_values_concat(a, b.drop_last(), m);
    }
}

proof fn lemma_sum_outputs_concat(a: Seq<TransactionOutput>, b: Seq<TransactionOutput>)
    ensures
        sum_outputs(a + b) == sum_outputs(a) + sum_outputs(b),
    decreases b.len(),
{
    if b.len() == 0 {
        assert(a + b =~= a);
    } else {
        assert((a + b).drop_last() =~= a + b.drop_last());
        lemma_sum_outputs_concat(a, b.drop_last());
    }
}

/// The fees of the transactions together are what they spend together less what they pay
/// out together.
pub proof fn lemma_fees_add_up(txs: Seq<Transaction>, m: UtxoMap)
    ensures
        per_transaction_fees(txs, m) == total_inputs(txs, m) - total_outputs(txs),
    decreases txs.len(),
{
    if txs.len() > 0 {
        let rest = txs.drop_last();
        lemma_fees_add_up(rest, m);
        assert(input_keys(block_inputs(rest) + txs.last().inputs@) =~= input_keys(
            block_inputs(rest),
        ) + input_keys(txs.last().inputs@));
        lemma_sum_key_values_concat(input_keys(block_inputs(rest)), input_keys(txs.last().inputs@), m);
        lemma_sum_outputs_concat(block_outputs(rest), txs.last().outputs@);
    }
}

/// Fee conservation: the coinbase of a block that is appended after the first pays exactly
/// the block reward at its height plus the fees of the block's other transactions.
pub proof fn lemma_fee_conservation(txs: Seq<Transaction>, height: u64, m: UtxoMap)
    requires
        transactions_outcome(txs, height, m) is Ok,
    ensures
        sum_outputs(txs[0].outputs@) == block_reward(height) + per_transaction_fees(
            non_coinbase(txs),
            m,
        ),
{
    lemma_fees_add_up(non_coinbase(txs), m);
}

} // verus!
