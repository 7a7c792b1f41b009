use btclib::block::{Block, BlockHeader, MerkleRoot};
use btclib::blockchain::{next_target, Blockchain};
use btclib::crypto::{PrivateKey, PublicKey, Signature};
use btclib::error::BtcError;
use btclib::time::Timestamp;
use btclib::transaction::{Transaction, TransactionInput, TransactionOutput};
use btclib::u256::U256;
use btclib::validation::calculate_block_reward;

const COIN: u64 = 100_000_000;
const GENESIS_TIME: i64 = 1_700_000_000;

fn easiest() -> U256 {
    U256 { w0: u64::MAX, w1: u64::MAX, w2: u64::MAX, w3: u64::MAX }
}

fn coinbase(value: u64, pk: PublicKey) -> Transaction {
    Transaction::new(vec![], vec![TransactionOutput::new(value, pk)])
}

fn make_block(
    prev: btclib::hash::Hash,
    seconds: i64,
    target: U256,
    txs: Vec<Transaction>,
) -> Block {
    let merkle = MerkleRoot::calculate(&txs);
    Block::new(BlockHeader::new(Timestamp::from_seconds(seconds), 0, prev, merkle, target), txs)
}

/// A chain holding only a genesis block whose coinbase pays 50 coins to `pk`; returns the
/// chain and the hash of the coinbase transaction.
fn genesis_chain(pk: PublicKey) -> (Blockchain, btclib::hash::Hash) {
    let mut chain = Blockchain::new();
    let cb = coinbase(50 * COIN, pk);
    let cb_hash = cb.hash();
    let block = make_block(btclib::hash::Hash::zero(), GENESIS_TIME, U256::min_target(), vec![cb]);
    chain.add_block(block).unwrap();
    (chain, cb_hash)
}

fn spend(prev: btclib::hash::Hash, key: &PrivateKey, value: u64, to: PublicKey) -> Transaction {
    let input = TransactionInput {
        prev_transaction_output_hash: prev,
        signature: Signature::sign_output(&prev, key),
    };
    Transaction::new(vec![input], vec![TransactionOutput::new(value, to)])
}

#[test]
fn genesis_block_is_accepted() {
    let key = PrivateKey::new_key();
    let pk = key.public_key();
    let (chain, cb_hash) = genesis_chain(pk);
    assert_eq!(chain.block_height(), 1);
    assert_eq!(chain.utxos().entries().len(), 1);
    let (marked, output) = chain.utxos().get(&cb_hash).unwrap();
    assert!(!marked);
    assert_eq!(output.value, 50 * COIN);
    assert_eq!(output.pubkey, pk);
}

#[test]
fn genesis_must_follow_zero_hash() {
    let pk = PrivateKey::new_key().public_key();
    let mut chain = Blockchain::new();
    let other = coinbase(COIN, pk).hash();
    let block = make_block(other, GENESIS_TIME, U256::min_target(), vec![coinbase(50 * COIN, pk)]);
    assert_eq!(chain.add_block(block), Err(BtcError::InvalidBlock));
    assert_eq!(chain.block_height(), 0);
}

#[test]
fn block_after_genesis_with_zero_prev_is_rejected() {
    let pk = PrivateKey::new_key().public_key();
    let (mut chain, _) = genesis_chain(pk);
    let block = make_block(
        btclib::hash::Hash::zero(),
        GENESIS_TIME + 10,
        easiest(),
        vec![coinbase(50 * COIN, pk)],
    );
    assert_eq!(chain.add_block(block), Err(BtcError::InvalidBlock));
    assert_eq!(chain.block_height(), 1);
}

#[test]
fn block_missing_its_target_is_rejected() {
    let pk = PrivateKey::new_key().public_key();
    let (mut chain, _) = genesis_chain(pk);
    let prev = chain.blocks()[0].hash();
    let block = make_block(prev, GENESIS_TIME + 10, U256::zero(), vec![coinbase(50 * COIN, pk)]);
    assert!(!block.header.hash().matches_target(block.header.target));
    assert_eq!(chain.add_block(block), Err(BtcError::InvalidBlock));
    assert_eq!(chain.block_height(), 1);
}

#[test]
fn wrong_merkle_root_is_rejected() {
    let pk = PrivateKey::new_key().public_key();
    let (mut chain, _) = genesis_chain(pk);
    let prev = chain.blocks()[0].hash();
    let mut block = make_block(prev, GENESIS_TIME + 10, easiest(), vec![coinbase(50 * COIN, pk)]);
    block.header.merkle_root = MerkleRoot(btclib::hash::Hash::zero());
    assert_eq!(chain.add_block(block), Err(BtcError::InvalidMerkleRoot));
}

#[test]
fn timestamp_must_increase() {
    let pk = PrivateKey::new_key().public_key();
    let (mut chain, _) = genesis_chain(pk);
    let prev = chain.blocks()[0].hash();
    let block = make_block(prev, GENESIS_TIME, easiest(), vec![coinbase(50 * COIN, pk)]);
    assert_eq!(chain.add_block(block), Err(BtcError::InvalidBlock));
}

#[test]
fn coinbase_must_pay_reward_plus_fees() {
    let pk = PrivateKey::new_key().public_key();
    let (mut chain, _) = genesis_chain(pk);
    let prev = chain.blocks()[0].hash();
    let block = make_block(prev, GENESIS_TIME + 10, easiest(), vec![coinbase(51 * COIN, pk)]);
    assert_eq!(chain.add_block(block), Err(BtcError::InvalidTransaction));
    let empty = make_block(prev, GENESIS_TIME + 10, easiest(), vec![]);
    assert_eq!(chain.add_block(empty), Err(BtcError::InvalidTransaction));
    let good = make_block(prev, GENESIS_TIME + 10, easiest(), vec![coinbase(50 * COIN, pk)]);
    assert_eq!(chain.add_block(good), Ok(()));
    assert_eq!(chain.block_height(), 2);
}

#[test]
fn spending_transaction_moves_value_and_fee() {
    let key = PrivateKey::new_key();
    let pk = key.public_key();
    let other = PrivateKey::new_key().public_key();
    let (mut chain, cb_hash) = genesis_chain(pk);
    let prev = chain.blocks()[0].hash();
    let tx = spend(cb_hash, &key, 30 * COIN, other);
    let tx_hash = tx.hash();
    let miner_cb = coinbase(50 * COIN + 20 * COIN, pk);
    let block = make_block(prev, GENESIS_TIME + 10, easiest(), vec![miner_cb, tx]);
    assert_eq!(block.calculate_miner_fees(chain.utxos()), Ok(20 * COIN));
    assert_eq!(chain.add_block(block), Ok(()));
    assert!(chain.utxos().get(&cb_hash).is_none());
    let (_, out) = chain.utxos().get(&tx_hash).unwrap();
    assert_eq!(out.value, 30 * COIN);
    assert_eq!(out.pubkey, other);
}

#[test]
fn bad_signature_is_rejected() {
    let key = PrivateKey::new_key();
    let pk = key.public_key();
    let thief = PrivateKey::new_key();
    let (mut chain, cb_hash) = genesis_chain(pk);
    let prev = chain.blocks()[0].hash();
    let tx = spend(cb_hash, &thief, 30 * COIN, thief.public_key());
    let block = make_block(prev, GENESIS_TIME + 10, easiest(), vec![coinbase(70 * COIN, pk), tx]);
    assert_eq!(chain.add_block(block), Err(BtcError::InvalidSignature));
}

#[test]
fn missing_or_double_spent_output_is_rejected() {
    let key = PrivateKey::new_key();
    let pk = key.public_key();
    let (mut chain, cb_hash) = genesis_chain(pk);
    let prev = chain.blocks()[0].hash();
    let unknown = coinbase(COIN, pk).hash();
    let tx = spend(unknown, &key, COIN, pk);
    let block = make_block(prev, GENESIS_TIME + 10, easiest(), vec![coinbase(50 * COIN, pk), tx]);
    assert_eq!(block.calculate_miner_fees(chain.utxos()), Err(BtcError::InvalidTransaction));
    assert_eq!(chain.add_block(block), Err(BtcError::InvalidTransaction));
    let a = spend(cb_hash, &key, 10 * COIN, pk);
    let b = spend(cb_hash, &key, 10 * COIN, pk);
    let block = make_block(prev, GENESIS_TIME + 10, easiest(), vec![coinbase(110 * COIN, pk), a, b]);
    assert_eq!(chain.add_block(block), Err(BtcError::InvalidTransaction));
}

#[test]
fn overspending_transaction_is_rejected() {
    let key = PrivateKey::new_key();
    let pk = key.public_key();
    let (mut chain, cb_hash) = genesis_chain(pk);
    let prev = chain.blocks()[0].hash();
    let tx = spend(cb_hash, &key, 60 * COIN, pk);
    let block = make_block(prev, GENESIS_TIME + 10, easiest(), vec![coinbase(50 * COIN, pk), tx]);
    assert_eq!(chain.add_block(block), Err(BtcError::InvalidTransaction));
}

#[test]
fn block_reward_halves() {
    assert_eq!(calculate_block_reward(0), 5_000_000_000);
    assert_eq!(calculate_block_reward(209), 5_000_000_000);
    assert_eq!(calculate_block_reward(210), 2_500_000_000);
    assert_eq!(calculate_block_reward(420), 1_250_000_000);
    assert_eq!(calculate_block_reward(210 * 33), 0);
    assert_eq!(calculate_block_reward(210 * 64), 0);
    assert_eq!(calculate_block_reward(u64::MAX), 0);
}

#[test]
fn retarget_clamps_to_a_quarter() {
    let t = U256::min_target();
    // Ideal is 500 seconds; a tenth of it.
    assert_eq!(next_target(t, 50), t.div_u64(4));
    assert_eq!(next_target(t, 0), t.div_u64(4));
}

#[test]
fn retarget_scales_and_caps() {
    let t = U256::min_target().div_u64(16);
    assert_eq!(next_target(t, 1000), t.mul_u64(2));
    assert_eq!(next_target(t, 500), t);
    assert_eq!(next_target(t, 5000), t.mul_u64(4));
    assert_eq!(next_target(t, u64::MAX), t.mul_u64(4));
    let min = U256::min_target();
    assert_eq!(next_target(min, 1000), min);
}

#[test]
fn fast_interval_quarters_the_chain_target() {
    let pk = PrivateKey::new_key().public_key();
    let (mut chain, _) = genesis_chain(pk);
    for height in 1..50u64 {
        let prev = chain.blocks()[chain.blocks().len() - 1].hash();
        let cb = coinbase(calculate_block_reward(height), pk);
        let block = make_block(prev, GENESIS_TIME + height as i64, easiest(), vec![cb]);
        assert_eq!(chain.add_block(block), Ok(()));
        if height < 49 {
            assert_eq!(chain.target(), U256::min_target());
        }
    }
    assert_eq!(chain.block_height(), 50);
    assert_eq!(chain.target(), U256::min_target().div_u64(4));
}

#[test]
fn later_transaction_replaces_conflicting_one() {
    let key = PrivateKey::new_key();
    let pk = key.public_key();
    let (mut chain, u) = genesis_chain(pk);
    let a = spend(u, &key, 10 * COIN, pk);
    let b = spend(u, &key, 40 * COIN, pk);
    let b_hash = b.hash();
    let t0 = Timestamp::from_seconds(GENESIS_TIME + 100);
    assert_eq!(chain.add_to_mempool_at(a, t0), Ok(()));
    assert!(chain.utxos().get(&u).unwrap().0);
    assert_eq!(chain.add_to_mempool_at(b, t0), Ok(()));
    assert_eq!(chain.mempool().len(), 1);
    assert_eq!(chain.mempool()[0].transaction.hash(), b_hash);
    assert_eq!(chain.mempool()[0].fee, 10 * COIN);
    assert!(chain.utxos().get(&u).unwrap().0);
}

#[test]
fn mempool_rejects_unknown_duplicate_and_overspending() {
    let key = PrivateKey::new_key();
    let pk = key.public_key();
    let (mut chain, u) = genesis_chain(pk);
    let now = Timestamp::from_seconds(GENESIS_TIME + 100);
    let unknown = spend(coinbase(COIN, pk).hash(), &key, COIN, pk);
    assert_eq!(chain.add_to_mempool_at(unknown, now), Err(BtcError::InvalidTransaction));
    let input = TransactionInput {
        prev_transaction_output_hash: u,
        signature: Signature::sign_output(&u, &key),
    };
    let twice = Transaction::new(vec![input, input], vec![TransactionOutput::new(COIN, pk)]);
    assert_eq!(chain.add_to_mempool_at(twice, now), Err(BtcError::InvalidTransaction));
    let greedy = spend(u, &key, 51 * COIN, pk);
    assert_eq!(chain.add_to_mempool_at(greedy, now), Err(BtcError::InvalidTransaction));
    assert_eq!(chain.mempool().len(), 0);
    assert!(!chain.utxos().get(&u).unwrap().0);
}

#[test]
fn mempool_is_ordered_by_fee() {
    let key = PrivateKey::new_key();
    let pk = key.public_key();
    let (mut chain, u1) = genesis_chain(pk);
    let prev = chain.blocks()[0].hash();
    let cb2 = coinbase(50 * COIN, pk);
    let u2 = cb2.hash();
    let block = make_block(prev, GENESIS_TIME + 10, easiest(), vec![cb2]);
    assert_eq!(chain.add_block(block), Ok(()));
    let now = Timestamp::from_seconds(GENESIS_TIME + 100);
    let cheap = spend(u1, &key, 49 * COIN, pk);
    let dear = spend(u2, &key, 45 * COIN, pk);
    assert_eq!(chain.add_to_mempool_at(cheap, now), Ok(()));
    assert_eq!(chain.add_to_mempool_at(dear, now), Ok(()));
    let fees: Vec<u64> = chain.mempool().iter().map(|e| e.fee).collect();
    assert_eq!(fees, vec![5 * COIN, COIN]);
}

#[test]
fn expired_transaction_leaves_mempool() {
    let key = PrivateKey::new_key();
    let pk = key.public_key();
    let (mut chain, u) = genesis_chain(pk);
    let t0 = Timestamp::from_seconds(GENESIS_TIME + 100);
    let a = spend(u, &key, 10 * COIN, pk);
    assert_eq!(chain.add_to_mempool_at(a, t0), Ok(()));
    chain.cleanup_mempool_at(Timestamp::from_seconds(GENESIS_TIME + 700));
    assert_eq!(chain.mempool().len(), 1);
    assert!(chain.utxos().get(&u).unwrap().0);
    chain.cleanup_mempool_at(Timestamp::from_seconds(GENESIS_TIME + 701));
    assert_eq!(chain.mempool().len(), 0);
    assert!(!chain.utxos().get(&u).unwrap().0);
}

#[test]
fn included_transaction_leaves_mempool() {
    let key = PrivateKey::new_key();
    let pk = key.public_key();
    let (mut chain, u) = genesis_chain(pk);
    let now = Timestamp::from_seconds(GENESIS_TIME + 5);
    let tx = spend(u, &key, 45 * COIN, pk);
    assert_eq!(chain.add_to_mempool_at(tx.clone(), now), Ok(()));
    let prev = chain.blocks()[0].hash();
    let block = make_block(prev, GENESIS_TIME + 10, easiest(), vec![coinbase(55 * COIN, pk), tx]);
    assert_eq!(chain.add_block(block), Ok(()));
    assert_eq!(chain.mempool().len(), 0);
}

#[test]
fn rebuild_utxos_is_idempotent() {
    let key = PrivateKey::new_key();
    let pk = key.public_key();
    let (mut chain, u) = genesis_chain(pk);
    let prev = chain.blocks()[0].hash();
    let tx = spend(u, &key, 30 * COIN, pk);
    let block = make_block(prev, GENESIS_TIME + 10, easiest(), vec![coinbase(70 * COIN, pk), tx]);
    assert_eq!(chain.add_block(block), Ok(()));
    let keys = |c: &Blockchain| {
        let mut v: Vec<(btclib::hash::Hash, bool, u64)> =
            c.utxos().entries().iter().map(|e| (e.key, e.marked, e.output.value)).collect();
        v.sort_by_key(|e| (e.0 .0.w3, e.0 .0.w2, e.0 .0.w1, e.0 .0.w0));
        v
    };
    chain.rebuild_utxos();
    let once = keys(&chain);
    chain.rebuild_utxos();
    assert_eq!(keys(&chain), once);
    assert_eq!(once.len(), 2);
}

#[test]
fn template_carries_fees_and_tracks_the_tip() {
    let key = PrivateKey::new_key();
    let pk = key.public_key();
    let (mut chain, u) = genesis_chain(pk);
    let now = Timestamp::from_seconds(GENESIS_TIME + 5);
    let tx = spend(u, &key, 45 * COIN, pk);
    assert_eq!(chain.add_to_mempool_at(tx, now), Ok(()));
    let miner = PrivateKey::new_key().public_key();
    let template = chain.build_template_at(miner, Timestamp::from_seconds(GENESIS_TIME + 10), 7);
    assert_eq!(template.transactions.len(), 2);
    assert_eq!(template.transactions[0].outputs[0].value, 55 * COIN);
    assert_eq!(template.transactions[0].outputs[0].unique_id, 7);
    assert_eq!(template.header.prev_block_hash, chain.blocks()[0].hash());
    assert_eq!(template.header.merkle_root, MerkleRoot::calculate(&template.transactions));
    assert!(chain.validate_template(&template));
    let mut mined = template.clone();
    mined.header.target = easiest();
    assert!(!chain.validate_template(&mined));
    assert_eq!(chain.add_block(mined), Ok(()));
    assert!(!chain.validate_template(&template));
}

/// A chain of a genesis block and one more block, each paying 50 coins to `pk`; returns the
/// chain and the two coinbase hashes.
fn two_coinbase_chain(pk: PublicKey) -> (Blockchain, btclib::hash::Hash, btclib::hash::Hash) {
    let (mut chain, u1) = genesis_chain(pk);
    let prev = chain.blocks()[0].hash();
    let cb2 = coinbase(50 * COIN, pk);
    let u2 = cb2.hash();
    let block = make_block(prev, GENESIS_TIME + 10, easiest(), vec![cb2]);
    assert_eq!(chain.add_block(block), Ok(()));
    (chain, u1, u2)
}

#[test]
fn coinbase_collects_the_fees_of_every_transaction() {
    let key = PrivateKey::new_key();
    let pk = key.public_key();
    let (mut chain, u1, u2) = two_coinbase_chain(pk);
    let a = spend(u1, &key, 48 * COIN, pk);
    let b = spend(u2, &key, 45 * COIN, pk);
    let prev = chain.blocks()[1].hash();
    let reward = calculate_block_reward(2);
    let too_little = make_block(
        prev,
        GENESIS_TIME + 20,
        easiest(),
        vec![coinbase(reward + 6 * COIN, pk), a.clone(), b.clone()],
    );
    assert_eq!(chain.add_block(too_little), Err(BtcError::InvalidTransaction));
    let exact = make_block(prev, GENESIS_TIME + 20, easiest(), vec![coinbase(reward + 7 * COIN, pk), a, b]);
    assert_eq!(exact.calculate_miner_fees(chain.utxos()), Ok(7 * COIN));
    assert_eq!(chain.add_block(exact), Ok(()));
    assert_eq!(chain.block_height(), 3);
}

#[test]
fn replaced_transaction_releases_its_other_inputs() {
    let key = PrivateKey::new_key();
    let pk = key.public_key();
    let (mut chain, u1, u2) = two_coinbase_chain(pk);
    let now = Timestamp::from_seconds(GENESIS_TIME + 100);
    let both = Transaction::new(
        vec![
            TransactionInput {
                prev_transaction_output_hash: u1,
                signature: Signature::sign_output(&u1, &key),
            },
            TransactionInput {
                prev_transaction_output_hash: u2,
                signature: Signature::sign_output(&u2, &key),
            },
        ],
        vec![TransactionOutput::new(90 * COIN, pk)],
    );
    assert_eq!(chain.add_to_mempool_at(both, now), Ok(()));
    assert!(chain.utxos().get(&u1).unwrap().0);
    assert!(chain.utxos().get(&u2).unwrap().0);
    let replacement = spend(u1, &key, 49 * COIN, pk);
    assert_eq!(chain.add_to_mempool_at(replacement, now), Ok(()));
    assert_eq!(chain.mempool().len(), 1);
    assert!(chain.utxos().get(&u1).unwrap().0);
    assert!(!chain.utxos().get(&u2).unwrap().0);
}

#[test]
fn admission_with_the_clock_replaces_and_keeps_fresh_entries() {
    let key = PrivateKey::new_key();
    let pk = key.public_key();
    let (mut chain, u) = genesis_chain(pk);
    let a = spend(u, &key, 10 * COIN, pk);
    let b = spend(u, &key, 40 * COIN, pk);
    let b_hash = b.hash();
    assert_eq!(chain.add_to_mempool(a), Ok(()));
    assert_eq!(chain.add_to_mempool(b), Ok(()));
    assert_eq!(chain.mempool().len(), 1);
    assert_eq!(chain.mempool()[0].transaction.hash(), b_hash);
    chain.cleanup_mempool();
    assert_eq!(chain.mempool().len(), 1);
    assert!(chain.utxos().get(&u).unwrap().0);
}
