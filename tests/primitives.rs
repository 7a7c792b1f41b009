use btclib::block::{Block, BlockHeader, MerkleRoot};
use btclib::crypto::{PrivateKey, Signature};
use btclib::miner::{mine_round, MinerAction, MinerEvent, MinerState};
use btclib::time::Timestamp;
use btclib::transaction::{Transaction, TransactionOutput};
use btclib::u256::U256;

fn header(target: U256) -> BlockHeader {
    BlockHeader::new(
        Timestamp::from_seconds(1_000),
        0,
        btclib::hash::Hash::zero(),
        MerkleRoot(btclib::hash::Hash::zero()),
        target,
    )
}

#[test]
fn sha256_of_empty_input() {
    let h = btclib::hash::Hash::hash(&[]);
    assert_eq!(h.0.w3, 0xe3b0c44298fc1c14);
    assert_eq!(h.0.w2, 0x9afbf4c8996fb924);
    assert_eq!(h.0.w1, 0x27ae41e4649b934c);
    assert_eq!(h.0.w0, 0xa495991b7852b855);
}

#[test]
fn hash_bytes_are_little_endian() {
    let h = btclib::hash::Hash(U256 { w0: 0x0102, w1: 0, w2: 0, w3: 0xff00_0000_0000_0000 });
    let b = h.as_bytes();
    assert_eq!(b[0], 0x02);
    assert_eq!(b[1], 0x01);
    assert_eq!(b[31], 0xff);
    assert_eq!(b[30], 0x00);
}

#[test]
fn hash_matches_target_as_numbers() {
    let h = btclib::hash::Hash(U256 { w0: 5, w1: 0, w2: 0, w3: 1 });
    assert!(h.matches_target(U256 { w0: 5, w1: 0, w2: 0, w3: 1 }));
    assert!(h.matches_target(U256 { w0: 0, w1: 0, w2: 0, w3: 2 }));
    assert!(!h.matches_target(U256 { w0: u64::MAX, w1: u64::MAX, w2: u64::MAX, w3: 0 }));
    assert!(btclib::hash::Hash::zero().matches_target(U256::zero()));
}

#[test]
fn u256_arithmetic() {
    let x = U256 { w0: u64::MAX, w1: 1, w2: 0, w3: 0 };
    assert_eq!(x.mul_u64(2), U256 { w0: u64::MAX - 1, w1: 3, w2: 0, w3: 0 });
    assert_eq!(x.div_u64(2), U256 { w0: u64::MAX, w1: 0, w2: 0, w3: 0 });
    assert_eq!(U256::from_u64(1000).div_u64(7), U256::from_u64(142));
    let min = U256::min_target();
    assert_eq!(min, U256 { w0: u64::MAX, w1: u64::MAX, w2: u64::MAX, w3: 0xFFFF });
    assert!(min.div_u64(4).lt(&min));
    assert!(min.le(&min));
    assert_eq!(min.min(U256::zero()), U256::zero());
}

#[test]
fn signatures_verify_only_under_the_signer() {
    let key = PrivateKey::new_key();
    let other = PrivateKey::new_key();
    let h = btclib::hash::Hash::hash(b"output");
    let sig = Signature::sign_output(&h, &key);
    assert!(sig.verify(&h, &key.public_key()));
    assert!(!sig.verify(&h, &other.public_key()));
    assert!(!sig.verify(&btclib::hash::Hash::zero(), &key.public_key()));
    assert_eq!(key.public_key().0.len(), 33);
    let again = PrivateKey::from_bytes(key.to_bytes()).unwrap();
    assert_eq!(again.public_key(), key.public_key());
    assert!(PrivateKey::from_bytes([0u8; 32]).is_none());
    assert!(PrivateKey::from_bytes([0xffu8; 32]).is_none());
    assert_ne!(key.public_key(), other.public_key());
}

#[test]
fn merkle_root_of_empty_single_and_pair() {
    let pk = PrivateKey::new_key().public_key();
    assert_eq!(MerkleRoot::calculate(&vec![]), MerkleRoot(btclib::hash::Hash::zero()));
    let a = Transaction::new(vec![], vec![TransactionOutput::new(1, pk)]);
    let b = Transaction::new(vec![], vec![TransactionOutput::new(2, pk)]);
    let single = MerkleRoot::calculate(&vec![a.clone()]);
    assert_eq!(single, MerkleRoot(a.hash()));
    let pair = MerkleRoot::calculate(&vec![a.clone(), b.clone()]);
    assert_ne!(pair, MerkleRoot(a.hash()));
    assert_ne!(pair, MerkleRoot(b.hash()));
    let swapped = MerkleRoot::calculate(&vec![b.clone(), a.clone()]);
    assert_ne!(pair, swapped);
    let three = MerkleRoot::calculate(&vec![a.clone(), b.clone(), a.clone()]);
    assert_ne!(three, pair);
}

#[test]
fn outputs_with_equal_payment_hash_differently() {
    let pk = PrivateKey::new_key().public_key();
    let a = TransactionOutput::new(5, pk);
    let b = TransactionOutput::new(5, pk);
    assert_ne!(a.unique_id, b.unique_id);
    assert_ne!(a.hash(), b.hash());
    let c = TransactionOutput { value: 5, unique_id: a.unique_id, pubkey: pk };
    assert_eq!(a.hash(), c.hash());
}

#[test]
fn encoding_is_deterministic_and_framed() {
    let pk = PrivateKey::new_key().public_key();
    let t = Transaction::new(vec![], vec![TransactionOutput { value: 1, unique_id: 2, pubkey: pk }]);
    let bytes = t.encode();
    assert_eq!(bytes, t.clone().encode());
    // array of two, empty inputs, one output of three fields
    assert_eq!(bytes[0], 0x9b);
    assert_eq!(&bytes[1..9], &[0, 0, 0, 0, 0, 0, 0, 2]);
    assert_eq!(bytes[9], 0x9b);
    assert_eq!(&bytes[10..18], &[0u8; 8]);
    assert_eq!(bytes[18], 0x9b);
    assert_eq!(&bytes[19..27], &[0, 0, 0, 0, 0, 0, 0, 1]);
}

#[test]
fn mining_meets_target_or_keeps_the_header() {
    let mut easy = header(U256 { w0: u64::MAX, w1: u64::MAX, w2: u64::MAX, w3: u64::MAX });
    assert!(easy.mine(10));
    assert!(easy.hash().matches_target(easy.target));
    let mut hard = header(U256::zero());
    let before = hard;
    assert!(!hard.mine(5));
    assert_eq!(hard.nonce, 5);
    assert_eq!(hard.prev_block_hash, before.prev_block_hash);
    assert_eq!(hard.merkle_root, before.merkle_root);
    assert_eq!(hard.target, before.target);
    assert_eq!(hard.timestamp, before.timestamp);
}

#[test]
fn nonce_wrap_restamps_the_header() {
    let mut h = header(U256::zero());
    h.nonce = u64::MAX;
    assert!(!h.mine(1));
    assert_eq!(h.nonce, 0);
    assert!(h.timestamp.is_after(&Timestamp::from_seconds(1_000)));
}

#[test]
fn mine_round_returns_a_block_that_meets_its_target() {
    let easy = Block::new(header(U256 { w0: u64::MAX, w1: u64::MAX, w2: u64::MAX, w3: u64::MAX }), vec![]);
    let found = mine_round(&easy, 3).unwrap();
    assert!(found.header.hash().matches_target(found.header.target));
    let hard = Block::new(header(U256::zero()), vec![]);
    assert!(mine_round(&hard, 3).is_none());
}

#[test]
fn miner_fetches_validates_and_submits() {
    let mut state = MinerState::new();
    assert!(matches!(state.step(MinerEvent::Tick), MinerAction::FetchTemplate));
    let template = Block::new(header(U256::zero()), vec![]);
    assert!(matches!(state.step(MinerEvent::Template(template)), MinerAction::Wait));
    assert!(state.mining);
    assert!(matches!(state.step(MinerEvent::Tick), MinerAction::ValidateTemplate(_)));
    assert!(matches!(state.step(MinerEvent::TemplateValidity(true)), MinerAction::Wait));
    assert!(state.mining);
    assert!(matches!(state.step(MinerEvent::TemplateValidity(false)), MinerAction::Wait));
    assert!(!state.mining);
    assert!(matches!(state.step(MinerEvent::Tick), MinerAction::FetchTemplate));
    let mined = Block::new(header(U256::zero()), vec![]);
    state.mining = true;
    assert!(matches!(state.step(MinerEvent::Mined(mined)), MinerAction::SubmitBlock(_)));
    assert!(!state.mining);
}

#[test]
fn timestamps_compare_by_instant() {
    let a = Timestamp { seconds: 10, nanos: 5 };
    let b = Timestamp { seconds: 10, nanos: 6 };
    assert!(b.is_after(&a));
    assert!(!a.is_after(&b));
    assert!(!a.is_after(&a));
    assert_eq!(Timestamp::from_seconds(1_601).seconds_since_capped(&Timestamp::from_seconds(1_000), 10_000), 601);
    assert_eq!(b.seconds_since_capped(&a, 10), 0);
    assert!(Timestamp::from_seconds(1_601).more_than_seconds_after(&Timestamp::from_seconds(1_000), 600));
    assert!(!Timestamp::from_seconds(1_600).more_than_seconds_after(&Timestamp::from_seconds(1_000), 600));
}
