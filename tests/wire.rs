use btclib::block::{Block, BlockHeader, MerkleRoot};
use btclib::crypto::{PrivateKey, Signature};
use btclib::blockchain::Blockchain;
use btclib::network::{decode_chain, frame_length, Message};
use btclib::time::Timestamp;
use btclib::transaction::{Transaction, TransactionInput, TransactionOutput};
use btclib::u256::U256;

fn sample_transaction() -> Transaction {
    let key = PrivateKey::new_key();
    let pk = key.public_key();
    let prev = btclib::hash::Hash::hash(b"earlier");
    let input = TransactionInput {
        prev_transaction_output_hash: prev,
        signature: Signature::sign_output(&prev, &key),
    };
    Transaction::new(
        vec![input],
        vec![TransactionOutput::new(7, pk), TransactionOutput::new(u64::MAX, pk)],
    )
}

fn sample_block() -> Block {
    let pk = PrivateKey::new_key().public_key();
    let txs = vec![
        Transaction::new(vec![], vec![TransactionOutput::new(5_000_000_000, pk)]),
        sample_transaction(),
    ];
    let merkle = MerkleRoot::calculate(&txs);
    let header = BlockHeader::new(
        Timestamp { seconds: -5, nanos: 999_999_999 },
        u64::MAX,
        btclib::hash::Hash::hash(b"parent"),
        merkle,
        U256::min_target(),
    );
    Block::new(header, txs)
}

#[test]
fn transaction_round_trip() {
    let t = sample_transaction();
    let back = Transaction::decode(&t.encode()).unwrap();
    assert_eq!(back.hash(), t.hash());
    assert_eq!(back.encode(), t.encode());
    assert_eq!(back.outputs[1].value, u64::MAX);
}

#[test]
fn block_round_trip() {
    let b = sample_block();
    let back = Block::decode(&b.encode()).unwrap();
    assert_eq!(back.header, b.header);
    assert_eq!(back.hash(), b.hash());
    assert_eq!(back.transactions.len(), 2);
    assert_eq!(back.header.timestamp, Timestamp { seconds: -5, nanos: 999_999_999 });
}

#[test]
fn header_input_output_round_trip() {
    let b = sample_block();
    let mut bytes = vec![];
    b.header.write(&mut bytes);
    assert_eq!(BlockHeader::decode(&bytes), Some(b.header));
    let t = sample_transaction();
    let mut out = vec![];
    t.outputs[0].write(&mut out);
    let o = TransactionOutput::decode(&out).unwrap();
    assert_eq!(o.hash(), t.outputs[0].hash());
    let mut inp = vec![];
    t.inputs[0].write(&mut inp);
    let i = TransactionInput::decode(&inp).unwrap();
    assert_eq!(i.prev_transaction_output_hash, t.inputs[0].prev_transaction_output_hash);
    assert_eq!(i.signature.0, t.inputs[0].signature.0);
}

#[test]
fn malformed_bytes_do_not_decode() {
    let t = sample_transaction();
    let mut bytes = t.encode();
    bytes.pop();
    assert!(Transaction::decode(&bytes).is_none());
    let mut longer = t.encode();
    longer.push(0);
    assert!(Transaction::decode(&longer).is_none());
    assert!(Block::decode(&[]).is_none());
    assert!(Message::decode(&[0x9b, 0, 0]).is_none());
}

#[test]
fn messages_round_trip_through_frames() {
    let pk = PrivateKey::new_key().public_key();
    let messages = vec![
        Message::FetchBlock(3),
        Message::NewBlock(sample_block()),
        Message::NewTransaction(sample_transaction()),
        Message::AskDifference(0),
        Message::Difference(-4),
        Message::FetchTemplate(pk),
        Message::Template(sample_block()),
        Message::ValidateTemplate(sample_block()),
        Message::TemplateValidity(true),
        Message::SubmitTemplate(sample_block()),
    ];
    for m in &messages {
        let frame = m.to_frame();
        let prefix: [u8; 8] = frame[..8].try_into().unwrap();
        assert_eq!(frame_length(&prefix) as usize, frame.len() - 8);
        let back = Message::decode(&frame[8..]).unwrap();
        assert_eq!(back.encode(), m.encode());
    }
    match Message::decode(&Message::Difference(-4).encode()) {
        Some(Message::Difference(d)) => assert_eq!(d, -4),
        _ => panic!("wrong variant"),
    }
    match Message::decode(&Message::FetchTemplate(pk).encode()) {
        Some(Message::FetchTemplate(k)) => assert_eq!(k, pk),
        _ => panic!("wrong variant"),
    }
}

#[test]
fn stored_chain_round_trip() {
    let pk = PrivateKey::new_key().public_key();
    let mut chain = Blockchain::new();
    let txs = vec![Transaction::new(vec![], vec![TransactionOutput::new(5_000_000_000, pk)])];
    let merkle = MerkleRoot::calculate(&txs);
    let header = BlockHeader::new(
        Timestamp::from_seconds(1_000),
        0,
        btclib::hash::Hash::zero(),
        merkle,
        U256::min_target(),
    );
    assert_eq!(chain.add_block(Block::new(header, txs)), Ok(()));
    let bytes = chain.encode();
    let (target, blocks) = decode_chain(&bytes).unwrap();
    assert_eq!(target, chain.target());
    assert_eq!(blocks.len(), 1);
    assert_eq!(blocks[0].hash(), chain.blocks()[0].hash());
    let mut again = Blockchain::new();
    for b in blocks {
        assert_eq!(again.add_block(b), Ok(()));
    }
    again.rebuild_utxos();
    assert_eq!(again.utxos().entries().len(), 1);
    assert!(decode_chain(&bytes[..bytes.len() - 1]).is_none());
}
