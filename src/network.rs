use vstd::prelude::*;

use crate::block::{enc_block, enc_blocks, enc_header, same_transaction, Block, BlockHeader};
use crate::blockchain::enc_chain;
use crate::decoding::{lemma_enc_blocks_min, read_blocks, read_u256};
use crate::hash::enc_u256;
use crate::u256::U256;
use crate::crypto::PublicKey;
use crate::decoding::{
    read_block, read_byte_array, read_i64, read_input, read_output, read_header, read_transaction,
    read_u64, read_array_head, same_block, starts_with_at, lemma_split, INPUT_LEN, OUTPUT_LEN,
    HEADER_LEN,
};
use crate::encoding::{enc_array_head, enc_bytes, enc_i64, enc_u64, write_array_head, write_bytes, write_i64, write_u64};
use crate::hash::le_u64;
use crate::transaction::{enc_input, enc_output, enc_transaction, Transaction, TransactionInput, TransactionOutput};

verus! {

impl TransactionOutput {
    /// Decodes an output from exactly its canonical encoding.
    pub fn decode(bytes: &[u8]) -> (r: Option<TransactionOutput>)
        ensures
            forall|o: TransactionOutput| bytes@ == #[trigger] enc_output(o) ==> r == Some(o),
    {
        if bytes.len() != OUTPUT_LEN {
            return None;
        }
        proof {
            assert forall|o: TransactionOutput| bytes@ == #[trigger] enc_output(o) implies starts_with_at(bytes@, 0, enc_output(o)) by {
                assert(bytes@.subrange(0, bytes@.len() as int) =~= bytes@);
            }
        }
        read_output(bytes, 0)
    }
}

impl TransactionInput {
    /// Decodes an input from exactly its canonical encoding.
    pub fn decode(bytes: &[u8]) -> (r: Option<TransactionInput>)
        ensures
            forall|i: TransactionInput| bytes@ == #[trigger] enc_input(i) ==> r == Some(i),
    {
        if bytes.len() != INPUT_LEN {
            return None;
        }
        proof {
            assert forall|i: TransactionInput| bytes@ == #[trigger] enc_input(i) implies starts_with_at(bytes@, 0, enc_input(i)) by {
                assert(bytes@.subrange(0, bytes@.len() as int) =~= bytes@);
            }
        }
        read_input(bytes, 0)
    }
}

impl BlockHeader {
    /// Decodes a header from exactly its canonical encoding.
    pub fn decode(bytes: &[u8]) -> (r: Option<BlockHeader>)
        ensures
            forall|h: BlockHeader| bytes@ == #[trigger] enc_header(h) ==> r == Some(h),
    {
        if bytes.len() != HEADER_LEN {
            return None;
        }
        proof {
            assert forall|h: BlockHeader| bytes@ == #[trigger] enc_header(h) implies starts_with_at(bytes@, 0, enc_header(h)) by {
                assert(bytes@.subrange(0, bytes@.len() as int) =~= bytes@);
            }
        }
        read_header(bytes, 0)
    }
}

impl Transaction {
    /// Decodes a transaction from exactly its canonical encoding: decoding what `encode`
    /// wrote gives back the same inputs and outputs.
    pub fn decode(bytes: &[u8]) -> (r: Option<Transaction>)
        ensures
            forall|t: Transaction|
                bytes@ == #[trigger] enc_transaction(t) ==> (r matches Some(t2) && same_transaction(t2, t)),
    {
        proof {
            assert forall|t: Transaction| bytes@ == #[trigger] enc_transaction(t) implies starts_with_at(bytes@, 0, enc_transaction(t)) by {
                assert(bytes@.subrange(0, bytes@.len() as int) =~= bytes@);
            }
        }
        match read_transaction(bytes, 0) {
            Some((t, end)) => {
                if end == bytes.len() {
                    Some(t)
                } else {
                    None
                }
            },
            None => None,
        }
    }
}

impl Block {
    /// Decodes a block from exactly its canonical encoding: decoding what `encode` wrote
    /// gives back the same header and transactions.
    pub fn decode(bytes: &[u8]) -> (r: Option<Block>)
        ensures
            forall|k: Block| bytes@ == #[trigger] enc_block(k) ==> (r matches Some(k2) && same_block(k2, k)),
    {
        proof {
            assert forall|k: Block| bytes@ == #[trigger] enc_block(k) implies starts_with_at(bytes@, 0, enc_block(k)) by {
                assert(bytes@.subrange(0, bytes@.len() as int) =~= bytes@);
            }
        }
        match read_block(bytes, 0) {
            Some((k, end)) => {
                if end == bytes.len() {
                    Some(k)
                } else {
                    None
                }
            },
            None => None,
        }
    }
}


/// The messages that nodes, miners and wallets exchange.
pub enum Message {
    /// Asks for the block at a height.
    FetchBlock(u64),
    /// A block, gossiped or sent in reply.
    NewBlock(Block),
    /// A transaction for the mempool.
    NewTransaction(Transaction),
    /// Asks how many blocks the node has beyond the given height.
    AskDifference(u64),
    /// The signed difference in height.
    Difference(i64),
    /// Asks for a template that pays this key.
    FetchTemplate(PublicKey),
    /// A template to mine.
    Template(Block),
    /// Asks whether a template is still current.
    ValidateTemplate(Block),
    /// Whether the template is still current.
    TemplateValidity(bool),
    /// A mined block.
    SubmitTemplate(Block),
}

pub open spec fn message_tag(m: Message) -> u64 {
    match m {
        Message::FetchBlock(_) => 0,
        Message::NewBlock(_) => 1,
        Message::NewTransaction(_) => 2,
        Message::AskDifference(_) => 3,
        Message::Difference(_) => 4,
        Message::FetchTemplate(_) => 5,
        Message::Template(_) => 6,
        Message::ValidateTemplate(_) => 7,
        Message::TemplateValidity(_) => 8,
        Message::SubmitTemplate(_) => 9,
    }
}

pub open spec fn enc_payload(m: Message) -> Seq<u8> {
    match m {
        Message::FetchBlock(h) => enc_u64(h),
        Message::NewBlock(b) => enc_block(b),
        Message::NewTransaction(t) => enc_transaction(t),
        Message::AskDifference(h) => enc_u64(h),
        Message::Difference(d) => enc_i64(d),
        Message::FetchTemplate(k) => enc_bytes(k.0@),
        Message::Template(b) => enc_block(b),
        Message::ValidateTemplate(b) => enc_block(b),
        Message::TemplateValidity(v) => enc_u64(if v { 1 } else { 0 }),
        Message::SubmitTemplate(b) => enc_block(b),
    }
}

/// A message's canonical encoding: its tag, then its payload.
pub open spec fn enc_message(m: Message) -> Seq<u8> {
    enc_array_head(2) + enc_u64(message_tag(m)) + enc_payload(m)
}

/// Two messages of the same kind that carry the same content.
pub open spec fn same_message(a: Message, b: Message) -> bool {
    match (a, b) {
        (Message::FetchBlock(x), Message::FetchBlock(y)) => x == y,
        (Message::NewBlock(x), Message::NewBlock(y)) => same_block(x, y),
        (Message::NewTransaction(x), Message::NewTransaction(y)) => same_transaction(x, y),
        (Message::AskDifference(x), Message::AskDifference(y)) => x == y,
        (Message::Difference(x), Message::Difference(y)) => x == y,
        (Message::FetchTemplate(x), Message::FetchTemplate(y)) => x == y,
        (Message::Template(x), Message::Template(y)) => same_block(x, y),
        (Message::ValidateTemplate(x), Message::ValidateTemplate(y)) => same_block(x, y),
        (Message::TemplateValidity(x), Message::TemplateValidity(y)) => x == y,
        (Message::SubmitTemplate(x), Message::SubmitTemplate(y)) => same_block(x, y),
        _ => false,
    }
}

/// A frame on the wire: the payload's length as eight bytes, least significant first, then
/// the payload.
pub open spec fn frame_of(payload: Seq<u8>) -> Seq<u8> {
    le_u64(payload.len() as u64) + payload
}

/// The number that eight bytes spell, least significant first.
pub open spec fn le_value(b: Seq<u8>) -> u64 {
    (b[0] as u64) | ((b[1] as u64) << 8u64) | ((b[2] as u64) << 16u64) | ((b[3] as u64) << 24u64) | ((
    b[4] as u64) << 32u64) | ((b[5] as u64) << 40u64) | ((b[6] as u64) << 48u64) | ((b[7] as u64)
        << 56u64)
}

pub proof fn lemma_frame_length_round_trip(n: u64)
    ensures
        le_value(le_u64(n)) == n,
{
    assert(((n as u8) as u64) | ((((n >> 8u64) as u8) as u64) << 8u64) | ((((n >> 16u64) as u8)
        as u64) << 16u64) | ((((n >> 24u64) as u8) as u64) << 24u64) | ((((n >> 32u64) as u8)
        as u64) << 32u64) | ((((n >> 40u64) as u8) as u64) << 40u64) | ((((n >> 48u64) as u8)
        as u64) << 48u64) | ((((n >> 56u64) as u8) as u64) << 56u64) == n) by (bit_vector);
}

/// The payload length that a frame's first eight bytes announce.
pub fn frame_length(prefix: &[u8; 8]) -> (r: u64)
    ensures
        r == le_value(prefix@),
        forall|n: u64| prefix@ == #[trigger] le_u64(n) ==> r == n,
{
    proof {
        assert forall|n: u64| prefix@ == #[trigger] le_u64(n) implies le_value(prefix@) == n by {
            lemma_frame_length_round_trip(n);
        }
    }
    (prefix[0] as u64) | ((prefix[1] as u64) << 8u64) | ((prefix[2] as u64) << 16u64) | ((
    prefix[3] as u64) << 24u64) | ((prefix[4] as u64) << 32u64) | ((prefix[5] as u64) << 40u64)
        | ((prefix[6] as u64) << 48u64) | ((prefix[7] as u64) << 56u64)
}

impl Message {
    /// Appends the canonical encoding.
    pub fn write(&self, out: &mut Vec<u8>)
        ensures
            final(out)@ == old(out)@ + enc_message(*self),
    {
        write_array_head(out, 2);
        let ghost mid = out@;
        match self {
            Message::FetchBlock(h) => {
                write_u64(out, 0);
                write_u64(out, *h);
            },
            Message::NewBlock(b) => {
                write_u64(out, 1);
                b.write(out);
            },
            Message::NewTransaction(t) => {
                write_u64(out, 2);
                t.write(out);
            },
            Message::AskDifference(h) => {
                write_u64(out, 3);
                write_u64(out, *h);
            },
            Message::Difference(d) => {
                write_u64(out, 4);
                write_i64(out, *d);
            },
            Message::FetchTemplate(k) => {
                write_u64(out, 5);
                write_bytes(out, &k.0);
            },
            Message::Template(b) => {
                write_u64(out, 6);
                b.write(out);
            },
            Message::ValidateTemplate(b) => {
                write_u64(out, 7);
                b.write(out);
            },
            Message::TemplateValidity(v) => {
                write_u64(out, 8);
                write_u64(out, if *v { 1 } else { 0 });
            },
            Message::SubmitTemplate(b) => {
                write_u64(out, 9);
                b.write(out);
            },
        }
        assert(final(out)@ =~= old(out)@ + enc_message(*self));
    }

    pub fn encode(&self) -> (r: Vec<u8>)
        ensures
            r@ == enc_message(*self),
    {
        let mut out: Vec<u8> = Vec::new();
        self.write(&mut out);
        assert(out@ =~= enc_message(*self));
        out
    }

    /// The message framed for the wire.
    pub fn to_frame(&self) -> (r: Vec<u8>)
        ensures
            r@ == frame_of(enc_message(*self)),
    {
        let payload = self.encode();
        let n = payload.len() as u64;
        let mut out: Vec<u8> = Vec::new();
        out.push(n as u8);
        out.push((n >> 8u64) as u8);
        out.push((n >> 16u64) as u8);
        out.push((n >> 24u64) as u8);
        out.push((n >> 32u64) as u8);
        out.push((n >> 40u64) as u8);
        out.push((n >> 48u64) as u8);
        out.push((n >> 56u64) as u8);
        let ghost start = out@;
        let mut i: usize = 0;
        while i < payload.len()
            invariant
                i <= payload@.len(),
                out@ == start + payload@.subrange(0, i as int),
            decreases payload@.len() - i,
        {
            out.push(payload[i]);
            i = i + 1;
            assert(out@ =~= start + payload@.subrange(0, i as int));
        }
        assert(payload@.subrange(0, payload@.len() as int) =~= payload@);
        assert(out@ =~= frame_of(enc_message(*self)));
        out
    }

    /// Decodes a message from exactly its canonical encoding (a frame's payload): decoding
    /// what `encode` wrote gives back a message of the same kind with the same content.
    #[verifier::spinoff_prover]
    #[verifier::rlimit(100)]
    pub fn decode(bytes: &[u8]) -> (r: Option<Message>)
        ensures
            forall|m: Message|
                bytes@ == #[trigger] enc_message(m) ==> (r matches Some(m2) && same_message(m2, m)),
    {
        if bytes.len() < 18 {
            return None;
        }
        let ok = match read_array_head(bytes, 0) {
            Some(2) => true,
            _ => false,
        };
        let tag = read_u64(bytes, 9);
        proof {
            assert forall|m: Message| bytes@ == #[trigger] enc_message(m) implies ok && tag == Some(
                message_tag(m),
            ) && starts_with_at(bytes@, 18, enc_payload(m)) && bytes@.len() == 18 + enc_payload(m).len() by {
                let a = enc_array_head(2);
                let x = enc_u64(message_tag(m));
                let y = enc_payload(m);
                assert(bytes@.subrange(0, bytes@.len() as int) =~= bytes@);
                lemma_split(bytes@, 0, a + x, y);
                lemma_split(bytes@, 0, a, x);
            }
        }
        if !ok {
            return None;
        }
        let len = bytes.len();
        match tag {
            Some(0) => match read_u64(bytes, 18) {
                Some(h) => Some(Message::FetchBlock(h)),
                None => None,
            },
            Some(1) => match read_block(bytes, 18) {
                Some((b, end)) => if end == len { Some(Message::NewBlock(b)) } else { None },
                None => None,
            },
            Some(2) => match read_transaction(bytes, 18) {
                Some((t, end)) => if end == len { Some(Message::NewTransaction(t)) } else { None },
                None => None,
            },
            Some(3) => match read_u64(bytes, 18) {
                Some(h) => Some(Message::AskDifference(h)),
                None => None,
            },
            Some(4) => match read_i64(bytes, 18) {
                Some(d) => Some(Message::Difference(d)),
                None => None,
            },
            Some(5) => match read_byte_array::<33>(bytes, 18) {
                Some(k) => Some(Message::FetchTemplate(PublicKey(k))),
                None => None,
            },
            Some(6) => match read_block(bytes, 18) {
                Some((b, end)) => if end == len { Some(Message::Template(b)) } else { None },
                None => None,
            },
            Some(7) => match read_block(bytes, 18) {
                Some((b, end)) => if end == len { Some(Message::ValidateTemplate(b)) } else { None },
                None => None,
            },
            Some(8) => match read_u64(bytes, 18) {
                Some(0) => Some(Message::TemplateValidity(false)),
                Some(1) => Some(Message::TemplateValidity(true)),
                _ => None,
            },
            Some(9) => match read_block(bytes, 18) {
                Some((b, end)) => if end == len { Some(Message::SubmitTemplate(b)) } else { None },
                None => None,
            },
            _ => None,
        }
    }
}

proof fn lemma_chain_layout(b: Seq<u8>, t: U256, s: Seq<Block>)
    requires
        b == enc_chain(t, s),
    ensures
        starts_with_at(b, 0, enc_array_head(2)),
        starts_with_at(b, 9, enc_u256(t)),
        starts_with_at(b, 50, enc_array_head(s.len())),
        starts_with_at(b, 59, enc_blocks(s)),
        s.len() <= b.len(),
        b.len() == 59 + enc_blocks(s).len(),
{
    let a = enc_array_head(2);
    let x = enc_u256(t);
    let y = enc_array_head(s.len());
    let z = enc_blocks(s);
    assert(b.subrange(0, b.len() as int) =~= b);
    lemma_split(b, 0, a + x + y, z);
    lemma_split(b, 0, a + x, y);
    lemma_split(b, 0, a, x);
    lemma_enc_blocks_min(s);
}

/// Reads a stored chain from exactly its encoding: decoding what `Blockchain::encode` wrote
/// gives back the same target and blocks of the same headers and transactions.
#[verifier::spinoff_prover]
#[verifier::rlimit(60)]
pub fn decode_chain(bytes: &[u8]) -> (r: Option<(U256, Vec<Block>)>)
    ensures
        forall|t: U256, s: Seq<Block>|
            bytes@ == #[trigger] enc_chain(t, s) ==> (r matches Some((t2, v)) && t2 == t
                && v@.len() == s.len() && forall|j: int|
                0 <= j < s.len() ==> same_block(#[trigger] v@[j], s[j])),
{
    let blen = bytes.len();
    if blen < 50 {
        return None;
    }
    let ok = match read_array_head(bytes, 0) {
        Some(2) => true,
        _ => false,
    };
    let target = read_u256(bytes, 9);
    let n = read_array_head(bytes, 50);
    proof {
        assert forall|t: U256, s: Seq<Block>| bytes@ == #[trigger] enc_chain(t, s) implies ok
            && target == Some(t) && n == Some(s.len() as u64) && starts_with_at(
            bytes@,
            59,
            enc_blocks(s),
        ) && s.len() <= blen by {
            lemma_chain_layout(bytes@, t, s);
        }
    }
    if !ok {
        return None;
    }
    let (target, n) = match (target, n) {
        (Some(t), Some(n)) => (t, n),
        _ => {
            return None;
        },
    };
    proof {
        assert forall|t: U256, s: Seq<Block>| bytes@ == #[trigger] enc_chain(t, s) implies s.len()
            == n && starts_with_at(bytes@, 59, enc_blocks(s)) by {}
    }
    let (blocks, end) = match read_blocks(bytes, 59, n) {
        Some(x) => x,
        None => {
            return None;
        },
    };
    if end != blen {
        proof {
            assert forall|t: U256, s: Seq<Block>| bytes@ == #[trigger] enc_chain(t, s) implies false by {
                lemma_chain_layout(bytes@, t, s);
            }
        }
        return None;
    }
    Some((target, blocks))
}

} // verus!
