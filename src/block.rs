use vstd::prelude::*;

use crate::encoding::{enc_array_head, enc_u64, write_array_head, write_u64};
use crate::hash::{enc_hash, enc_u256, hash_of, write_hash, write_u256};
use crate::time::{enc_timestamp, write_timestamp, Timestamp};
use crate::transaction::{enc_transaction, tx_hash, Transaction};
use crate::u256::U256;

verus! {

/// The commitment of a block header to the block's transactions.
#[derive(Clone, Copy, Debug, PartialEq, Eq, Structural)]
pub struct MerkleRoot(pub crate::hash::Hash);

pub open spec fn zero_hash() -> crate::hash::Hash {
    crate::hash::Hash(U256 { w0: 0, w1: 0, w2: 0, w3: 0 })
}

/// The hash of two hashes: the hash of the encoding of the pair.
pub open spec fn pair_hash(a: crate::hash::Hash, b: crate::hash::Hash) -> crate::hash::Hash {
    hash_of(enc_array_head(2) + enc_hash(a) + enc_hash(b))
}

/// One level of the tree: neighbours are paired, and a last hash without a partner is paired
/// with itself.
pub open spec fn merkle_level(s: Seq<crate::hash::Hash>) -> Seq<crate::hash::Hash> {
    Seq::new(
        ((s.len() + 1) / 2) as nat,
        |i: int|
            pair_hash(
                s[2 * i],
                if 2 * i + 1 < s.len() {
                    s[2 * i + 1]
                } else {
                    s[2 * i]
                },
            ),
    )
}

/// Reduces a level to a single hash; the empty sequence gives the zero hash.
pub open spec fn merkle_reduce(s: Seq<crate::hash::Hash>) -> crate::hash::Hash
    decreases s.len(),
{
    if s.len() == 0 {
        zero_hash()
    } else if s.len() == 1 {
        s[0]
    } else {
        merkle_reduce(merkle_level(s))
    }
}

pub open spec fn tx_hashes(txs: Seq<Transaction>) -> Seq<crate::hash::Hash> {
    Seq::new(txs.len(), |i: int| tx_hash(txs[i]))
}

pub open spec fn merkle_root_of(txs: Seq<Transaction>) -> MerkleRoot {
    MerkleRoot(merkle_reduce(tx_hashes(txs)))
}

fn hash_pair(a: &crate::hash::Hash, b: &crate::hash::Hash) -> (r: crate::hash::Hash)
    ensures
        r == pair_hash(*a, *b),
{
    let mut out: Vec<u8> = Vec::new();
    write_array_head(&mut out, 2);
    write_hash(&mut out, a);
    write_hash(&mut out, b);
    assert(out@ =~= enc_array_head(2) + enc_hash(*a) + enc_hash(*b));
    crate::hash::Hash::hash(out.as_slice())
}

impl MerkleRoot {
    /// The Merkle root of a sequence of transactions.
    pub fn calculate(transactions: &Vec<Transaction>) -> (r: MerkleRoot)
        ensures
            r == merkle_root_of(transactions@),
    {
        let mut layer: Vec<crate::hash::Hash> = Vec::new();
        let mut i: usize = 0;
        while i < transactions.len()
            invariant
                i <= transactions@.len(),
                layer@ =~= tx_hashes(transactions@).take(i as int),
            decreases transactions@.len() - i,
        {
            let h = transactions[i].hash();
            layer.push(h);
            i = i + 1;
        }
        assert(layer@ =~= tx_hashes(transactions@));
        if layer.len() == 0 {
            return MerkleRoot(crate::hash::Hash::zero());
        }
        while layer.len() > 1
            invariant
                layer@.len() >= 1,
                merkle_reduce(layer@) == merkle_reduce(tx_hashes(transactions@)),
            decreases layer@.len(),
        {
            let n = layer.len();
            let pairs = n / 2 + n % 2;
            let mut next: Vec<crate::hash::Hash> = Vec::new();
            let mut k: usize = 0;
            while k < pairs
                invariant
                    n == layer@.len(),
                    n > 1,
                    pairs == (n + 1) / 2,
                    k <= pairs,
                    next@ =~= merkle_level(layer@).take(k as int),
                decreases pairs - k,
            {
                let left = layer[2 * k];
                let right = if 2 * k + 1 < n {
                    layer[2 * k + 1]
                } else {
                    left
                };
                let h = hash_pair(&left, &right);
                next.push(h);
                k = k + 1;
            }
            assert(next@ =~= merkle_level(layer@));
            layer = next;
        }
        MerkleRoot(layer[0])
    }
}

/// What a miner varies and what the proof of work is checked against.
#[derive(Clone, Copy, Debug, PartialEq, Eq, Structural)]
pub struct BlockHeader {
    pub timestamp: Timestamp,
    pub nonce: u64,
    pub prev_block_hash: crate::hash::Hash,
    /// The transactions aggregated into a single hash.
    pub merkle_root: MerkleRoot,
    /// The proof of work asks that the header's hash be at most this.
    pub target: U256,
}

pub open spec fn enc_header(h: BlockHeader) -> Seq<u8> {
    enc_array_head(5) + enc_timestamp(h.timestamp) + enc_u64(h.nonce) + enc_hash(h.prev_block_hash)
        + enc_hash(h.merkle_root.0) + enc_u256(h.target)
}

pub open spec fn header_hash(h: BlockHeader) -> crate::hash::Hash {
    hash_of(enc_header(h))
}

/// Whether the header's hash meets its own target.
pub open spec fn meets_target(h: BlockHeader) -> bool {
    header_hash(h).0.value() <= h.target.value()
}

impl BlockHeader {
    pub fn new(
        timestamp: Timestamp,
        nonce: u64,
        prev_block_hash: crate::hash::Hash,
        merkle_root: MerkleRoot,
        target: U256,
    ) -> (r: BlockHeader)
        ensures
            r == (BlockHeader { timestamp, nonce, prev_block_hash, merkle_root, target }),
    {
        BlockHeader { timestamp, nonce, prev_block_hash, merkle_root, target }
    }

    pub fn write(&self, out: &mut Vec<u8>)
        ensures
            final(out)@ == old(out)@ + enc_header(*self),
    {
        write_array_head(out, 5);
        write_timestamp(out, &self.timestamp);
        write_u64(out, self.nonce);
        write_hash(out, &self.prev_block_hash);
        write_hash(out, &self.merkle_root.0);
        write_u256(out, &self.target);
        assert(final(out)@ =~= old(out)@ + enc_header(*self));
    }

    pub fn hash(&self) -> (r: crate::hash::Hash)
        ensures
            r == header_hash(*self),
    {
        let mut out: Vec<u8> = Vec::new();
        self.write(&mut out);
        assert(out@ =~= enc_header(*self));
        crate::hash::Hash::hash(out.as_slice())
    }

    /// Searches for a nonce that meets the target, trying at most `steps` more nonces in
    /// increasing order. When the nonce wraps around, it restarts at zero and the timestamp is
    /// set to the present time. Returns whether the header now meets its target; only the
    /// nonce and the timestamp ever change, and every nonce passed over failed.
    #[verifier::spinoff_prover]
    pub fn mine(&mut self, steps: usize) -> (r: bool)
        ensures
            r == meets_target(*final(self)),
            final(self).prev_block_hash == old(self).prev_block_hash,
            final(self).merkle_root == old(self).merkle_root,
            final(self).target == old(self).target,
            mine_outcome(*old(self), *final(self), steps as int, r),
    {
        let ghost start = *self;
        if self.hash().matches_target(self.target) {
            proof {
                lemma_mine_outcome(start, *self, 0, steps as int, true);
            }
            return true;
        }
        proof {
            assert(with_nonce(start, start.nonce) == start);
        }
        let mut i: usize = 0;
        while i < steps
            invariant
                i <= steps,
                start == *old(self),
                self.prev_block_hash == start.prev_block_hash,
                self.merkle_root == start.merkle_root,
                self.target == start.target,
                !meets_target(*self),
                mine_record(start, *self, i as int),
                start.nonce + i <= u64::MAX ==> forall|n: u64|
                    start.nonce <= n <= self.nonce ==> !meets_target(#[trigger] with_nonce(start, n)),
                start.nonce + i > u64::MAX ==> forall|n: u64|
                    n <= self.nonce ==> !meets_target(#[trigger] with_nonce(*self, n)),
            decreases steps - i,
        {
            let ghost before = *self;
            match self.nonce.checked_add(1) {
                Some(n) => {
                    self.nonce = n;
                },
                None => {
                    self.nonce = 0;
                    self.timestamp = Timestamp::now();
                },
            }
            proof {
                assert(with_nonce(*self, self.nonce) == *self);
                lemma_mine_step(start, before, *self, i as int);
            }
            if self.hash().matches_target(self.target) {
                proof {
                    lemma_mine_outcome(start, *self, i as int + 1, steps as int, true);
                }
                return true;
            }
            proof {
                lemma_mine_continue(start, *self, i as int + 1);
            }
            i = i + 1;
        }
        proof {
            lemma_mine_outcome(start, *self, i as int, steps as int, false);
        }
        false
    }
}

/// What a search of `steps` nonces from `start` that ended at `end` with result `r` did:
/// without a wrap the timestamp is kept, the nonces tried lie in order from the start, all
/// those before the end failed, and a failed search ends `steps` further on; with a wrap,
/// either the search succeeded before it, or every nonce from the start up failed and the
/// nonces from zero under the new timestamp failed up to the end.
pub open spec fn mine_outcome(start: BlockHeader, end: BlockHeader, steps: int, r: bool) -> bool {
    &&& start.nonce + steps <= u64::MAX ==> {
        &&& end.timestamp == start.timestamp
        &&& start.nonce <= end.nonce <= start.nonce + steps
        &&& forall|n: u64|
            start.nonce <= n < end.nonce ==> !meets_target(#[trigger] with_nonce(start, n))
        &&& !r ==> end.nonce == start.nonce + steps
    }
    &&& start.nonce + steps > u64::MAX ==> {
        ||| {
            &&& end.timestamp == start.timestamp
            &&& start.nonce <= end.nonce
            &&& forall|n: u64|
                start.nonce <= n < end.nonce ==> !meets_target(#[trigger] with_nonce(start, n))
            &&& r
        }
        ||| {
            &&& end.nonce <= start.nonce + steps - nonce_range()
            &&& forall|n: u64| start.nonce <= n ==> !meets_target(#[trigger] with_nonce(start, n))
            &&& forall|n: u64| n < end.nonce ==> !meets_target(#[trigger] with_nonce(end, n))
            &&& !r ==> end.nonce == start.nonce + steps - nonce_range()
        }
    }
}

proof fn lemma_mine_outcome(start: BlockHeader, end: BlockHeader, i: int, steps: int, r: bool)
    requires
        0 <= i <= steps,
        mine_record(start, end, i),
        !r ==> i == steps,
    ensures
        mine_outcome(start, end, steps, r),
{
}

/// What one more nonce tried adds to the record of the search: every nonce before the
/// current one failed.
pub open spec fn mine_record(start: BlockHeader, cur: BlockHeader, i: int) -> bool {
    &&& cur.prev_block_hash == start.prev_block_hash
    &&& cur.merkle_root == start.merkle_root
    &&& cur.target == start.target
    &&& start.nonce + i <= u64::MAX ==> {
        &&& cur.timestamp == start.timestamp
        &&& cur.nonce == start.nonce + i
        &&& forall|n: u64|
            start.nonce <= n < cur.nonce ==> !meets_target(#[trigger] with_nonce(start, n))
    }
    &&& start.nonce + i > u64::MAX ==> {
        &&& cur.nonce == start.nonce + i - nonce_range()
        &&& forall|n: u64| start.nonce <= n ==> !meets_target(#[trigger] with_nonce(start, n))
        &&& forall|n: u64| n < cur.nonce ==> !meets_target(#[trigger] with_nonce(cur, n))
    }
}

proof fn lemma_mine_step(start: BlockHeader, before: BlockHeader, cur: BlockHeader, i: int)
    requires
        0 <= i,
        i < u64::MAX,
        !meets_target(before),
        mine_record(start, before, i),
        start.nonce + i <= u64::MAX ==> forall|n: u64|
            start.nonce <= n <= before.nonce ==> !meets_target(#[trigger] with_nonce(start, n)),
        start.nonce + i > u64::MAX ==> forall|n: u64|
            n <= before.nonce ==> !meets_target(#[trigger] with_nonce(before, n)),
        before.nonce < u64::MAX ==> cur == with_nonce(before, (before.nonce + 1) as u64),
        before.nonce == u64::MAX ==> cur.nonce == 0 && cur.prev_block_hash == before.prev_block_hash
            && cur.merkle_root == before.merkle_root && cur.target == before.target,
    ensures
        mine_record(start, cur, i + 1),
{
    if start.nonce + i > u64::MAX {
        assert forall|n: u64| n < cur.nonce implies !meets_target(#[trigger] with_nonce(cur, n)) by {
            assert(with_nonce(cur, n) == with_nonce(before, n));
        }
    } else if start.nonce + i == u64::MAX {
        assert(before.nonce == u64::MAX);
    }
}

proof fn lemma_mine_continue(start: BlockHeader, cur: BlockHeader, i: int)
    requires
        mine_record(start, cur, i),
        !meets_target(cur),
    ensures
        start.nonce + i <= u64::MAX ==> forall|n: u64|
            start.nonce <= n <= cur.nonce ==> !meets_target(#[trigger] with_nonce(start, n)),
        start.nonce + i > u64::MAX ==> forall|n: u64|
            n <= cur.nonce ==> !meets_target(#[trigger] with_nonce(cur, n)),
{
    assert(with_nonce(cur, cur.nonce) == cur);
    if start.nonce + i <= u64::MAX {
        assert(with_nonce(start, cur.nonce) == cur);
    }
}

/// The number of distinct nonces.
pub open spec fn nonce_range() -> int {
    u64::MAX as int + 1
}

/// The header with another nonce.
pub open spec fn with_nonce(h: BlockHeader, n: u64) -> BlockHeader {
    BlockHeader {
        timestamp: h.timestamp,
        nonce: n,
        prev_block_hash: h.prev_block_hash,
        merkle_root: h.merkle_root,
        target: h.target,
    }
}

/// A header and the transactions that it commits to; the first transaction is the coinbase.
#[derive(Debug)]
pub struct Block {
    pub header: BlockHeader,
    pub transactions: Vec<Transaction>,
}

pub open spec fn enc_transactions(s: Seq<Transaction>) -> Seq<u8>
    decreases s.len(),
{
    if s.len() == 0 {
        seq![]
    } else {
        enc_transactions(s.drop_last()) + enc_transaction(s.last())
    }
}

pub open spec fn enc_block(b: Block) -> Seq<u8> {
    enc_array_head(2) + enc_header(b.header) + enc_array_head(b.transactions@.len())
        + enc_transactions(b.transactions@)
}

pub open spec fn block_hash(b: Block) -> crate::hash::Hash {
    hash_of(enc_block(b))
}

/// Two transactions with the same inputs and outputs.
pub open spec fn same_transaction(a: Transaction, b: Transaction) -> bool {
    a.inputs@ == b.inputs@ && a.outputs@ == b.outputs@
}

impl Clone for Block {
    fn clone(&self) -> (r: Self)
        ensures
            r.header == self.header,
            r.transactions@.len() == self.transactions@.len(),
            forall|i: int|
                0 <= i < self.transactions@.len() ==> same_transaction(
                    #[trigger] r.transactions@[i],
                    self.transactions@[i],
                ),
    {
        let mut transactions: Vec<Transaction> = Vec::new();
        let mut i: usize = 0;
        while i < self.transactions.len()
            invariant
                i <= self.transactions@.len(),
                transactions@.len() == i,
                forall|j: int|
                    0 <= j < i ==> same_transaction(
                        #[trigger] transactions@[j],
                        self.transactions@[j],
                    ),
            decreases self.transactions@.len() - i,
        {
            transactions.push(self.transactions[i].clone());
            i = i + 1;
        }
        Block { header: self.header, transactions }
    }
}

impl Block {
    pub fn new(header: BlockHeader, transactions: Vec<Transaction>) -> (r: Block)
        ensures
            r.header == header,
            r.transactions@ == transactions@,
    {
        Block { header, transactions }
    }

    pub fn write(&self, out: &mut Vec<u8>)
        ensures
            final(out)@ == old(out)@ + enc_block(*self),
    {
        write_array_head(out, 2);
        self.header.write(out);
        write_array_head(out, self.transactions.len());
        let ghost start = out@;
        let mut i: usize = 0;
        while i < self.transactions.len()
            invariant
                i <= self.transactions@.len(),
                out@ == start + enc_transactions(self.transactions@.take(i as int)),
            decreases self.transactions@.len() - i,
        {
            self.transactions[i].write(out);
            proof {
                assert(self.transactions@.take(i + 1).drop_last() =~= self.transactions@.take(
                    i as int,
                ));
            }
            i = i + 1;
            assert(out@ =~= start + enc_transactions(self.transactions@.take(i as int)));
        }
        assert(self.transactions@.take(i as int) =~= self.transactions@);
        assert(final(out)@ =~= old(out)@ + enc_block(*self));
    }

    /// The canonical encoding.
    pub fn encode(&self) -> (r: Vec<u8>)
        ensures
            r@ == enc_block(*self),
    {
        let mut out: Vec<u8> = Vec::new();
        self.write(&mut out);
        assert(out@ =~= enc_block(*self));
        out
    }

    pub fn hash(&self) -> (r: crate::hash::Hash)
        ensures
            r == block_hash(*self),
    {
        let out = self.encode();
        crate::hash::Hash::hash(out.as_slice())
    }
}

pub open spec fn enc_blocks(s: Seq<Block>) -> Seq<u8>
    decreases s.len(),
{
    if s.len() == 0 {
        seq![]
    } else {
        enc_blocks(s.drop_last()) + enc_block(s.last())
    }
}

/// Appends the canonical encodings of the blocks, one after another.
pub fn write_blocks(out: &mut Vec<u8>, blocks: &Vec<Block>)
    ensures
        final(out)@ == old(out)@ + enc_blocks(blocks@),
{
    let ghost start = out@;
    let mut i: usize = 0;
    while i < blocks.len()
        invariant
            i <= blocks@.len(),
            start == old(out)@,
            out@ == start + enc_blocks(blocks@.take(i as int)),
        decreases blocks@.len() - i,
    {
        blocks[i].write(out);
        proof {
            assert(blocks@.take(i + 1).drop_last() =~= blocks@.take(i as int));
        }
        i = i + 1;
        assert(out@ =~= start + enc_blocks(blocks@.take(i as int)));
    }
    assert(blocks@.take(i as int) =~= blocks@);
}

} // verus!
