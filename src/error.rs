use vstd::prelude::*;

verus! {

/// Why the chain engine refused a block or a transaction.
#[derive(Clone, Copy, Debug, PartialEq, Eq, Structural)]
pub enum BtcError {
    /// Broken linkage, proof of work, timestamp order or genesis rule.
    InvalidBlock,
    /// The header's Merkle root is not that of the block's transactions.
    InvalidMerkleRoot,
    /// A missing or doubly spent output, a broken coinbase rule, or too little input value.
    InvalidTransaction,
    /// A signature that does not verify under the spent output's key.
    InvalidSignature,
}

} // verus!
