pub mod block;
pub mod blockchain;
pub mod crypto;
pub mod decoding;
pub mod encoding;
pub mod error;
pub mod hash;
pub mod ledger;
pub mod miner;
pub mod network;
pub mod time;
pub mod transaction;
pub mod u256;
pub mod utxo;
pub mod validation;
