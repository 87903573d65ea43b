//! Core blockchain components
//!
//! - Transactions: transfer of value between addresses
//! - Blocks: containers for transactions with proof-of-work
//! - Merkle trees: efficient verification of transaction integrity
//! - Blockchain: the chain of blocks with validation logic
//! - Canonical encoding: the one unambiguous preimage everything above hashes
pub mod block;
pub mod blockchain;
pub mod hashing;
pub mod ledger;
pub mod merkle;
pub mod time;
pub mod transaction;

pub use block::Block;
pub use blockchain::Blockchain;
pub use merkle::MerkleTree;
pub use transaction::Transaction;
