//! A blockchain built from its parts: canonical hashing, Merkle commitments,
//! proof-of-work, an account ledger and a peer protocol, each stated and proved.
pub mod chain;
pub mod text;
pub mod digest;
pub mod signature;
pub mod entropy;
pub mod clock;
pub mod wallet;
pub mod network;
pub mod cli;

pub use chain::{Block, Blockchain, MerkleTree, Transaction};
pub use wallet::Wallet;
