//! Core logic of a sharded permissioned blockchain node built around
//! off-chain transaction execution with on-chain verification through
//! partial Merkle tries.
//!
//! The library covers the partial hexary Patricia trie (read, write, diff,
//! apply and prune), the trie-diff merge used when packing a block, the
//! transaction engine's bookkeeping, the proof-of-work difficulty rules,
//! and the block commit pipeline. Network transport and database plumbing
//! live outside the library.

pub mod commit;
pub mod diff;
pub mod engine;
pub mod hash;
pub mod nibbles;
pub mod pow;
pub mod pubsub;
pub mod trie;
pub mod tx_diff;
