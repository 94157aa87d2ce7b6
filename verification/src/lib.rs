//! Persistent state backend for an EVM-compatible ledger: a versioned,
//! content-addressed Merkle trie over a column-oriented key-value store,
//! with a state-commit protocol, reference-counting garbage collection,
//! and an offline mark-and-sweep cleaner.

pub mod account;
pub mod bytes;
pub mod cleaner;
pub mod decoder;
pub mod error;
pub mod hashing;
pub mod kv;
pub mod laws;
pub mod storage;
pub mod trie;
