//! A key-hashing adapter over a digest-keyed trie.
//!
//! Callers address values by arbitrary byte keys; the trie underneath is keyed
//! by the Keccak-256 digest of each key. The adapter records, in the backing
//! store, which key produced each digest, so that iteration can hand back the
//! original keys.

pub mod backing;
pub mod order;
pub mod trie;
pub mod fatdb;
pub mod laws;

pub use backing::MemoryStore;
pub use fatdb::{FatDB, FatDBIterator, TrieDB, TrieError};
pub use trie::DigestTrie;


