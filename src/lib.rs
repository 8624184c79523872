//! A prefix tree over sequences of small copyable symbols, recording which
//! sequences were inserted and answering prefix lookups.
pub mod trie;

pub use trie::Trie;
