//! An in-memory ordered key-value map indexed by byte sequences: a plain
//! byte-branching trie with point insert, exact lookup, and full or
//! prefix-restricted collection of its entries in lexicographic key order.
//!
//! Removal is modeled as value-clearing (a tombstone: the empty value),
//! so nodes are never deleted; `clear` discards the whole structure.

mod node;
mod order;
mod trie;

pub use node::entries_view;
pub use order::is_prefix_of;
pub use order::lex_lt;
pub use trie::key_views;
pub use trie::lemma_insert_get;
pub use trie::lemma_insert_idempotent;
pub use trie::lemma_new_key_count;
pub use trie::TrieHard;
