//! A burst trie: an in-memory map keyed by arbitrary byte strings.
//!
//! Long unbranching runs of the key space are compressed into single
//! `PrefixNode`s; wherever two keys diverge, a byte-indexed `TrieNode`
//! dispatches on the next byte. Inserting a key that diverges inside a
//! compressed run "bursts" the run into a branching node.

mod node;
mod node_lemmas;
mod counting;
mod ops;
mod trie_map;
mod laws;

pub use trie_map::TrieMap;
pub use trie_map::map_of_entries;
pub use trie_map::entries_view;
pub use laws::distinct_keys;
pub use laws::lemma_insert_then_get;
pub use laws::lemma_never_inserted_absent;
pub use laws::lemma_last_entry_wins;
pub use laws::lemma_insert_preserves_other_keys;
pub use laws::lemma_insert_commutes;
pub use laws::lemma_insertion_order_irrelevant;
