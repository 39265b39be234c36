//! A pruning radix trie: an autocomplete index that maps terms to weights and
//! returns the heaviest completions of a prefix.

pub mod completion;
pub mod key;
pub mod laws;
pub mod order;
pub mod records;
pub mod text;
pub mod trie;
