//! A prefix-tree word index with ranked-prefix autocompletion, and a
//! Boggle-style board search that uses the index to prune its exploration.

pub mod boggle;
pub mod trie;
pub mod tries;
