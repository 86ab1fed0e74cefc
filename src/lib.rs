//! A character-level trie whose nodes live in one append-only arena and refer
//! to their children by index.

pub mod laws;
pub mod trie;
