//! A spelling corrector: a frequency dictionary and a prefix trie are built
//! from a corpus, and misspelled words are corrected by a bounded edit-distance
//! search ranked by observed word frequency.

pub mod checker;
pub mod text;
pub mod trie;
