//! A prefix-searchable, relevance-ranked index over a fixed corpus of text
//! documents.
//!
//! The library covers the exact, integer part of the pipeline: normalising and
//! counting words, corpus-wide document frequencies, the inverted index of
//! score-ordered posting lists behind a trie of terms, and the prefix query
//! with its ranking rule. Scores enter the library as 64-bit keys whose integer
//! order is the order of the scores.

pub mod corpus;
pub mod index;
pub mod postings;
pub mod score;
pub mod search;
pub mod tally;
pub mod text;
pub mod trie;
