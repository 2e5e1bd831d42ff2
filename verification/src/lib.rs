//! Full-text indexing and edit distance over byte sequences.
//!
//! A text that ends in a sentinel is indexed by its suffix array, its
//! Burrows-Wheeler transform and two rank tables; together they answer
//! substring queries by backward search. An independent module computes the
//! Levenshtein distance of two sequences, exactly or up to a bound.
//!
//! The modules, leaves first:
//!
//! - `error`: why a construction step refuses its input;
//! - `alphabet`: sets of byte symbols with a dense numbering;
//! - `text`: valid texts, the order of suffixes, suffix arrays;
//! - `counts`: counting symbols in a prefix of a sequence;
//! - `bwt`: the transform of a text;
//! - `less`, `occ`: the two rank tables over a transformed text;
//! - `interval`: intervals of suffix-array rows and search results;
//! - `fmindex`: the index, its construction and backward search;
//! - `rows`, `lf`, `matching`: why backward search finds what it finds;
//! - `distance`: Levenshtein distance, exact and bounded;
//! - `edits`: why the distance is the least number of edits.

pub mod alphabet;
pub mod bwt;
pub mod counts;
pub mod distance;
pub mod edits;
pub mod error;
pub mod fmindex;
pub mod interval;
pub mod less;
pub mod lf;
pub mod matching;
pub mod occ;
pub mod rows;
pub mod text;
