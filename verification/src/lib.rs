//! A small full-text search library for mixed Persian/Latin/numeric text:
//! normalization and tokenization, a positional inverted index with a
//! byte-level persistence codec, AND-gated candidate retrieval with
//! per-document scoring features, and Damerau-Levenshtein spelling
//! suggestion candidates.

pub mod codec;
pub mod indexer;
pub mod laws;
pub mod normalize;
pub mod search;
pub mod unicode;
