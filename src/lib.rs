//! Dispersion statistics of tagged lexical items over a corpus of documents.
//!
//! `table` builds the frequency table in a first pass over the documents and
//! freezes it; `word_analyzer` is the engine for one item, with the exact
//! metrics and the degenerate-case rule of every metric; `corpus_pipeline`
//! runs the first pass over tagged documents; `laws` states what holds across
//! calls.
pub mod corpus_pipeline;
pub mod laws;
pub mod table;
pub mod word_analyzer;
