//! An incremental term/document index with TF-IDF scoring.
//!
//! The engine stores documents as already-tokenized word sequences, keeps a
//! distinct-word list whose positions are permanent term indices, maintains a
//! per-word posting set of the document ids currently containing that word,
//! and computes term-frequency and inverse-document-frequency weights as
//! exact rationals.

pub mod doc;
pub mod doc_map;
pub mod engine;
pub mod errors;
pub mod laws;
pub mod posting;
pub mod ratio;
pub mod seqs;
pub mod store;
pub mod word;
