//! A byte-pair-encoding (BPE) tokenizer: it learns a fixed-size subword
//! vocabulary from a training corpus, then reversibly maps text to a sequence
//! of integer token ids and back.
//!
//! Token ids are dense: id `i` names the `i`-th vocabulary entry, so the
//! vocabulary is a vector of token strings (as character vectors) and the
//! merge table is a vector of [`tokenizer::Merge`] records.

pub mod decode;
pub mod encode;
pub mod error;
pub mod laws;
pub mod model;
pub mod pairs;
pub mod persist;
pub mod segment;
pub mod tokenizer;

pub use crate::error::TokenizerError;
pub use crate::tokenizer::BPETokenizer;
pub use crate::tokenizer::Merge;
