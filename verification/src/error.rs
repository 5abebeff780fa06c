//! The error kinds that encoding, decoding and loading can report.

use vstd::prelude::*;

verus! {

/// Mathematical image of a [`TokenizerError`]: the same kinds, with the
/// payloads abstracted to sequences. Contracts speak of this type.
pub enum ErrSpec {
    /// A character of the input was never seen during training.
    CharacterNotFound(Seq<char>),
    /// A token id handed to `decode` is outside the vocabulary.
    TokenIdNotFound(int),
    /// An allowed special token was never registered in the vocabulary.
    SpecialTokenNotFound(Seq<char>),
    /// Special-shaped substrings found that the caller did not allow.
    DisallowedSpecialTokens(Seq<Seq<char>>),
    /// A pair-selection mode outside the recognized set.
    InvalidMode,
    /// A persisted artifact could not be parsed.
    SerializationError,
}

/// Every failure of the tokenizer, as a tagged value the caller can
/// distinguish programmatically.
#[derive(Debug, Clone, PartialEq)]
pub enum TokenizerError {
    /// Characters of the input that were never seen during training.
    CharacterNotFound(Vec<char>),
    /// A token id handed to `decode` that is outside the vocabulary.
    TokenIdNotFound(usize),
    /// An allowed special token that was never registered in the vocabulary.
    SpecialTokenNotFound(String),
    /// Special-shaped substrings found that the caller did not allow.
    DisallowedSpecialTokens(Vec<String>),
    /// A pair-selection mode outside the recognized set.
    InvalidMode,
    /// A persisted artifact could not be parsed; carries a short description.
    SerializationError(String),
}

impl View for TokenizerError {
    type V = ErrSpec;

    open spec fn view(&self) -> ErrSpec {
        match self {
            TokenizerError::CharacterNotFound(cs) => ErrSpec::CharacterNotFound(cs@),
            TokenizerError::TokenIdNotFound(id) => ErrSpec::TokenIdNotFound(*id as int),
            TokenizerError::SpecialTokenNotFound(s) => ErrSpec::SpecialTokenNotFound(s@),
            TokenizerError::DisallowedSpecialTokens(ts) => ErrSpec::DisallowedSpecialTokens(
                ts.deep_view(),
            ),
            TokenizerError::InvalidMode => ErrSpec::InvalidMode,
            TokenizerError::SerializationError(_) => ErrSpec::SerializationError,
        }
    }
}

} // verus!
