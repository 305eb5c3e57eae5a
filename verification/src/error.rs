use vstd::prelude::*;

verus! {

/// Everything that can go wrong while building a tokenizer or using it.
#[derive(Clone, Copy, Debug, PartialEq, Eq, Structural)]
pub enum Error {
    /// The raw vocabulary data is unusable: a token key is not valid
    /// base64, a token decodes to zero bytes, an id repeats (or collides
    /// with a reserved special id), an id is too large to index a dense
    /// table, or a score lies outside the representable range.
    ModelFormatError,
    /// The match automaton could not be constructed over the vocabulary.
    PatternBuildError,
    /// Some prefix of the input has no segmentation into vocabulary
    /// tokens, so the backtrace cannot reach the start of the span.
    UnsegmentableInputError,
    /// An id passed to decode lies outside the loaded vocabulary.
    UnknownTokenIdError,
    /// A matched span was reported for a token the vocabulary does not
    /// hold; this indicates a broken invariant, not bad input.
    InconsistentVocabularyError,
}

impl Error {
    /// A short human-readable name for the error.
    pub fn describe(&self) -> (r: &'static str)
        ensures
            r@.len() > 0,
    {
        proof {
            reveal_strlit("malformed model data");
            reveal_strlit("automaton build failure");
            reveal_strlit("input has no segmentation");
            reveal_strlit("unknown token id");
            reveal_strlit("vocabulary inconsistency");
        }
        match self {
            Error::ModelFormatError => "malformed model data",
            Error::PatternBuildError => "automaton build failure",
            Error::UnsegmentableInputError => "input has no segmentation",
            Error::UnknownTokenIdError => "unknown token id",
            Error::InconsistentVocabularyError => "vocabulary inconsistency",
        }
    }
}

} // verus!
