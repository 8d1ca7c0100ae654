//! Identifiers of words.
use vstd::prelude::*;

use crate::dictionary::LexType;

verus! {

/// Identifier of a word: the lexicon that holds it and its id there.
#[derive(Clone, Copy, Debug, PartialEq, Eq, Structural)]
pub struct WordIdx {
    /// The lexicon.
    pub lex_type: LexType,
    /// The id in the lexicon.
    pub word_id: u32,
}

impl Default for WordIdx {
    fn default() -> (r: Self)
        ensures
            r.lex_type == LexType::System,
            r.word_id == u32::MAX,
    {
        Self::new(LexType::System, u32::MAX)
    }
}

impl WordIdx {
    /// Creates a new instance.
    pub fn new(lex_type: LexType, word_id: u32) -> (r: Self)
        ensures
            r.lex_type == lex_type,
            r.word_id == word_id,
    {
        Self { lex_type, word_id }
    }
}

} // verus!
