//! Context plumbing: the left context of the word being typed, and the
//! neutral context model. Contextual scorers themselves (n-gram models,
//! rerankers) plug in behind a scoring interface outside this crate.

use vstd::prelude::*;

verus! {

/// Left context of the word being typed.
#[derive(Debug, Clone, Default)]
pub struct Context {
    /// Previous words of the sentence, most recent last, raw user spelling.
    pub previous_words: Vec<String>,
}

impl Context {
    pub fn new(previous_words: Vec<String>) -> (r: Self)
        ensures
            r.previous_words == previous_words,
    {
        Self { previous_words }
    }
}

/// Default model: no contextual signal.
#[derive(Debug, Default, Clone, Copy)]
pub struct NoContext;

} // verus!
