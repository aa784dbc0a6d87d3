//! Offline engine core for a Russian abbreviation input method: recovers
//! full words from consonant-heavy, vowel-omitted shorthand
//! (`првт` → `привет`) and keeps the data the ranking reads.

pub mod text;
pub mod alphabet;
pub mod strmap;
pub mod shortcuts;
pub mod morph;
pub mod mask;
pub mod rank;
pub mod context;
pub mod paradigm;
pub mod history;
pub mod ngram;
pub mod index;
pub mod lexicon;
pub mod tone;
pub mod ffi;
pub mod builder;
pub mod cli;
pub mod tune;
pub mod snapshot;
pub mod strip;
pub mod retrieval;
pub mod lm_builder;
pub mod expand;
