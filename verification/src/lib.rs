//! An adaptive vocabulary drill: a word catalog, per-word performance
//! records, a score-driven weighted sampler that favors weak words, a
//! retry queue for missed words, and a binary format that persists the
//! records across sessions.

use vstd::prelude::*;

pub mod codec;
pub mod exercise;
pub mod results;
mod rng;
pub mod text;
pub mod training;
pub mod words;

verus! {

} // verus!
