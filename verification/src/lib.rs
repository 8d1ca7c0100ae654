//! Vibrato: a tokenizer (morphological analyzer) based on the Viterbi algorithm,
//! with its dictionary formats, connection-cost matrices and lattice search
//! specified and verified.
use vstd::prelude::*;

pub mod common;
pub mod num;
pub mod errors;
pub mod utils;
pub mod dictionary;
pub mod sentence;
pub mod token;
pub mod tokenizer;
pub mod trainer;

verus! {

} // verus!
