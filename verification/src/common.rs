//! Common settings.
use vstd::prelude::*;

verus! {

/// The maximum length of an input sentence in characters.
pub const MAX_SENTENCE_LENGTH: u16 = 0xFFFF;

/// The fixed connection id of BOS/EOS.
pub const BOS_EOS_CONNECTION_ID: u16 = 0;

} // verus!
