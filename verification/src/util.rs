//! The byte alphabet.

use vstd::prelude::*;

verus! {

/// The symbols of a key.
pub type CharType = u8;

/// Number of symbols in the alphabet, and the size of the blocks by which a
/// double array grows.
pub const CHAR_SIZE: usize = 256;

} // verus!
