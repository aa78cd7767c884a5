//! Failures of the index operations.
use vstd::prelude::*;
use crate::bignum::BigNat;

verus! {

#[derive(Debug, Clone, PartialEq, Eq)]
pub enum IndexError {
    /// A negative or malformed decimal value.
    InvalidInput,
    /// A character outside the alphabet, at a character position.
    UnknownSymbol { symbol: char, position: usize },
    /// A word that does not fit in the bit depth.
    WordOutOfRange { value: u32, bit_depth: u32 },
    /// The index needs more digits than the requested length.
    OutOfRange { index: BigNat, target_length: u64, base: u64 },
    /// An unknown alphabet identifier or an unsupported bit depth.
    UnsupportedModality,
    /// An instruction of no known shape.
    ParseError,
}

} // verus!
