//! Errors of decoding and encoding.

use vstd::prelude::*;

verus! {

/// Why a decode or an encode failed.
#[derive(Debug, PartialEq, Eq, Structural)]
pub enum VdfrError {
    /// A type tag that names no value shape.
    InvalidType(u8),
    /// A catalog version tag that is not recognized.
    UnknownMagic(u32),
    /// A key index (first) past the end of a string pool of the given size (second).
    InvalidStringIndex(usize, usize),
    /// The input ended before the value being read.
    UnexpectedEof,
    /// A wide string holding an unpaired surrogate.
    InvalidUtf16,
    /// Nodes nested deeper than the configured ceiling.
    TooDeep,
    /// More distinct keys than a 32-bit index can address.
    PoolTooLarge(usize),
}

} // verus!
