//! A binary codec for a self-describing tag-length-value format.
//!
//! A value is a tree of items of eight major categories. Each item is
//! written as a one-byte header (3-bit major type and 5-bit descriptor),
//! an optional big-endian additional value, and a payload. The encoder and
//! the decoder carry an explicit depth counter and refuse trees nested
//! deeper than [`codec::RECURSION_LIMIT`].
use vstd::prelude::*;

pub mod header;
pub mod value;
pub mod codec;
pub mod round_trip;
pub mod single;

verus! {

/// Failure of an encode or a decode call.
#[derive(Clone, Copy, Debug, PartialEq, Eq, Structural)]
pub enum Error {
    /// The source ended before a complete item could be read.
    IoError,
    /// Malformed or unsupported encoding, or nesting beyond the recursion limit.
    FailCbor,
    /// A numeric conversion or a simple-value conversion that does not fit.
    FailConvert,
    /// A value that cannot stand as a map key.
    FailKey,
    /// A state that no input reaches.
    Fatal,
}

} // verus!
