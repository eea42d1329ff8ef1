use vstd::prelude::*;

verus! {

/// The ways in which decoding a stream can fail. None of them can be recovered from.
#[derive(Debug, Clone, Copy, PartialEq, Eq, Structural)]
pub enum DecodeFailed {
    /// Fewer bits or bytes remain than the next step needs.
    InputExhausted,
    /// No Huffman code matches the input, or a code-length array is over-subscribed.
    InvalidCode,
    /// A block header names a block type that does not exist.
    InvalidBlockType,
    /// A match refers to bytes that were never produced or lie outside the window.
    InvalidOffset,
    /// A run in a code-length array goes past the end of the array, the symbol that gives the
    /// length of a repeated run is not a length, or a match is longer than what is left of
    /// its block.
    InvalidLength,
}

} // verus!
