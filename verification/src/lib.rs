pub mod bits;
pub mod builder;
pub mod codec;
pub mod reader;
pub mod tree;
pub mod writer;

use vstd::prelude::*;

verus! {

/// Errors reported by the streaming encoder and decoder.
///
/// Both are recoverable: after a failed call the writer or reader is still
/// usable, and no partial progress from the failed call is retained.
#[derive(Clone, Copy, Debug, PartialEq, Eq, Structural)]
pub enum HuffError {
    /// `write` was given a symbol that no leaf of the tree holds.
    UnencodableSymbol,
    /// `read` needed another bit but the source was exhausted.
    UnexpectedEndOfInput,
}

} // verus!
