//! The ways an operation of the codec can fail.
use vstd::prelude::*;

verus! {

/// Why a build, a compression, a decompression or a load failed.
#[derive(Clone, Copy, Debug, PartialEq, Eq, Structural)]
pub enum HuffmanError {
    /// The input holds no byte, so there is no symbol to build a tree from.
    EmptyInput,
    /// A byte to compress has no code in the table.
    UnrepresentableSymbol,
    /// A byte image is short, inconsistent, or does not describe a tree.
    CorruptStream,
    /// The bits end before the last expected symbol is complete.
    TruncatedDecode,
}

} // verus!
