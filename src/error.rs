//! Failures of decoding.
use vstd::prelude::*;

verus! {

/// Why stored bytes could not be turned back into a term.
#[derive(PartialEq, Eq, Structural, Clone, Copy, Debug)]
pub enum DecodeError {
    /// An unknown tag, a short buffer or a malformed inline string.
    CorruptData,
    /// A hash that the dictionary does not hold.
    DanglingHash,
    /// A native value whose lexical form this library does not write.
    NoLexicalForm,
}

} // verus!
