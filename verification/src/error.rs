use vstd::prelude::*;

verus! {

/// The ways in which compressing or restoring a text can fail.
#[derive(Debug, Clone, Copy, PartialEq, Eq, Structural)]
pub enum CodecError {
    /// The text to compress holds no symbol.
    EmptyInput,
    /// A symbol of the text has no code in the table.
    UnknownSymbol,
    /// The bit stream of the text is longer than a bit buffer can hold.
    InputTooLarge,
    /// The artifact contradicts itself: it claims more bits than its bytes
    /// hold, two symbols share a code, or bits come with an empty table.
    MalformedArtifact,
    /// The bit stream ends in the middle of a code.
    TruncatedStream,
    /// The bits read since the last symbol are longer than every code.
    UnknownCode,
}

} // verus!
