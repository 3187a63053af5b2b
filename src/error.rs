use vstd::prelude::*;

verus! {

/// Why encoding or decoding a message failed.
#[derive(Clone, Copy, Debug, PartialEq, Eq, Structural)]
pub enum CodecError {
    /// The buffer ended before a field that was expected.
    Truncated,
    /// A jump target lies outside the buffer.
    OutOfRange,
    /// A chain of compression pointers went deeper than allowed.
    TooManyPointers,
    /// The bytes of a label are not valid UTF-8 text.
    InvalidLabel,
    /// A label to encode is longer than 63 bytes.
    LabelTooLong,
}

} // verus!
