use vstd::prelude::*;

verus! {

/// The failures a codec operation can report. Decoding is a pure function of
/// the buffer: it either yields a value or one of these kinds, and never
/// panics on malformed input.
#[derive(Clone, Copy, Debug, PartialEq, Eq, Structural)]
pub enum DnsError {
    /// A fixed-size or length-declared field extends past the end of the buffer.
    TruncatedBuffer,
    /// Label bytes are not valid UTF-8 text.
    InvalidEncoding,
    /// A label to encode exceeds the 63-byte length limit.
    InvalidLabel,
    /// A compression pointer targets an offset at or after the name's own
    /// start, which could otherwise cause non-termination.
    CompressionLoop,
}

} // verus!
