use vstd::prelude::*;

verus! {

/// What can go wrong while reading or writing one message.
#[derive(Debug, Clone, Copy, PartialEq, Eq, Structural)]
pub enum DnsError {
    /// An access at or past the end of the 512-byte buffer.
    OutOfBounds,
    /// Name decompression followed more than five compression pointers.
    JumpsExceed,
    /// A label of a name to encode is longer than 63 bytes.
    LabelLengthExceed,
}

} // verus!
