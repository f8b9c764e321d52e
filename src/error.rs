use vstd::prelude::*;

verus! {

/// Failures of the wire codec and of the forwarder.
#[derive(Clone, Copy, Debug, PartialEq, Eq, Structural)]
pub enum DnsError {
    /// A read would go past the end of the buffer.
    BufferTruncated,
    /// A name handed to the text decoder is not a valid label sequence.
    InvalidName,
    /// A name followed more than the allowed number of compression pointers.
    TooManyJumps,
}

impl DnsError {
    /// A short human-readable description of the error.
    pub fn message(&self) -> (r: &'static str) {
        match self {
            DnsError::BufferTruncated => "buffer truncated",
            DnsError::InvalidName => "invalid domain name",
            DnsError::TooManyJumps => "too many compression pointers",
        }
    }
}

} // verus!
