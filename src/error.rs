use vstd::prelude::*;

verus! {

/// The ways an operation on the instrument can fail.
#[derive(Clone, Copy, Debug, PartialEq, Eq, Structural)]
pub enum ScopeError {
    /// The transport could not be established.
    Connection,
    /// A read or write failed, or the stream ended too early.
    Io,
    /// A block header was malformed.
    Format,
    /// A block payload is not a valid image in the expected format.
    Decode,
}

} // verus!
