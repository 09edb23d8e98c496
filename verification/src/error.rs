//! Error taxonomy for the container format.
use vstd::prelude::*;

verus! {

/// Everything that can go wrong while building or reading a container.
#[derive(Debug, PartialEq, Eq)]
pub enum Error {
    /// The buffer does not begin with the expected magic constant: the
    /// input is not of this format, or it is corrupted.
    BadMagic,
    /// The magic matched but the version field is unsupported.
    InvalidVersion,
    /// A run descriptor claims a data range extending past the buffer:
    /// the input is corrupted, truncated, or malicious.
    RunOverflow { block_size: u32, count: u32, offset: u32, buffer_length: usize },
    /// The caller tried to add a block larger than the configured maximum.
    TooLarge(usize),
    /// An underlying sink or source failed; the mapping layer reports it
    /// through this variant.
    IoError,
    /// An invariant violation not covered above, such as a buffer too
    /// short to contain even a header.
    Internal(String),
}

impl From<String> for Error {
    /// An ad-hoc message becomes an `Internal` error.
    fn from(src: String) -> (e: Error)
        ensures
            e == Error::Internal(src),
    {
        Error::Internal(src)
    }
}

impl vstd::std_specs::convert::FromSpecImpl<String> for Error {
    open spec fn obeys_from_spec() -> bool {
        true
    }

    open spec fn from_spec(src: String) -> Error {
        Error::Internal(src)
    }
}

} // verus!
