//! What can go wrong, and the crate's `Result`.

use vstd::prelude::*;

verus! {

/// Every failure this crate reports.
#[derive(Debug, Clone, Copy)]
pub enum Error {
    /// An Opus packet that does not follow RFC 6716.
    InvalidPacket(&'static str),
    /// A caller-supplied value outside what the function accepts.
    InvalidArgument(&'static str),
    /// An Ogg stream that does not follow RFC 3533 or RFC 7845.
    InvalidStream(&'static str),
    /// An output buffer shorter than the result.
    BufferTooSmall {
        /// Samples or bytes that were needed.
        needed: usize,
        /// Samples or bytes that were there.
        available: usize,
    },
    /// A broken internal invariant.
    Internal(&'static str),
}

/// The crate's result type.
pub type Result<T> = core::result::Result<T, Error>;

impl Error {
    /// A buffer of `available` where `needed` was required.
    pub fn buffer_too_small(needed: usize, available: usize) -> (e: Error)
        ensures
            e == (Error::BufferTooSmall { needed, available }),
    {
        Error::BufferTooSmall { needed, available }
    }
}

} // verus!
