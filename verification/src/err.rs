//! The error type every fallible operation of this crate returns.

use vstd::prelude::*;

verus! {

/// What went wrong: the storage engine failed, the codec failed, or a
/// caller-supplied capability reported its own failure.
#[derive(Debug)]
pub enum Error {
    /// The storage engine reported a failure (including a transaction abort).
    Sled(String),
    /// Encoding or decoding a value failed.
    Bincode(String),
    /// A caller-raised failure, carrying the caller's message.
    Custom(String),
}

/// Create a custom error from a message.
pub fn custom(msg: String) -> (r: Error)
    ensures
        r == Error::Custom(msg),
{
    Error::Custom(msg)
}

} // verus!
