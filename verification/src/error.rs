//! Error values shared by the codec and the parsers built on it.

use vstd::prelude::*;

verus! {

/// Failure of a decode or parse step.
#[derive(Clone, Copy, Debug, PartialEq, Eq, Structural)]
pub enum Error {
    /// The input ended before the value was complete.
    Io,
    /// A variable-length integer used a longer form than its value needs.
    NonMinimalVarInt,
    /// The bytes were well-framed but did not form a valid value.
    ParseFailed,
    /// A network name outside the supported set.
    UnsupportedCoinNetwork,
}

} // verus!
