//! The error type shared by every fallible operation of the crate.

use vstd::prelude::*;

verus! {

/// Failure modes returned by the fallible operations of this crate.
#[non_exhaustive]
#[derive(Debug, Clone, PartialEq, Eq, Structural)]
pub enum Error {
    /// The provided index does not point to a live element.
    StaleIndex,
    /// An allocation request exceeded the allocator's available capacity.
    CapacityExceeded,
    /// A monotonic counter would have wrapped past its representable range.
    CounterOverflow,
}

impl Error {
    /// A one-line human-readable description of the failure.
    pub fn message(&self) -> (r: &'static str)
        ensures
            r@ == (match *self {
                Error::StaleIndex => "stale index: handle does not refer to a live element"@,
                Error::CapacityExceeded => "capacity exceeded: allocator could not grow"@,
                Error::CounterOverflow => "counter overflow: generation or symbol counter exhausted"@,
            }),
    {
        match self {
            Error::StaleIndex => "stale index: handle does not refer to a live element",
            Error::CapacityExceeded => "capacity exceeded: allocator could not grow",
            Error::CounterOverflow => "counter overflow: generation or symbol counter exhausted",
        }
    }
}

/// Result alias that uses [`Error`] as the failure type.
pub type Result<T> = core::result::Result<T, Error>;

} // verus!
