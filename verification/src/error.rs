//! Error conditions surfaced by the version core and by the environment
//! interfaces around it.

use vstd::prelude::*;

verus! {

/// Failure kinds. A miss in `Version::get` is not an error; the core itself
/// only raises `NotFound` (a table absent from the cache), the remaining
/// kinds are produced by environment implementations.
#[derive(Clone, Copy, Debug, PartialEq, Eq, Structural)]
pub enum Status {
    /// A file or table was not present.
    NotFound,
    /// Stored bytes failed to parse.
    Corruption,
    /// An environment operation failed.
    IOError,
    /// A caller broke a documented precondition.
    InvalidArgument,
    /// A resource that may exist only once already exists.
    AlreadyExists,
    /// A lock was used inconsistently.
    LockError,
}

} // verus!
