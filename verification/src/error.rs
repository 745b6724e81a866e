//! The errors of the library.
use vstd::prelude::*;

verus! {

/// Why an operation could not be carried out.
#[derive(Debug, PartialEq, Eq, Clone, Copy, Structural)]
pub enum Error {
    /// A parameter is outside of what the operation accepts.
    InvalidInput,
    /// The allocation table has too few free clusters for the request.
    NotEnoughSpace,
    /// The volume breaks an on-disk invariant.
    CorruptedFileSystem,
    /// There is no entry of that name.
    NotFound,
    /// There is an entry of that name already.
    AlreadyExists,
}

} // verus!
