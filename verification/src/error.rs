//! The kinds of failure that the library reports.

use vstd::prelude::*;

verus! {

/// Why an operation failed.
#[derive(Clone, Copy, Debug, PartialEq, Eq, Structural)]
pub enum ErrorKind {
    /// A store or a key that should be there is not.
    NotFound,
    /// A store was to be created where one already is.
    AlreadyExists,
    /// A store was written for another vocabulary or another key packing.
    SchemaMismatch,
    /// A store lacks a record that every store holds, or holds one that
    /// cannot be read.
    Corrupt,
    /// Text or bytes that do not spell a value.
    InvalidEncoding,
    /// The store could not be read or written.
    Io,
}

} // verus!
