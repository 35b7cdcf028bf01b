//! Errors that the database's verified operations can return.

use vstd::prelude::*;

verus! {

/// Why an operation on the database was refused.  Errors of the
/// surrounding process (paths, file handles, memory maps) belong to the
/// host that embeds the library and carries its bytes to disk.
#[derive(Debug)]
pub enum Error {
    /// A record with this key is already present: appends never replace.
    RecordExists(Vec<u8>),
    /// The batch would not fit in the configured map size of the byte log
    /// or of the sequence-number index.
    OutOfSpace,
}

impl Error {
    /// A short name of the error variant, for reporting by the host.
    pub fn describe(&self) -> (r: &'static str)
        ensures
            self is RecordExists ==> r@ == "record already exists"@,
            self is OutOfSpace ==> r@ == "out of space"@,
    {
        match self {
            Error::RecordExists(_) => "record already exists",
            Error::OutOfSpace => "out of space",
        }
    }
}

} // verus!
