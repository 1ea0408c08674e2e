use vstd::prelude::*;

verus! {

/// Why an operation on a super partition was turned down.
#[derive(Clone, Copy, Debug, PartialEq, Eq, Structural)]
pub enum Error {
    /// Neither superblock slot holds valid metadata.
    NotFound,
    /// A subvolume of that name is already there.
    AlreadyExists,
    /// The free gaps, or the room left for the metadata blocks, are too small.
    OutOfSpace,
    /// The framed metadata does not fit within one I/O block.
    Size,
}

impl Error {
    /// A short description, for diagnostics.
    pub fn message(&self) -> (text: &'static str)
        ensures
            text@ == match *self {
                Error::NotFound => "no valid metadata"@,
                Error::AlreadyExists => "subvol already exists"@,
                Error::OutOfSpace => "not enough space"@,
                Error::Size => "metadata does not fit in one block"@,
            },
    {
        match self {
            Error::NotFound => "no valid metadata",
            Error::AlreadyExists => "subvol already exists",
            Error::OutOfSpace => "not enough space",
            Error::Size => "metadata does not fit in one block",
        }
    }
}

} // verus!
