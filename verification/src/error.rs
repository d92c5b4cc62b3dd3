//! The ways in which reading a volume can fail.

use vstd::prelude::*;

verus! {

/// Why an operation on a volume failed.
#[derive(Debug, PartialEq, Eq)]
pub enum IsoError {
    /// A read reached beyond the end of the image.
    Io,
    /// The volume descriptor does not carry the `CD001` signature.
    InvalidSignature,
    /// A structure of the volume is malformed: the descriptor block is too
    /// short for the fields it must hold, or a directory record overruns its
    /// extent.
    InvalidVolume,
    /// No entry matches a segment of the path; holds the path that was asked for.
    NotFound(String),
    /// The path names an entry of the wrong kind for the operation; holds the
    /// path that was asked for.
    NotADirectory(String),
}

/// What an [`IsoError`] is in contracts: the same variants, a path as its
/// characters.
pub enum Failure {
    Io,
    InvalidSignature,
    InvalidVolume,
    NotFound(Seq<char>),
    NotADirectory(Seq<char>),
}

impl View for IsoError {
    type V = Failure;

    open spec fn view(&self) -> Failure {
        match self {
            IsoError::Io => Failure::Io,
            IsoError::InvalidSignature => Failure::InvalidSignature,
            IsoError::InvalidVolume => Failure::InvalidVolume,
            IsoError::NotFound(path) => Failure::NotFound(path@),
            IsoError::NotADirectory(path) => Failure::NotADirectory(path@),
        }
    }
}

/// The result of a fallible operation as contracts see it.
pub open spec fn outcome<T: View>(result: Result<T, IsoError>) -> Result<T::V, Failure> {
    match result {
        Ok(value) => Ok(value@),
        Err(e) => Err(e@),
    }
}

} // verus!
