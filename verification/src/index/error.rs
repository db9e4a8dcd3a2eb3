use vstd::prelude::*;

use crate::store::directory::{may_close_file, Directory, DirectoryError};
use crate::store::io_stream::FormatError;

verus! {

/// Why an operation on the files of an index failed.
#[derive(Debug)]
pub enum IndexError {
    /// The directory could not do what was asked of it.
    Directory(DirectoryError),
    /// The bytes of a file are not what the format asks for.
    Format(FormatError),
    /// The directory holds no file that names a commit.
    NoSegmentsFile,
    /// The name of a file starts like that of a commit but gives no
    /// generation.
    BadSegmentsFileName,
}

/// What is returned for an answer of the directory that carries no value:
/// its error, or nothing.
pub open spec fn directory_answer(answer: Result<(), DirectoryError>) -> Result<(), IndexError> {
    match answer {
        Ok(()) => Ok(()),
        Err(e) => Err(IndexError::Directory(e)),
    }
}

/// The file `name` was handed back to the directory with `bytes` written,
/// and `r` is what is returned for the directory's answer.
pub open spec fn handed_back<D: Directory>(
    directory: &D,
    name: Seq<char>,
    bytes: Seq<u8>,
    r: Result<(), IndexError>,
) -> bool {
    exists|closed: Result<(), DirectoryError>| #[trigger]
        may_close_file(directory, name, bytes, closed) && r == directory_answer(closed)
}

} // verus!
