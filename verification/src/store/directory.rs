use std::time::SystemTime;
use vstd::prelude::*;

use super::io_stream::{InputStream, OutputStream};

verus! {

/// The error type of std's I/O operations, carried through as it is.
#[verifier::external_type_specification]
#[verifier::external_body]
pub struct ExIoError(std::io::Error);

/// A point in time as std measures it, carried through as it is.
#[verifier::external_type_specification]
#[verifier::external_body]
pub struct ExSystemTime(std::time::SystemTime);

/// Why an operation on a directory failed.
#[derive(Debug)]
pub enum DirectoryError {
    /// The underlying storage failed.
    IOError(std::io::Error),
    /// The storage root exists but is not a directory.
    PathError(String),
    /// The file is marked for deletion.
    FileDeletedError(String),
}

/// A flat list of files. A file is created once; after that it can only be
/// opened for reading, renamed or deleted. What a directory does is its
/// own affair: nothing is promised of it here, and what is read from it is
/// held against the formats by the functions that read.
pub trait Directory {
    type Output: OutputStream;

    type Input: InputStream;

    /// The names of the files in the directory.
    fn list(&self) -> Result<Vec<String>, DirectoryError>;

    /// Whether the file exists.
    fn file_exists(&self, name: &str) -> bool;

    /// When the file was last modified.
    fn file_modified_at(&self, name: &str) -> Result<SystemTime, DirectoryError>;

    /// The length of the file in bytes.
    fn file_length(&self, name: &str) -> Result<u64, DirectoryError>;

    /// Deletes the file.
    fn delete_file(&self, name: &str) -> Result<(), DirectoryError>;

    /// Renames the file.
    fn rename_file(&self, from: &str, to: &str) -> Result<(), DirectoryError>;

    /// Creates an empty file and opens it for writing.
    fn create_file(&self, name: &str) -> Result<Self::Output, DirectoryError>;

    /// Takes back a file that was created, once it is written, and keeps
    /// what was written into it.
    fn close_file(&self, name: &str, output: Self::Output) -> Result<(), DirectoryError>;

    /// Opens a file for reading.
    fn open_file(&self, name: &str) -> Result<Self::Input, DirectoryError>;

    /// Closes the directory.
    fn close(&self) -> Result<(), DirectoryError>;
}

/// `answer` is something that the directory gives when it is asked for
/// its listing.
pub open spec fn may_list<D: Directory>(
    directory: &D,
    answer: Result<Vec<String>, DirectoryError>,
) -> bool {
    call_ensures(D::list, (directory,), answer)
}

/// `answer` is something that the directory gives when it is asked to open
/// the file `name`.
pub open spec fn may_open<D: Directory>(
    directory: &D,
    name: Seq<char>,
    answer: Result<D::Input, DirectoryError>,
) -> bool {
    exists|file: &str|
        file@ == name && #[trigger] call_ensures(D::open_file, (directory, file), answer)
}

/// `answer` is something that the directory gives when it is asked to
/// create the file `name`.
pub open spec fn may_create<D: Directory>(
    directory: &D,
    name: Seq<char>,
    answer: Result<D::Output, DirectoryError>,
) -> bool {
    exists|file: &str|
        file@ == name && #[trigger] call_ensures(D::create_file, (directory, file), answer)
}

/// `answer` is something that the directory gives when the file `name` is
/// handed back to it with `bytes` written.
pub open spec fn may_close_file<D: Directory>(
    directory: &D,
    name: Seq<char>,
    bytes: Seq<u8>,
    answer: Result<(), DirectoryError>,
) -> bool {
    exists|file: &str, output: D::Output|
        file@ == name && output.bytes() == bytes && #[trigger] call_ensures(
            D::close_file,
            (directory, file, output),
            answer,
        )
}

} // verus!
