pub mod directory;
pub mod io_stream;
pub mod ram_directory;
pub mod util;

pub use directory::{Directory, DirectoryError};
pub use io_stream::{FormatError, InputStream, OutputStream};
