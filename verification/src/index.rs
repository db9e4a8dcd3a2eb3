pub mod codec_utils;
pub mod document_writer;
pub mod error;
pub mod field_info;
pub mod fields_writer;
pub mod index_writer;
pub mod posting;
pub mod segment_commit_info;
pub mod segment_info;
pub mod segment_infos;
pub mod term;

pub use error::IndexError;
pub use posting::Posting;
pub use term::Term;
