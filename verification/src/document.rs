pub mod document;
pub mod field;

pub use document::Document;
pub use field::Field;
