//! Languages, their line patterns and the classification of lines.

pub mod patterns;
pub mod registry;
pub mod regexp;
pub mod classification;

pub use classification::{classify_line, hash_normalized_line};
pub use registry::supported_file_extensions;
