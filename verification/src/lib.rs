//! Engine for pairing files across two directories by a structured filename
//! convention and comparing each pair's content as a set of normalized lines.
//!
//! The library holds the pure logic: filename parsing and key extraction,
//! line splitting and trimming, lexicographic sorting, and set-based diffing.
//! Callers supply file contents and directory listings as plain values and
//! perform all I/O themselves.

pub mod comparison;
pub mod error;
pub mod file_utils;
pub mod text;

pub use comparison::{compare_files, generate_file_pairs};
pub use error::CompareError;
pub use file_utils::{detect_encoding, read_and_process_file};
