//! Extraction of one named column from CSV data, and the plain-text output
//! that holds the extracted values one per line.

pub mod csv_source;
pub mod extract;
pub mod output;

pub use extract::{get_data_from, ExtractError};
