//! Conversion of delimited tabular text (CSV/TSV-like) into HTML tables.
//!
//! The crate has two components: a record reader, which parses delimited
//! byte input into rows of fields, and a table renderer, which turns rows
//! into HTML fragments with the four-character escaping applied to every
//! field. A pipeline ties the two together and a small error type carries
//! the failure taxonomy.

pub mod errors;
pub mod numbers;
pub mod pipeline;
pub mod reader;
pub mod tablegen;
