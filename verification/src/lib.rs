//! Core logic of a quick-note desktop backend: parsing a flat-text note file
//! into dated records, and reading and writing the single-field JSON
//! configuration object that locates that file.
//!
//! All file and process I/O lives outside this crate; every function here is
//! a pure computation on strings with a verified contract.

pub mod config;
pub mod notes;
pub mod text;
