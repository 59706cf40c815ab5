//! Conversion between CSV and a backslash-escaped TSV dialect.
//!
//! `csv_format` holds the CSV record reader (a byte-at-a-time state machine,
//! so a caller can stream an input of any size through it) and the CSV record
//! writer; `tsv_format` holds the TSV field escaping and the TSV line reader
//! and writer; `convert` holds the command-line delimiter parsing, the
//! column-count check and whole-buffer conversions in both directions.
//! `text` holds the few calls into std's string handling that the rest rests on.
pub mod text;
pub mod csv_format;
pub mod tsv_format;
pub mod convert;
