//! Log-aggregation engine: counts `(path, date)` visits in newline-delimited
//! `<url>,<timestamp>` records and renders a deterministic JSON report.
//!
//! - [`parser`] extracts the `(path, date)` pair of one record line;
//! - [`chunks`] splits the input into record-aligned ranges, counts each
//!   range, and folds the partial tables — the same table comes out for
//!   every splitter degree;
//! - [`table`] holds the sorted path -> date -> count table, whose model is
//!   a count map with a commutative, associative merge;
//! - [`render`] writes the table as reproducible, sorted JSON;
//! - [`bytes`] has the byte-scanning and ordering helpers the rest builds on.

pub mod bytes;
pub mod chunks;
pub mod parser;
pub mod render;
pub mod table;
