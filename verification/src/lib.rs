//! Parallel partition-scan-merge aggregation over a delimited text buffer.
//!
//! The input is a byte buffer of `KEY;READING\n` records. The library
//! partitions the buffer into record-aligned windows, scans each window into
//! a per-key statistics table, merges the tables with order-independent
//! semantics, and renders the sorted summary line. Readings are fixed-point
//! tenths, so results are bit-identical for every window count and merge
//! order.

pub mod format;
pub mod model;
pub mod parser;
pub mod partition;
pub mod records;
pub mod scanner;
pub mod stats;
pub mod table;
