//! Streaming per-key summary statistics over `key;value` text.
//!
//! The library is split along the data flow of the aggregation pipeline:
//! - [`chunker`]: cuts an incoming byte stream into line-aligned chunks,
//!   carrying bytes after the last newline forward to the next chunk;
//! - [`parse`]: splits a chunk into logical lines and parses each line
//!   into a `key;value` record or a skip marker;
//! - [`stats`]: the exact per-key accumulator (count, sum, min, max over
//!   fixed-point tenths) and its merge operation, with the algebraic laws
//!   of merging proved;
//! - [`table`]: per-worker statistics tables, folding chunks into a table
//!   and reducing many worker tables into one final table.
//!
//! Values are modelled exactly as integer tenths, so count, sum, min and
//! max are all exact and the merge is associative and commutative.
pub mod chunker;
pub mod parse;
pub mod stats;
pub mod table;
