//! Tdb: a typed, human-readable tabular text format.
//!
//! A Tdb document is a sequence of table blocks.  Each block opens with a
//! header `[Name field:type ...]` and is followed by rows of literal
//! values, one row per line.  The library parses a raw byte buffer into an
//! in-memory database of typed tables and writes such a database back to
//! its canonical text form.

pub mod date;
pub mod field;
pub mod laws;
pub mod parse;
pub mod realnum;
pub mod table;
pub mod tdb;
pub mod util;
pub mod value;
