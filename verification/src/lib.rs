//! A verified FASTA parser.
//!
//! The library turns a finite sequence of text lines into an ordered
//! collection of records, each with an identifier, a free-text description
//! and the concatenated sequence data that followed its header line.
//! The parse is specified as a mathematical fold over the lines
//! (`model::parse`), the executable parser is proved to implement it
//! exactly, and the general properties of the format (record count, order,
//! concatenation, header splitting, blank lines, rejection of empty
//! identifiers) are proved in `laws`.

pub mod laws;
pub mod model;
pub mod parser;
pub mod record;
