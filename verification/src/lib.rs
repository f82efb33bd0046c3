//! Word-frequency extraction over a corpus of plain-text documents.
//!
//! A document's bytes are decoded leniently to text, the text is split into
//! lines on the newline byte, each line into raw tokens on the space byte,
//! each token runs through a normalizing acceptance filter, and every
//! accepted word bumps its entry in a frequency table. Parallel workers
//! count into tables of their own, joined into one at the end.

pub mod filter;
pub mod ingest;
pub mod laws;
pub mod pipeline;
pub mod split;
pub mod table;
