//! Streaming filter for line-delimited JSON node records.
//!
//! A filter file defines a set of identifiers; every input file is streamed
//! line by line and only the records whose `curie` belongs to the filter set
//! are echoed, verbatim, to a mirrored output file. Identifiers that never
//! matched any input record are reconciled into synthesized records at the
//! end, so no filter identifier is silently dropped.

pub mod codec;
pub mod filterset;
pub mod lines;
pub mod paths;
pub mod process;
pub mod records;
pub mod writer;
