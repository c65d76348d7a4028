//! Recovery of a raw elementary video stream from a possibly truncated
//! media container.
//!
//! The container scanner walks the flat sequence of top-level boxes until it
//! meets the single payload (`mdat`) box, then hands every remaining byte to
//! the payload demultiplexer, which turns length-prefixed records into
//! start-code-delimited ones. Truncated trailing structure stops the
//! demultiplexer cleanly instead of failing the whole run.

pub mod bytes;
pub mod demux;
pub mod scan;
