//! The region container: byte order helpers, the framed-block codec, chunk
//! slots, and the reader and writer of whole region files.

pub mod bytes;
pub mod entry;
pub mod inflate;
pub mod lz4;
pub mod reader;
pub mod writer;
