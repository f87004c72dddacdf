//! A streaming, incremental UTF-8 decoding layer.
//!
//! The crate validates a raw byte stream against the UTF-8 encoding and
//! exposes the validated bytes through a pull-based buffered-read interface,
//! without holding the whole input in memory.  Sequences split across chunk
//! boundaries are stitched together in a small fixed-capacity buffer; input
//! that is already whole sequences is passed through without copying into
//! decoder-owned storage.

pub mod decode;
pub mod decoders;
pub mod errors;
pub mod read;
pub mod source;
