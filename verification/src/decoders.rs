//! The decoders provided by this crate, one module per encoding.

pub use self::utf8::Utf8;

pub mod utf8;
