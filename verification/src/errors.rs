//! The decode-time error taxonomy: invalid input and truncated input.

use vstd::prelude::*;

verus! {

/// What went wrong while decoding.
#[derive(Clone, Copy, Debug, PartialEq, Eq, Structural)]
pub enum DecodeErrorKind {
    /// The bytes violate the encoding's grammar.
    InvalidInput,
    /// The stream ended in the middle of a multi-byte sequence.
    PartialInput,
}

/// A decode failure, carrying its kind, a resynchronization hint, and a
/// human-readable description.
#[derive(Clone, Copy, Debug)]
pub struct DecodeError {
    kind: DecodeErrorKind,
    skip_len: usize,
    desc: &'static str,
}

impl DecodeError {
    /// The kind of failure.
    pub closed spec fn kind_spec(&self) -> DecodeErrorKind {
        self.kind
    }

    /// How many input bytes a caller could skip to resynchronize.  This
    /// decoder does not implement resynchronization and always reports zero.
    pub closed spec fn skip_len_spec(&self) -> usize {
        self.skip_len
    }

    pub closed spec fn desc_spec(&self) -> &'static str {
        self.desc
    }

    pub fn new(kind: DecodeErrorKind, skip_len: usize, description: &'static str) -> (r:
        DecodeError)
        ensures
            r.kind_spec() == kind,
            r.skip_len_spec() == skip_len,
            r.desc_spec() == description,
    {
        DecodeError { kind, skip_len, desc: description }
    }

    pub fn kind(&self) -> (k: DecodeErrorKind)
        ensures
            k == self.kind_spec(),
    {
        self.kind
    }

    pub fn skip_len(&self) -> (n: usize)
        ensures
            n == self.skip_len_spec(),
    {
        self.skip_len
    }

    pub fn description(&self) -> (d: &'static str)
        ensures
            d == self.desc_spec(),
    {
        self.desc
    }
}

} // verus!
