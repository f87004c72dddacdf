//! The capability contract implemented by any incremental decoder.

use crate::errors::DecodeError;
use vstd::prelude::*;

verus! {

/// What one `decode` call produced.
///
/// `Materialized` carries the count of input bytes consumed by the call and
/// the decoder-owned output bytes (a copy of its stitch buffer).  An empty
/// `Materialized` output with a nonzero consumed count means "no further
/// output available with the current input", not end-of-stream.
///
/// `InPlace` reports that the first `len` bytes of the input buffer just
/// given to the decoder were validated in place: the caller may use that
/// prefix of its own buffer directly, no copy occurred.
#[derive(Debug)]
pub enum Decoded {
    Materialized(usize, Vec<u8>),
    InPlace(usize),
}

impl Decoded {
    #[inline]
    pub fn some(input_len: usize, output: Vec<u8>) -> (r: Result<Decoded, DecodeError>)
        ensures
            r == Ok::<Decoded, DecodeError>(Decoded::Materialized(input_len, output)),
    {
        Ok(Decoded::Materialized(input_len, output))
    }

    #[inline]
    pub fn in_place(len: usize) -> (r: Result<Decoded, DecodeError>)
        ensures
            r == Ok::<Decoded, DecodeError>(Decoded::InPlace(len)),
    {
        Ok(Decoded::InPlace(len))
    }
}

/// An incremental decoder over some multi-byte text encoding.
///
/// `decode` is called repeatedly with successive chunks of one logical
/// stream; an empty chunk signals end-of-stream.  The decoder never consumes
/// more bytes than it has fully validated, except that it may stash the bytes
/// of a sequence left incomplete at a chunk boundary in its pending buffer.
pub trait Decode: Sized {
    /// The bytes of a partially received sequence currently held back,
    /// together with a completed sequence not yet released by `consume`.
    spec fn pending(&self) -> Seq<u8>;

    /// The decoder's internal well-formedness.
    spec fn inv(&self) -> bool;

    /// The materialized output currently exposed by `output`.
    spec fn output_spec(&self) -> Seq<u8>;

    /// Which byte sequences count as valid text for this encoding.
    spec fn valid_text(s: Seq<u8>) -> bool;

    /// Validate as much of `input` as possible, honoring pending state from
    /// prior calls.
    fn decode(&mut self, input: &[u8]) -> (r: Result<Decoded, DecodeError>)
        requires
            old(self).inv(),
        ensures
            final(self).inv(),
            match r {
                Ok(Decoded::Materialized(consumed, out)) => {
                    &&& consumed <= input@.len()
                    &&& (out@.len() > 0 ==> Self::valid_text(out@))
                },
                Ok(Decoded::InPlace(len)) => {
                    &&& len <= input@.len()
                    &&& Self::valid_text(input@.take(len as int))
                    &&& final(self).pending() == old(self).pending()
                },
                Err(_) => final(self).pending() == old(self).pending(),
            },
    ;

    /// The currently materialized decoded bytes (empty if none pending);
    /// valid text whenever nonempty.
    fn output(&self) -> (out: Vec<u8>)
        requires
            self.inv(),
        ensures
            out@ == self.output_spec(),
            out@.len() > 0 ==> Self::valid_text(out@),
    ;

    /// Signal that the current materialized output has been fully read.
    /// Callers must not call this while an incomplete sequence is pending
    /// and no output has been produced for it.
    fn consume(&mut self)
        requires
            old(self).inv(),
            old(self).output_spec().len() > 0 || old(self).pending().len() == 0,
        ensures
            final(self).inv(),
            final(self).pending().len() == 0,
    ;

    /// Forcibly discard all partial-sequence state.
    fn reset(&mut self)
        requires
            old(self).inv(),
        ensures
            final(self).inv(),
            final(self).pending().len() == 0,
    ;
}

} // verus!
