//! The buffered reader adapter over a chunked byte source and the UTF-8
//! decoder.
//!
//! The reader pulls a chunk from the source, hands it to the decoder, and
//! exposes the validated bytes through a fill/consume buffered-read
//! interface.  Its buffer is in one of three states: nothing pending,
//! decoder-owned materialized output partially read, or a validated prefix of
//! the source's own chunk handed through without copying.

use crate::decoders::utf8::{
    copy_prefix, is_utf8, lemma_invalid_extends, lemma_is_utf8_valid_utf8, lemma_one_valid_seq,
    lemma_scan_all_valid_len, lemma_scan_concat, lemma_scan_split, scan_kind, scan_len,
    seq_len_spec, starts_incomplete, starts_valid, utf8_check, ScanKind, Utf8,
};
use crate::decode::Decoded;
use crate::errors::{DecodeError, DecodeErrorKind};
use crate::source::ByteSource;
use vstd::prelude::*;
use vstd::string::StringExecFns;
use vstd::string::StringSliceAdditionalSpecFns;

verus! {

/// Which buffer the reader is currently handing out.
#[derive(Clone, Copy, PartialEq, Eq)]
enum BufState {
    /// No decoded output pending; the next read must pull from the decoder.
    Empty,
    /// Decoder-owned materialized output is available; the payload is the
    /// caller's read cursor into it.
    Decoded(usize),
    /// This many bytes at the front of the source's own chunk are validated
    /// and may be handed to the caller without copying.
    InPlace(usize),
}

/// A buffered reader over the decoded form of a chunked byte stream.
pub struct Reader<S: ByteSource> {
    reader: S,
    decoder: Utf8,
    state: BufState,
}

impl<S: ByteSource> Reader<S> {
    /// The decoded bytes currently available to the caller without pulling
    /// more input.
    pub closed spec fn avail(&self) -> Seq<u8> {
        match self.state {
            BufState::Empty => Seq::empty(),
            BufState::Decoded(pos) => self.decoder.pending().skip(pos as int),
            BufState::InPlace(len) => self.reader.front().take(len as int),
        }
    }

    /// The raw bytes that follow the available ones: stashed partial-sequence
    /// bytes and everything still in the source.
    pub closed spec fn rest(&self) -> Seq<u8> {
        match self.state {
            BufState::Empty => self.decoder.pending() + self.reader.remaining(),
            BufState::Decoded(_) => self.reader.remaining(),
            BufState::InPlace(len) => self.reader.remaining().skip(len as int),
        }
    }

    /// Every byte the caller has not consumed yet, in stream order.
    pub open spec fn unread(&self) -> Seq<u8> {
        self.avail() + self.rest()
    }

    pub closed spec fn wf(&self) -> bool {
        &&& self.reader.inv()
        &&& self.decoder.wf()
        &&& match self.state {
            BufState::Empty => !self.decoder.pending_complete(),
            BufState::Decoded(pos) => self.decoder.pending_complete() && pos
                < self.decoder.pending().len(),
            BufState::InPlace(len) => {
                &&& self.decoder.pending().len() == 0
                &&& len <= self.reader.front().len()
                &&& (len == 0 ==> self.reader.remaining().len() == 0)
            },
        }
    }

    spec fn state_weight(&self) -> int {
        match self.state {
            BufState::Empty => 1,
            _ => 0,
        }
    }

    pub fn new(reader: S, decoder: Utf8) -> (r: Reader<S>)
        requires
            reader.inv(),
            decoder.wf(),
            !decoder.pending_complete(),
        ensures
            r.wf(),
            r.avail().len() == 0,
            r.unread() == decoder.pending() + reader.remaining(),
    {
        let r = Reader { reader, decoder, state: BufState::Empty };
        proof {
            assert(r.unread() =~= r.decoder.pending() + r.reader.remaining());
        }
        r
    }
}

/// Copies `v[from..]`.
fn copy_from(v: &Vec<u8>, from: usize) -> (r: Vec<u8>)
    requires
        from <= v@.len(),
    ensures
        r@ == v@.skip(from as int),
{
    let mut r: Vec<u8> = Vec::new();
    let mut i: usize = from;
    while i < v.len()
        invariant
            from <= i <= v@.len(),
            r@ == v@.subrange(from as int, i as int),
        decreases v@.len() - i,
    {
        r.push(v[i]);
        assert(r@ =~= v@.subrange(from as int, i + 1));
        i = i + 1;
    }
    proof {
        assert(r@ =~= v@.skip(from as int));
    }
    r
}

/// Appends all of `src` to `dst`.
fn append_bytes(dst: &mut Vec<u8>, src: &Vec<u8>)
    ensures
        final(dst)@ == old(dst)@ + src@,
{
    let mut i: usize = 0;
    while i < src.len()
        invariant
            i <= src@.len(),
            dst@ == old(dst)@ + src@.take(i as int),
        decreases src@.len() - i,
    {
        dst.push(src[i]);
        assert(dst@ =~= old(dst)@ + src@.take(i + 1));
        i = i + 1;
    }
    proof {
        assert(old(dst)@ + src@.take(src@.len() as int) =~= old(dst)@ + src@);
    }
}

impl<S: ByteSource> Reader<S> {
    /// Returns the next available decoded bytes without consuming them,
    /// pulling chunks through the decoder as needed.  An empty result means
    /// the stream ended cleanly; an error means the bytes at the front of the
    /// unread stream are invalid (or the stream ends inside a sequence).
    #[verifier::rlimit(100)]
    pub fn fill_buf(&mut self) -> (r: Result<Vec<u8>, DecodeError>)
        requires
            old(self).wf(),
        ensures
            final(self).wf(),
            match r {
                Ok(v) => {
                    &&& final(self).unread() == old(self).unread()
                    &&& v@ == final(self).avail()
                    &&& v@ == final(self).unread().take(v@.len() as int)
                    &&& (v@.len() == 0 ==> final(self).unread().len() == 0)
                    &&& (old(self).avail().len() > 0 ==> v@ == old(self).avail())
                    &&& (old(self).avail().len() == 0 ==> is_utf8(v@))
                },
                Err(e) => {
                    &&& final(self).unread() == old(self).unread()
                    &&& old(self).avail().len() == 0
                    &&& scan_len(old(self).unread()) == 0
                    &&& scan_kind(old(self).unread()) != ScanKind::AllValid
                    &&& e.kind_spec() == (if scan_kind(old(self).unread()) == ScanKind::Invalid {
                        DecodeErrorKind::InvalidInput
                    } else {
                        DecodeErrorKind::PartialInput
                    })
                },
            },
    {
        loop
            invariant
                self.wf(),
                self.unread() == old(self).unread(),
                old(self).avail().len() > 0 ==> self == old(self),
                self.state matches BufState::Empty ==> old(self).avail().len() == 0,
                old(self).avail().len() == 0 ==> match self.state {
                    BufState::Empty => true,
                    BufState::Decoded(pos) => pos == 0 && scan_len(old(self).unread()) > 0,
                    BufState::InPlace(len) => is_utf8(self.avail()) && (len > 0 ==> scan_len(
                        old(self).unread(),
                    ) > 0) && (len == 0 ==> scan_kind(old(self).unread()) == ScanKind::AllValid),
                },
            decreases self.reader.remaining().len() * 2 + self.state_weight(),
        {
            match self.state {
                BufState::Decoded(pos) => {
                    let out = self.decoder.output();
                    let v = copy_from(&out, pos);
                    proof {
                        lemma_one_valid_seq(self.decoder.pending());
                        assert(v@ =~= self.unread().take(v@.len() as int));
                        if pos == 0 {
                            assert(v@ =~= self.decoder.pending());
                        }
                    }
                    return Ok(v);
                },
                BufState::InPlace(len) => {
                    let ghost front0 = self.reader.front();
                    let ghost rem0 = self.reader.remaining();
                    let chunk = self.reader.fill_buf();
                    proof {
                        if len > 0 {
                            assert(front0.len() > 0);
                        } else {
                            self.reader.lemma_front_prefix();
                            assert(front0.take(0int) =~= self.reader.front().take(0int));
                        }
                        assert(self.reader.front().take(len as int) =~= front0.take(len as int));
                    }
                    let v = copy_prefix(&chunk, len);
                    proof {
                        assert(v@ =~= self.avail());
                        assert(v@ =~= self.unread().take(v@.len() as int));
                        if len == 0 {
                            assert(self.unread() =~= Seq::<u8>::empty());
                            assert(scan_kind(Seq::<u8>::empty()) == ScanKind::AllValid);
                            assert(v@ =~= Seq::<u8>::empty());
                        } else {
                            assert(v@.len() == len);
                        }
                    }
                    return Ok(v);
                },
                BufState::Empty => {
                    let ghost p = self.decoder.pending();
                    let ghost rem = self.reader.remaining();
                    proof {
                        self.reader.lemma_front_prefix();
                    }
                    let chunk = self.reader.fill_buf();
                    let ghost inp = chunk@;
                    proof {
                        self.reader.lemma_front_prefix();
                        assert(inp == self.reader.front());
                        assert(inp =~= rem.take(inp.len() as int));
                    }
                    let dr = self.decoder.decode(chunk.as_slice());
                    match dr {
                        Err(e) => {
                            proof {
                                assert(self.unread() =~= p + rem);
                                if p.len() > 0 && inp.len() == 0 {
                                    // end-of-stream inside a split sequence
                                    assert(rem.len() == 0);
                                    assert(p + rem =~= p);
                                    assert(!starts_valid(p));
                                    assert(starts_incomplete(p));
                                } else if p.len() > 0 {
                                    let need = seq_len_spec(p[0]) - p.len();
                                    let take_n = if need <= inp.len() {
                                        need
                                    } else {
                                        inp.len() as int
                                    };
                                    let comb = p + inp.take(take_n);
                                    assert(comb.len() <= seq_len_spec(comb[0]));
                                    assert(!starts_valid(comb));
                                    assert(comb =~= (p + rem).take(comb.len() as int));
                                    lemma_invalid_extends(comb, p + rem);
                                } else {
                                    if inp.len() == 0 {
                                        assert(scan_kind(inp) == ScanKind::AllValid);
                                    }
                                    if starts_valid(inp) {
                                        lemma_scan_all_valid_len(inp.skip(seq_len_spec(inp[0])));
                                        assert(scan_len(inp) > 0);
                                    }
                                    assert(!starts_valid(inp) && !starts_incomplete(inp));
                                    assert(inp =~= (p + rem).take(inp.len() as int));
                                    lemma_invalid_extends(inp, p + rem);
                                }
                            }
                            return Err(e);
                        },
                        Ok(Decoded::Materialized(consumed, out)) => {
                            proof {
                                assert(consumed <= inp.len());
                            }
                            self.reader.consume(consumed);
                            let ghost p2 = self.decoder.pending();
                            proof {
                                assert(inp.take(consumed as int) =~= rem.take(consumed as int));
                                assert(p2 =~= p + rem.take(consumed as int));
                                assert(p2 + rem.skip(consumed as int) =~= p + rem);
                            }
                            if out.len() > 0 {
                                self.state = BufState::Decoded(0);
                                proof {
                                    assert(self.decoder.pending_complete());
                                    assert(self.avail() =~= p2);
                                    assert(self.unread() =~= p + rem);
                                    lemma_one_valid_seq(p2);
                                    lemma_scan_concat(p2, rem.skip(consumed as int));
                                    lemma_scan_all_valid_len(rem.skip(consumed as int));
                                    assert(scan_len(self.unread()) >= p2.len());
                                }
                            } else {
                                proof {
                                    assert(self.unread() =~= p + rem);
                                    if p.len() == 0 {
                                        // the whole chunk was one incomplete head
                                        if starts_valid(inp) {
                                            lemma_scan_all_valid_len(
                                                inp.skip(seq_len_spec(inp[0])),
                                            );
                                            assert(scan_len(inp) > 0);
                                        }
                                        assert(starts_incomplete(inp));
                                        assert(p2 == inp);
                                    }
                                    assert(!self.decoder.pending_complete());
                                    assert(consumed >= 1);
                                }
                            }
                        },
                        Ok(Decoded::InPlace(n)) => {
                            proof {
                                assert(p.len() == 0);
                                assert(p + rem =~= rem);
                                lemma_scan_split(inp);
                                lemma_scan_all_valid_len(inp);
                                if scan_kind(inp) == ScanKind::AllValid {
                                    assert(inp.take(n as int) =~= inp);
                                }
                                assert(is_utf8(inp.take(n as int)));
                            }
                            self.state = BufState::InPlace(n);
                            proof {
                                assert(self.reader.front() == inp);
                                assert(self.avail() =~= inp.take(n as int));
                                assert(self.unread() =~= rem);
                                if n > 0 {
                                    lemma_scan_concat(inp.take(n as int), rem.skip(n as int));
                                    lemma_scan_all_valid_len(rem.skip(n as int));
                                    assert(inp.take(n as int) + rem.skip(n as int) =~= rem);
                                    assert(scan_len(rem) >= n);
                                } else {
                                    assert(inp.len() == 0);
                                    assert(rem.len() == 0);
                                    assert(rem =~= Seq::<u8>::empty());
                                }
                            }
                        },
                    }
                },
            }
        }
    }

    /// Advances the read cursor by `amt` bytes, which must not exceed the
    /// length most recently returned by `fill_buf`.
    pub fn consume(&mut self, amt: usize)
        requires
            old(self).wf(),
            amt <= old(self).avail().len(),
        ensures
            final(self).wf(),
            final(self).avail() == old(self).avail().skip(amt as int),
            final(self).rest() == old(self).rest(),
            final(self).unread() == old(self).unread().skip(amt as int),
    {
        proof {
            assert(old(self).unread().skip(amt as int) =~= old(self).avail().skip(amt as int)
                + old(self).rest());
        }
        match self.state {
            BufState::Empty => {
                proof {
                    assert(old(self).avail().skip(0int) =~= old(self).avail());
                }
            },
            BufState::Decoded(pos) => {
                let new_pos = pos + amt;
                let out = self.decoder.output();
                let buf_len = out.len();
                proof {
                    lemma_one_valid_seq(self.decoder.pending());
                }
                if new_pos == buf_len {
                    self.decoder.consume();
                    self.state = BufState::Empty;
                    proof {
                        assert(self.rest() =~= old(self).rest());
                        assert(self.avail() =~= old(self).avail().skip(amt as int));
                    }
                } else {
                    self.state = BufState::Decoded(new_pos);
                    proof {
                        assert(self.avail() =~= old(self).avail().skip(amt as int));
                    }
                }
            },
            BufState::InPlace(len) => {
                proof {
                    self.reader.lemma_front_prefix();
                }
                self.reader.consume(amt);
                let new_len = len - amt;
                if new_len == 0 {
                    self.state = BufState::Empty;
                } else {
                    self.state = BufState::InPlace(new_len);
                }
                proof {
                    let front0 = old(self).reader.front();
                    let rem0 = old(self).reader.remaining();
                    assert(self.reader.front().take(new_len as int) =~= front0.take(
                        len as int,
                    ).skip(amt as int));
                    if new_len == 0 {
                        assert(self.avail() =~= old(self).avail().skip(amt as int));
                        assert(self.rest() =~= rem0.skip(len as int));
                    } else {
                        assert(self.avail() =~= old(self).avail().skip(amt as int));
                        assert(self.rest() =~= rem0.skip(len as int));
                    }
                }
            },
        }
    }

    /// Reads up to `limit` decoded bytes, consuming them.
    pub fn read(&mut self, limit: usize) -> (r: Result<Vec<u8>, DecodeError>)
        requires
            old(self).wf(),
        ensures
            final(self).wf(),
            match r {
                Ok(v) => {
                    &&& v@.len() <= limit
                    &&& v@ == old(self).unread().take(v@.len() as int)
                    &&& final(self).unread() == old(self).unread().skip(v@.len() as int)
                    &&& (v@.len() == 0 ==> limit == 0 || old(self).unread().len() == 0)
                },
                Err(e) => {
                    &&& final(self).unread() == old(self).unread()
                    &&& scan_len(old(self).unread()) == 0
                    &&& scan_kind(old(self).unread()) != ScanKind::AllValid
                    &&& e.kind_spec() == (if scan_kind(old(self).unread()) == ScanKind::Invalid {
                        DecodeErrorKind::InvalidInput
                    } else {
                        DecodeErrorKind::PartialInput
                    })
                },
            },
    {
        let v = match self.fill_buf() {
            Ok(v) => v,
            Err(e) => {
                return Err(e);
            },
        };
        let amt = if limit <= v.len() {
            limit
        } else {
            v.len()
        };
        let out = copy_prefix(&v, amt);
        self.consume(amt);
        proof {
            assert(out@ =~= old(self).unread().take(amt as int));
        }
        Ok(out)
    }

    /// Drains the whole remaining stream into `buf` through the fill/consume
    /// interface, starting from a drained buffer state.
    fn read_to_end_fast_with(&mut self, buf: &mut Vec<u8>) -> (r: Result<(), DecodeError>)
        requires
            old(self).wf(),
            old(self).avail().len() == 0,
        ensures
            final(self).wf(),
            match r {
                Ok(_) => {
                    &&& scan_kind(old(self).unread()) == ScanKind::AllValid
                    &&& final(buf)@ == old(buf)@ + old(self).unread()
                    &&& final(self).unread().len() == 0
                },
                Err(e) => {
                    &&& scan_kind(old(self).unread()) != ScanKind::AllValid
                    &&& final(buf)@ == old(buf)@ + old(self).unread().take(scan_len(old(self).unread()))
                    &&& final(self).unread() == old(self).unread().skip(
                        scan_len(old(self).unread()),
                    )
                    &&& e.kind_spec() == (if scan_kind(old(self).unread()) == ScanKind::Invalid {
                        DecodeErrorKind::InvalidInput
                    } else {
                        DecodeErrorKind::PartialInput
                    })
                },
            },
    {
        let ghost u0 = old(self).unread();
        let ghost mut done: Seq<u8> = Seq::empty();
        proof {
            assert(done + self.unread() =~= u0);
            assert(buf@ =~= old(buf)@ + done);
            assert(scan_kind(Seq::<u8>::empty()) == ScanKind::AllValid);
        }
        loop
            invariant
                self.wf(),
                self.avail().len() == 0,
                is_utf8(done),
                done + self.unread() == u0,
                buf@ == old(buf)@ + done,
                u0 == old(self).unread(),
            decreases self.unread().len(),
        {
            let v = match self.fill_buf() {
                Ok(v) => v,
                Err(e) => {
                    proof {
                        lemma_scan_concat(done, self.unread());
                        assert(done =~= u0.take(done.len() as int));
                        assert(self.unread() =~= u0.skip(done.len() as int));
                    }
                    return Err(e);
                },
            };
            if v.len() == 0 {
                proof {
                    assert(self.unread().len() == 0);
                    assert(done =~= u0);
                    lemma_scan_concat(done, self.unread());
                    assert(self.unread() =~= Seq::<u8>::empty());
                    assert(scan_kind(Seq::<u8>::empty()) == ScanKind::AllValid);
                }
                return Ok(());
            }
            append_bytes(buf, &v);
            let ghost mid = self.unread();
            self.consume(v.len());
            proof {
                lemma_scan_concat(done, v@);
                assert(done + v@ + self.unread() =~= done + mid);
                done = done + v@;
            }
        }
    }

    /// Reads the whole remaining decoded stream into `buf`, returning how
    /// many bytes were appended.  Because the byte source is abstract, this
    /// contract states that the result depends only on the bytes of the
    /// stream, never on how they are split into chunks.
    pub fn read_to_end(&mut self, buf: &mut Vec<u8>) -> (r: Result<usize, DecodeError>)
        requires
            old(self).wf(),
        ensures
            final(self).wf(),
            match r {
                Ok(n) => {
                    &&& scan_kind(old(self).rest()) == ScanKind::AllValid
                    &&& final(buf)@ == old(buf)@ + old(self).unread()
                    &&& n == old(self).unread().len()
                    &&& final(self).unread().len() == 0
                },
                Err(e) => {
                    &&& scan_kind(old(self).rest()) != ScanKind::AllValid
                    &&& final(buf)@ == old(buf)@ + old(self).avail() + old(self).rest().take(
                        scan_len(old(self).rest()),
                    )
                    &&& final(self).unread() == old(self).rest().skip(scan_len(old(self).rest()))
                    &&& e.kind_spec() == (if scan_kind(old(self).rest()) == ScanKind::Invalid {
                        DecodeErrorKind::InvalidInput
                    } else {
                        DecodeErrorKind::PartialInput
                    })
                },
            },
    {
        let ghost a = old(self).avail();
        let ghost c = old(self).rest();
        let pre_len = buf.len();
        // deal with possibly partially read output first
        let v = match self.fill_buf() {
            Ok(v) => v,
            Err(e) => {
                proof {
                    assert(old(self).unread() =~= c);
                    assert(buf@ =~= old(buf)@ + a + c.take(scan_len(c)));
                }
                return Err(e);
            },
        };
        append_bytes(buf, &v);
        self.consume(v.len());
        let ghost c2 = self.unread();
        proof {
            if a.len() > 0 {
                assert(c2 =~= c);
            } else {
                assert(a + c =~= c);
                assert(v@ =~= c.take(v@.len() as int));
                assert(v@ + c2 =~= c);
                assert(c2 =~= c.skip(v@.len() as int));
                lemma_scan_concat(v@, c2);
                lemma_scan_all_valid_len(c2);
                lemma_scan_all_valid_len(c);
            }
        }
        match self.read_to_end_fast_with(buf) {
            Ok(_) => {
                proof {
                    if a.len() > 0 {
                        assert(buf@ =~= old(buf)@ + old(self).unread());
                    } else {
                        assert(buf@ =~= old(buf)@ + old(self).unread());
                    }
                }
                Ok(buf.len() - pre_len)
            },
            Err(e) => {
                proof {
                    if a.len() > 0 {
                        assert(buf@ =~= old(buf)@ + a + c.take(scan_len(c)));
                        assert(self.unread() =~= c.skip(scan_len(c)));
                    } else {
                        assert(c.take(scan_len(c)) =~= v@ + c2.take(scan_len(c2)));
                        assert(buf@ =~= old(buf)@ + a + c.take(scan_len(c)));
                        assert(self.unread() =~= c.skip(scan_len(c)));
                    }
                }
                Err(e)
            },
        }
    }

    /// Reads the whole remaining decoded stream into a text buffer.
    ///
    /// Every byte appended has passed the decoder, so the appended text is by
    /// construction the UTF-8 decoding of the stream's bytes.  If earlier
    /// partial reads left the read cursor inside a multi-byte character, the
    /// pending bytes no longer form whole characters and the call fails
    /// without touching `buf`.
    pub fn read_to_string(&mut self, buf: &mut String) -> (r: Result<usize, DecodeError>)
        requires
            old(self).wf(),
        ensures
            final(self).wf(),
            match r {
                Ok(n) => {
                    &&& is_utf8(old(self).avail())
                    &&& scan_kind(old(self).rest()) == ScanKind::AllValid
                    &&& final(buf)@ == old(buf)@ + vstd::utf8::decode_utf8(old(self).unread())
                    &&& n == old(self).unread().len()
                    &&& final(self).unread().len() == 0
                },
                Err(e) => {
                    if !is_utf8(old(self).avail()) {
                        &&& e.kind_spec() == DecodeErrorKind::InvalidInput
                        &&& final(buf)@ == old(buf)@
                        &&& final(self).unread() == old(self).unread()
                    } else {
                        &&& scan_kind(old(self).rest()) != ScanKind::AllValid
                        &&& final(buf)@ == old(buf)@ + vstd::utf8::decode_utf8(
                            old(self).avail() + old(self).rest().take(scan_len(old(self).rest())),
                        )
                        &&& final(self).unread() == old(self).rest().skip(
                            scan_len(old(self).rest()),
                        )
                        &&& e.kind_spec() == (if scan_kind(old(self).rest())
                            == ScanKind::Invalid {
                            DecodeErrorKind::InvalidInput
                        } else {
                            DecodeErrorKind::PartialInput
                        })
                    }
                },
            },
    {
        let ghost a = old(self).avail();
        let ghost c = old(self).rest();
        // The reader might have been partially read from.  Deal with it:
        // collect the pending output and check that it still forms whole
        // characters on its own.
        let mut bytes: Vec<u8> = match self.state {
            BufState::Empty => Vec::new(),
            BufState::Decoded(pos) => {
                let out = self.decoder.output();
                proof {
                    lemma_one_valid_seq(self.decoder.pending());
                }
                copy_from(&out, pos)
            },
            BufState::InPlace(len) => {
                let ghost front0 = self.reader.front();
                let chunk = self.reader.fill_buf();
                proof {
                    if len > 0 {
                        assert(front0.len() > 0);
                    } else {
                        self.reader.lemma_front_prefix();
                        assert(front0.take(0int) =~= self.reader.front().take(0int));
                    }
                    assert(self.reader.front().take(len as int) =~= front0.take(len as int));
                }
                copy_prefix(&chunk, len)
            },
        };
        proof {
            assert(bytes@ == self.avail());
            assert(self.avail() == a && self.rest() == c && self.unread() == old(self).unread());
        }
        if !utf8_check(bytes.as_slice()) {
            return Err(
                DecodeError::new(
                    DecodeErrorKind::InvalidInput,
                    0,
                    "cannot read a complete UTF-8 string due to preceding reads",
                ),
            );
        }
        self.consume(bytes.len());
        let ghost c2 = self.unread();
        proof {
            assert(c2 =~= c);
        }
        let fast = self.read_to_end_fast_with(&mut bytes);
        match fast {
            Ok(_) => {
                proof {
                    lemma_scan_concat(a, c);
                    assert(a + c2 =~= a + c);
                    assert(bytes@ == a + c2);
                    assert(is_utf8(bytes@));
                    lemma_is_utf8_valid_utf8(bytes@);
                }
                let n = bytes.len();
                let s = utf8_to_str(bytes.as_slice());
                proof {
                    vstd::utf8::encode_utf8_decode_utf8(s@);
                    assert(s@ == vstd::utf8::decode_utf8(bytes@));
                    assert(bytes@ =~= old(self).unread());
                }
                buf.append(s);
                Ok(n)
            },
            Err(e) => {
                proof {
                    lemma_scan_split(c2);
                    lemma_scan_all_valid_len(c2);
                    lemma_scan_concat(a, c2.take(scan_len(c2)));
                    assert(bytes@ == a + c2.take(scan_len(c2)));
                    assert(is_utf8(bytes@));
                    lemma_is_utf8_valid_utf8(bytes@);
                    assert(scan_kind(c) != ScanKind::AllValid);
                    assert(scan_len(c) == scan_len(c2));
                    assert(c2.take(scan_len(c2)) =~= c.take(scan_len(c)));
                    assert(c2.skip(scan_len(c2)) =~= c.skip(scan_len(c)));
                }
                let s = utf8_to_str(bytes.as_slice());
                proof {
                    vstd::utf8::encode_utf8_decode_utf8(s@);
                    assert(s@ == vstd::utf8::decode_utf8(bytes@));
                    assert(bytes@ =~= a + c.take(scan_len(c)));
                }
                buf.append(s);
                Err(e)
            },
        }
    }
}

/// Relies on `core::str::from_utf8`: on input that is valid UTF-8 (here
/// guaranteed by `vstd::utf8::valid_utf8`, which this crate's grammar is
/// proven to imply) the call succeeds, and the returned `str` views exactly
/// the given bytes.  This mirrors the specification vstd itself gives to
/// `str::from_utf8_unchecked`.
#[verifier::external_body]
fn utf8_to_str<'a>(v: &'a [u8]) -> (r: &'a str)
    requires
        vstd::utf8::valid_utf8(v@),
    ensures
        r.spec_bytes() == v@,
{
    match core::str::from_utf8(v) {
        Ok(s) => s,
        Err(_) => "",
    }
}

} // verus!
