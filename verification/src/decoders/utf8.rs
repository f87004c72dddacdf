//! The incremental UTF-8 validator/decoder.
//!
//! The grammar is stated byte by byte: a leading byte fixes the length of its
//! sequence and the admissible ranges of its continuation bytes, including
//! the exclusions for overlong encodings and the surrogate range.  The
//! module proves that this byte-range grammar accepts exactly the sequences
//! that `vstd`'s independent UTF-8 theory (`vstd::utf8::valid_utf8`) accepts.

use crate::decode::{Decode, Decoded};
use crate::errors::{DecodeError, DecodeErrorKind};
use vstd::prelude::*;
use vstd::slice::slice_subrange;

verus! {

/// The total length of the sequence announced by its leading byte.  Invalid
/// leading bytes map to 1 so that indexing stays in bounds; they fail the
/// range checks instead.
pub open spec fn seq_len_spec(b: u8) -> int {
    if b < 0x80 {
        1
    } else if 0xC2 <= b && b <= 0xDF {
        2
    } else if 0xE0 <= b && b <= 0xEF {
        3
    } else if 0xF0 <= b && b <= 0xF4 {
        4
    } else {
        1
    }
}

/// Whether a byte may begin a sequence at all.
pub open spec fn lead_ok(b: u8) -> bool {
    b < 0x80 || (0xC2 <= b && b <= 0xDF) || (0xE0 <= b && b <= 0xEF) || (0xF0 <= b && b <= 0xF4)
}

/// Whether `b` is admissible as the continuation byte at position `pos`
/// (1-based) of a sequence led by `lead`.
pub open spec fn cont_ok(lead: u8, pos: int, b: u8) -> bool {
    if pos == 1 {
        if lead == 0xE0 {
            0xA0 <= b && b <= 0xBF
        } else if lead == 0xED {
            0x80 <= b && b <= 0x9F
        } else if lead == 0xF0 {
            0x90 <= b && b <= 0xBF
        } else if lead == 0xF4 {
            0x80 <= b && b <= 0x8F
        } else {
            0x80 <= b && b <= 0xBF
        }
    } else {
        0x80 <= b && b <= 0xBF
    }
}

/// The first `k` bytes of `s` conform to the grammar of the sequence led by
/// `s[0]` (they need not complete it).
pub open spec fn prefix_ok(s: Seq<u8>, k: int) -> bool {
    &&& lead_ok(s[0])
    &&& (k <= 1 || cont_ok(s[0], 1, s[1]))
    &&& (k <= 2 || cont_ok(s[0], 2, s[2]))
    &&& (k <= 3 || cont_ok(s[0], 3, s[3]))
}

/// `s` begins with one complete valid sequence.
pub open spec fn starts_valid(s: Seq<u8>) -> bool {
    s.len() >= seq_len_spec(s[0]) && prefix_ok(s, seq_len_spec(s[0]))
}

/// `s` is a proper prefix of a single valid sequence: every byte present
/// conforms, but the sequence needs more bytes than `s` holds.
pub open spec fn starts_incomplete(s: Seq<u8>) -> bool {
    s.len() < seq_len_spec(s[0]) && prefix_ok(s, s.len() as int)
}

/// `s` is exactly one complete valid sequence.
pub open spec fn is_valid_seq(s: Seq<u8>) -> bool {
    s.len() == seq_len_spec(s[0]) && prefix_ok(s, s.len() as int)
}

/// How a left-to-right scan of a byte sequence ends.
#[derive(Clone, Copy, Debug, PartialEq, Eq, Structural)]
pub enum ScanKind {
    /// The whole sequence is valid text.
    AllValid,
    /// The scan stopped at the start of an incomplete trailing sequence.
    Incomplete,
    /// The scan stopped at the start of an invalid sequence.
    Invalid,
}

/// How a scan of `s` ends.
pub open spec fn scan_kind(s: Seq<u8>) -> ScanKind
    decreases s.len(),
{
    if s.len() == 0 {
        ScanKind::AllValid
    } else if starts_valid(s) {
        scan_kind(s.skip(seq_len_spec(s[0])))
    } else if starts_incomplete(s) {
        ScanKind::Incomplete
    } else {
        ScanKind::Invalid
    }
}

/// How many leading bytes of `s` form whole valid sequences.
pub open spec fn scan_len(s: Seq<u8>) -> int
    decreases s.len(),
{
    if s.len() == 0 {
        0
    } else if starts_valid(s) {
        seq_len_spec(s[0]) + scan_len(s.skip(seq_len_spec(s[0])))
    } else {
        0
    }
}

/// `s` is a concatenation of whole valid sequences.
pub open spec fn is_utf8(s: Seq<u8>) -> bool {
    scan_kind(s) == ScanKind::AllValid
}

/// A scan that accepts everything accepts exactly the whole input.
pub proof fn lemma_scan_all_valid_len(s: Seq<u8>)
    ensures
        scan_kind(s) == ScanKind::AllValid ==> scan_len(s) == s.len(),
        scan_len(s) <= s.len(),
        scan_len(s) >= 0,
    decreases s.len(),
{
    if s.len() != 0 && starts_valid(s) {
        lemma_scan_all_valid_len(s.skip(seq_len_spec(s[0])));
    }
}

/// Prepending valid text does not change how a scan of the rest ends.
pub proof fn lemma_scan_concat(a: Seq<u8>, b: Seq<u8>)
    requires
        is_utf8(a),
    ensures
        scan_kind(a + b) == scan_kind(b),
        scan_len(a + b) == a.len() + scan_len(b),
    decreases a.len(),
{
    if a.len() == 0 {
        assert(a + b =~= b);
    } else {
        assert(starts_valid(a));
        let n = seq_len_spec(a[0]);
        let ab = a + b;
        assert(ab[0] == a[0]);
        assert(ab.len() >= n);
        if n >= 2 {
            assert(ab[1] == a[1]);
        }
        if n >= 3 {
            assert(ab[2] == a[2]);
        }
        if n >= 4 {
            assert(ab[3] == a[3]);
        }
        assert(starts_valid(ab));
        assert(ab.skip(n) =~= a.skip(n) + b);
        lemma_scan_concat(a.skip(n), b);
    }
}

/// The scanned prefix is valid text, and what follows it scans as the whole
/// sequence does.
pub proof fn lemma_scan_split(s: Seq<u8>)
    ensures
        is_utf8(s.take(scan_len(s))),
        scan_kind(s.skip(scan_len(s))) == scan_kind(s),
        scan_kind(s) != ScanKind::AllValid ==> scan_len(s.skip(scan_len(s))) == 0,
    decreases s.len(),
{
    lemma_scan_all_valid_len(s);
    if s.len() == 0 {
        assert(s.take(0) =~= s);
        assert(s.skip(0) =~= s);
    } else if starts_valid(s) {
        let n = seq_len_spec(s[0]);
        let t = s.skip(n);
        lemma_scan_all_valid_len(t);
        lemma_scan_split(t);
        let k = scan_len(t);
        let p = s.take(n + k);
        assert(p[0] == s[0]);
        if n >= 2 {
            assert(p[1] == s[1]);
        }
        if n >= 3 {
            assert(p[2] == s[2]);
        }
        if n >= 4 {
            assert(p[3] == s[3]);
        }
        assert(starts_valid(p));
        assert(p.skip(n) =~= t.take(k));
        assert(scan_kind(p) == scan_kind(t.take(k)));
        assert(s.skip(n + k) =~= t.skip(k));
    } else {
        assert(s.take(0) =~= Seq::<u8>::empty());
        assert(s.skip(0) =~= s);
    }
}

/// Two sequences that agree on the head sequence's bytes start alike.
pub proof fn lemma_starts_agree(a: Seq<u8>, b: Seq<u8>)
    requires
        a.len() >= 1,
        b.len() >= a.len(),
        a == b.take(a.len() as int),
        a.len() >= seq_len_spec(a[0]),
    ensures
        starts_valid(a) == starts_valid(b),
        !starts_incomplete(b),
        starts_valid(b) ==> seq_len_spec(b[0]) == seq_len_spec(a[0]),
{
    assert(a[0] == b[0]);
    if a.len() >= 2 {
        assert(a[1] == b[1]);
    }
    if a.len() >= 3 {
        assert(a[2] == b[2]);
    }
    if a.len() >= 4 {
        assert(a[3] == b[3]);
    }
}

/// A sequence that neither starts valid nor starts incomplete stays that way
/// under extension: the offending byte is among those already present.
pub proof fn lemma_invalid_extends(a: Seq<u8>, b: Seq<u8>)
    requires
        a.len() >= 1,
        b.len() >= a.len(),
        a == b.take(a.len() as int),
        !starts_valid(a),
        !starts_incomplete(a),
    ensures
        !starts_valid(b),
        !starts_incomplete(b),
        scan_kind(b) == ScanKind::Invalid,
        scan_len(b) == 0,
{
    assert(a[0] == b[0]);
    if a.len() >= 2 {
        assert(a[1] == b[1]);
    }
    if a.len() >= 3 {
        assert(a[2] == b[2]);
    }
    if a.len() >= 4 {
        assert(a[3] == b[3]);
    }
}

/// A single complete valid sequence is valid text of its own length.
pub proof fn lemma_one_valid_seq(s: Seq<u8>)
    requires
        is_valid_seq(s),
    ensures
        is_utf8(s),
        scan_len(s) == s.len(),
{
    assert(starts_valid(s));
    assert(s.skip(seq_len_spec(s[0])) =~= Seq::<u8>::empty());
    assert(scan_kind(Seq::<u8>::empty()) == ScanKind::AllValid);
    assert(scan_len(Seq::<u8>::empty()) == 0);
    assert(scan_kind(s) == scan_kind(s.skip(seq_len_spec(s[0]))));
    assert(scan_len(s) == seq_len_spec(s[0]) + scan_len(s.skip(seq_len_spec(s[0]))));
}

/// All bytes below 0x80 scan as valid text of the same length (the ASCII
/// pass-through law).
pub proof fn lemma_ascii_all_valid(s: Seq<u8>)
    requires
        forall|i: int| 0 <= i < s.len() ==> s[i] < 0x80,
    ensures
        is_utf8(s),
        scan_kind(s) == ScanKind::AllValid,
        scan_len(s) == s.len(),
    decreases s.len(),
{
    if s.len() != 0 {
        assert(starts_valid(s));
        assert(seq_len_spec(s[0]) == 1);
        lemma_ascii_all_valid(s.skip(1));
        lemma_scan_all_valid_len(s);
    }
}

/// The byte-range grammar agrees with `vstd`'s UTF-8 theory on a single
/// sequence: a head sequence accepted here is a well-formed scalar encoding
/// there, of the same length.
pub proof fn lemma_starts_valid_vstd(s: Seq<u8>)
    requires
        starts_valid(s),
    ensures
        vstd::utf8::valid_first_scalar(s),
        vstd::utf8::length_of_first_scalar(s) == seq_len_spec(s[0]),
{
    let b0 = s[0];
    if b0 < 0x80 {
        assert(((b0 & 0x7F) as u32) < 0xD800 && !(0xC0 <= b0 <= 0xDF)) by (bit_vector)
            requires
                b0 < 0x80,
        ;
    } else if 0xC2 <= b0 && b0 <= 0xDF {
        let b1 = s[1];
        assert({
            let cp = (((b0 & 0x1F) as u32) << 6) | ((b1 & 0x3F) as u32);
            0x80 <= cp <= 0x7FF
        }) by (bit_vector)
            requires
                0xC2 <= b0 <= 0xDF && 0x80 <= b1 <= 0xBF,
        ;
    } else if 0xE0 <= b0 && b0 <= 0xEF {
        let b1 = s[1];
        let b2 = s[2];
        assert(cont_ok(b0, 1, b1) && cont_ok(b0, 2, b2));
        assert({
            let cp = (((b0 & 0x0F) as u32) << 12) | (((b1 & 0x3F) as u32) << 6) | ((b2
                & 0x3F) as u32);
            0x800 <= cp <= 0xFFFF && !(0xD800 <= cp <= 0xDFFF)
        }) by (bit_vector)
            requires
                0xE0 <= b0 <= 0xEF && 0x80 <= b1 <= 0xBF && 0x80 <= b2 <= 0xBF && (b0 == 0xE0 ==> b1
                    >= 0xA0) && (b0 == 0xED ==> b1 <= 0x9F),
        ;
    } else {
        let b1 = s[1];
        let b2 = s[2];
        let b3 = s[3];
        assert(cont_ok(b0, 1, b1));
        assert({
            let cp = (((b0 & 0x07) as u32) << 18) | (((b1 & 0x3F) as u32) << 12) | (((b2
                & 0x3F) as u32) << 6) | ((b3 & 0x3F) as u32);
            0x10000 <= cp <= 0x10FFFF
        }) by (bit_vector)
            requires
                0xF0 <= b0 <= 0xF4 && 0x80 <= b1 <= 0xBF && 0x80 <= b2 <= 0xBF && 0x80 <= b3 <= 0xBF
                    && (b0 == 0xF0 ==> b1 >= 0x90) && (b0 == 0xF4 ==> b1 <= 0x8F),
        ;
    }
}

/// Everything this module's scan accepts, `vstd`'s UTF-8 theory accepts.
pub proof fn lemma_is_utf8_valid_utf8(s: Seq<u8>)
    requires
        is_utf8(s),
    ensures
        vstd::utf8::valid_utf8(s),
    decreases s.len(),
{
    if s.len() != 0 {
        assert(starts_valid(s));
        lemma_starts_valid_vstd(s);
        let n = seq_len_spec(s[0]);
        assert(vstd::utf8::pop_first_scalar(s) =~= s.skip(n));
        lemma_is_utf8_valid_utf8(s.skip(n));
    }
}

/// The converse: a head sequence that `vstd`'s UTF-8 theory accepts, this
/// grammar accepts too.
pub proof fn lemma_vstd_starts_valid(s: Seq<u8>)
    requires
        vstd::utf8::valid_first_scalar(s),
    ensures
        starts_valid(s),
        seq_len_spec(s[0]) == vstd::utf8::length_of_first_scalar(s),
{
    let b0 = s[0];
    if vstd::utf8::is_leading_byte_width_1(b0) {
    } else if vstd::utf8::is_leading_byte_width_2(b0) {
        let b1 = s[1];
        assert(0xC2 <= b0) by (bit_vector)
            requires
                0xC0 <= b0 <= 0xDF && 0x80 <= b1 <= 0xBF && ((((b0 & 0x1F) as u32) << 6) | ((b1
                    & 0x3F) as u32)) >= 0x80,
        ;
    } else if vstd::utf8::is_leading_byte_width_3(b0) {
        let b1 = s[1];
        let b2 = s[2];
        assert((b0 == 0xE0 ==> 0xA0 <= b1) && (b0 == 0xED ==> b1 <= 0x9F)) by (bit_vector)
            requires
                0xE0 <= b0 <= 0xEF && 0x80 <= b1 <= 0xBF && 0x80 <= b2 <= 0xBF && ((((b0
                    & 0x0F) as u32) << 12) | (((b1 & 0x3F) as u32) << 6) | ((b2 & 0x3F) as u32))
                    >= 0x800 && !(0xD800 <= ((((b0 & 0x0F) as u32) << 12) | (((b1
                    & 0x3F) as u32) << 6) | ((b2 & 0x3F) as u32)) <= 0xDFFF),
        ;
        assert(cont_ok(b0, 1, b1) && cont_ok(b0, 2, b2));
    } else {
        let b1 = s[1];
        let b2 = s[2];
        let b3 = s[3];
        assert(b0 <= 0xF4 && (b0 == 0xF0 ==> 0x90 <= b1) && (b0 == 0xF4 ==> b1 <= 0x8F))
            by (bit_vector)
            requires
                0xF0 <= b0 <= 0xF7 && 0x80 <= b1 <= 0xBF && 0x80 <= b2 <= 0xBF && 0x80 <= b3 <= 0xBF
                    && 0x10000 <= ((((b0 & 0x07) as u32) << 18) | (((b1 & 0x3F) as u32) << 12) | ((
                (b2 & 0x3F) as u32) << 6) | ((b3 & 0x3F) as u32)) <= 0x10FFFF,
        ;
        assert(cont_ok(b0, 1, b1));
    }
}

/// The byte-range grammar and `vstd`'s independent UTF-8 theory accept
/// exactly the same byte sequences.
pub proof fn lemma_is_utf8_iff_valid_utf8(s: Seq<u8>)
    ensures
        is_utf8(s) <==> vstd::utf8::valid_utf8(s),
    decreases s.len(),
{
    if s.len() != 0 {
        if is_utf8(s) {
            lemma_is_utf8_valid_utf8(s);
        }
        if vstd::utf8::valid_utf8(s) {
            lemma_vstd_starts_valid(s);
            let n = seq_len_spec(s[0]);
            assert(vstd::utf8::pop_first_scalar(s) =~= s.skip(n));
            lemma_is_utf8_iff_valid_utf8(s.skip(n));
        }
    }
}

/// The ASCII pass-through law, stated against the decoder's contract: with
/// nothing pending, a buffer of single-byte (ASCII-range) values is always
/// answered in place, covering the whole buffer, with nothing stashed.
pub proof fn lemma_ascii_pass_through(
    inp: Seq<u8>,
    post: Seq<u8>,
    r: Result<Decoded, DecodeError>,
)
    requires
        forall|i: int| 0 <= i < inp.len() ==> inp[i] < 0x80,
        decode_post(Seq::empty(), inp, post, r),
    ensures
        r matches Ok(d) && d matches Decoded::InPlace(n) && n == inp.len(),
        post.len() == 0,
{
    lemma_ascii_all_valid(inp);
}

/// Reports the sequence length announced by a leading byte.
fn seq_len_of(b: u8) -> (n: usize)
    ensures
        n == seq_len_spec(b),
        1 <= n <= 4,
{
    if b < 0x80 {
        1
    } else if 0xC2 <= b && b <= 0xDF {
        2
    } else if 0xE0 <= b && b <= 0xEF {
        3
    } else if 0xF0 <= b && b <= 0xF4 {
        4
    } else {
        1
    }
}

/// Reports whether `b` may continue a sequence led by `lead` at position 1.
fn cont1_ok(lead: u8, b: u8) -> (r: bool)
    ensures
        r == cont_ok(lead, 1, b),
{
    if lead == 0xE0 {
        0xA0 <= b && b <= 0xBF
    } else if lead == 0xED {
        0x80 <= b && b <= 0x9F
    } else if lead == 0xF0 {
        0x90 <= b && b <= 0xBF
    } else if lead == 0xF4 {
        0x80 <= b && b <= 0x8F
    } else {
        0x80 <= b && b <= 0xBF
    }
}

fn invalid_error() -> (e: DecodeError)
    ensures
        e.kind_spec() == DecodeErrorKind::InvalidInput,
{
    DecodeError::new(DecodeErrorKind::InvalidInput, 0, "stream did not contain valid UTF-8")
}

/// Validates the sequence at the front of `s`, bounds-checked: reports its
/// length if it is complete and valid, 0 if `s` is a conforming proper
/// prefix of a longer sequence, and an invalid-sequence error otherwise.
pub fn validate_next(s: &[u8]) -> (r: Result<usize, DecodeError>)
    requires
        s@.len() >= 1,
    ensures
        match r {
            Ok(n) => (n > 0 && starts_valid(s@) && n == seq_len_spec(s@[0])) || (n == 0
                && starts_incomplete(s@)),
            Err(e) => !starts_valid(s@) && !starts_incomplete(s@) && e.kind_spec()
                == DecodeErrorKind::InvalidInput,
        },
{
    let b0 = s[0];
    if b0 < 0x80 {
        return Ok(1);
    }
    let need = seq_len_of(b0);
    if need == 1 {
        // a continuation byte or other impossible leading byte
        return Err(invalid_error());
    }
    if s.len() < 2 {
        return Ok(0);
    }
    if !cont1_ok(b0, s[1]) {
        return Err(invalid_error());
    }
    if need == 2 {
        return Ok(2);
    }
    if s.len() < 3 {
        return Ok(0);
    }
    let b2 = s[2];
    if !(0x80 <= b2 && b2 <= 0xBF) {
        return Err(invalid_error());
    }
    if need == 3 {
        return Ok(3);
    }
    if s.len() < 4 {
        return Ok(0);
    }
    let b3 = s[3];
    if !(0x80 <= b3 && b3 <= 0xBF) {
        return Err(invalid_error());
    }
    Ok(4)
}

/// Validates the sequence at the front of a window that is known to hold at
/// least one whole sequence, without bounds checks: reports its length, or
/// an invalid-sequence error.  Used by the bulk fast path.
pub fn validate_next_bulk(s: &[u8]) -> (r: Result<usize, DecodeError>)
    requires
        s@.len() == 4,
    ensures
        match r {
            Ok(n) => starts_valid(s@) && n == seq_len_spec(s@[0]),
            Err(e) => !starts_valid(s@) && e.kind_spec() == DecodeErrorKind::InvalidInput,
        },
{
    let b0 = s[0];
    if b0 < 0x80 {
        return Ok(1);
    }
    let need = seq_len_of(b0);
    if need == 1 {
        return Err(invalid_error());
    }
    if !cont1_ok(b0, s[1]) {
        return Err(invalid_error());
    }
    if need == 2 {
        return Ok(2);
    }
    let b2 = s[2];
    if !(0x80 <= b2 && b2 <= 0xBF) {
        return Err(invalid_error());
    }
    if need == 3 {
        return Ok(3);
    }
    let b3 = s[3];
    if !(0x80 <= b3 && b3 <= 0xBF) {
        return Err(invalid_error());
    }
    Ok(4)
}

/// Reports whether `s` consists entirely of whole valid sequences.
pub fn utf8_check(s: &[u8]) -> (b: bool)
    ensures
        b == is_utf8(s@),
{
    let mut i: usize = 0;
    proof {
        assert(s@.skip(0) =~= s@);
    }
    while i < s.len()
        invariant
            i <= s@.len(),
            scan_kind(s@) == scan_kind(s@.skip(i as int)),
        decreases s@.len() - i,
    {
        let t = slice_subrange(s, i, s.len());
        proof {
            assert(t@ =~= s@.skip(i as int));
        }
        match validate_next(t) {
            Ok(n) => {
                if n == 0 {
                    return false;
                }
                proof {
                    assert(s@.skip(i as int).skip(seq_len_spec(s@.skip(i as int)[0])) =~= s@.skip(
                        i + n,
                    ));
                }
                i = i + n;
            },
            Err(_) => {
                return false;
            },
        }
    }
    proof {
        assert(s@.skip(i as int) =~= Seq::<u8>::empty());
    }
    true
}

/// Copies the first `n` bytes of `v`.
pub(crate) fn copy_prefix(v: &Vec<u8>, n: usize) -> (r: Vec<u8>)
    requires
        n <= v@.len(),
    ensures
        r@ == v@.take(n as int),
{
    let mut r: Vec<u8> = Vec::new();
    let mut i: usize = 0;
    while i < n
        invariant
            i <= n <= v@.len(),
            r@ == v@.take(i as int),
        decreases n - i,
    {
        r.push(v[i]);
        assert(r@ =~= v@.take(i + 1));
        i = i + 1;
    }
    r
}

/// The UTF-8 decoder.  It owns a small "stitch" buffer holding the bytes of
/// a sequence that arrived split across chunk boundaries; the buffer never
/// holds more than one sequence, so it never exceeds four bytes.
pub struct Utf8 {
    stitch: Vec<u8>,
}

/// The full behavior of one `Utf8::decode` call, as a relation between the
/// pending bytes before the call (`pre`), the input chunk (`inp`), the
/// pending bytes after the call (`post`), and the result.
pub open spec fn decode_post(
    pre: Seq<u8>,
    inp: Seq<u8>,
    post: Seq<u8>,
    r: Result<Decoded, DecodeError>,
) -> bool {
    if pre.len() > 0 {
        if inp.len() == 0 {
            if pre.len() == seq_len_spec(pre[0]) {
                // a completed sequence still awaiting `consume`
                post == pre && match r {
                    Ok(Decoded::Materialized(c, out)) => c == 0 && out@ == pre,
                    _ => false,
                }
            } else {
                // end-of-stream with a dangling partial sequence
                post == pre && match r {
                    Err(e) => e.kind_spec() == DecodeErrorKind::PartialInput,
                    _ => false,
                }
            }
        } else {
            let need = seq_len_spec(pre[0]) - pre.len();
            let take_n = if need <= inp.len() { need } else { inp.len() as int };
            let comb = pre + inp.take(take_n);
            if starts_incomplete(comb) {
                // still incomplete: the copied bytes join the stitch buffer
                post == comb && match r {
                    Ok(Decoded::Materialized(c, out)) => c == take_n && out@ == Seq::<u8>::empty(),
                    _ => false,
                }
            } else if is_valid_seq(comb) {
                // the split sequence is complete and valid
                post == comb && match r {
                    Ok(Decoded::Materialized(c, out)) => c == take_n && out@ == comb,
                    _ => false,
                }
            } else {
                // invalid: roll the stitch buffer back to its pre-call state
                post == pre && match r {
                    Err(e) => e.kind_spec() == DecodeErrorKind::InvalidInput,
                    _ => false,
                }
            }
        }
    } else {
        let k = scan_len(inp);
        let kind = scan_kind(inp);
        if kind == ScanKind::AllValid {
            post == pre && match r {
                Ok(Decoded::InPlace(n)) => n == inp.len(),
                _ => false,
            }
        } else if k > 0 {
            // a valid prefix passes through; the troublesome tail is left
            // unconsumed for the next call
            post == pre && match r {
                Ok(Decoded::InPlace(n)) => n == k,
                _ => false,
            }
        } else if kind == ScanKind::Incomplete {
            // the whole input is one incomplete sequence: stash it
            post == inp && match r {
                Ok(Decoded::Materialized(c, out)) => c == inp.len() && out@ == Seq::<u8>::empty(),
                _ => false,
            }
        } else {
            post == pre && match r {
                Err(e) => e.kind_spec() == DecodeErrorKind::InvalidInput,
                _ => false,
            }
        }
    }
}

impl Utf8 {
    /// The bytes of the sequence currently held in the stitch buffer.
    pub closed spec fn pending(&self) -> Seq<u8> {
        self.stitch@
    }

    /// The stitch buffer holds at most one sequence, every byte of it
    /// conforming to the grammar so far.
    pub open spec fn wf(&self) -> bool {
        self.pending().len() == 0 || (self.pending().len() <= seq_len_spec(self.pending()[0])
            && prefix_ok(self.pending(), self.pending().len() as int))
    }

    /// The stitch buffer holds one whole valid sequence.
    pub open spec fn pending_complete(&self) -> bool {
        self.pending().len() > 0 && self.pending().len() == seq_len_spec(self.pending()[0])
    }

    /// What `output` returns: the stitch buffer when complete, else nothing.
    pub open spec fn output_spec(&self) -> Seq<u8> {
        if self.pending_complete() {
            self.pending()
        } else {
            Seq::empty()
        }
    }

    pub fn new() -> (d: Utf8)
        ensures
            d.wf(),
            d.pending().len() == 0,
    {
        Utf8 { stitch: Vec::new() }
    }

    /// Copies from `input` into the stitch buffer as many bytes as the
    /// pending sequence still needs, bounded by what is available, and
    /// reports how many were copied.
    fn take_partial(&mut self, input: &[u8]) -> (n: usize)
        requires
            input@.len() >= 1,
            old(self).wf(),
        ensures
            ({
                let head = if old(self).pending().len() == 0 {
                    input@[0]
                } else {
                    old(self).pending()[0]
                };
                let need = seq_len_spec(head) - old(self).pending().len();
                &&& n == if need <= input@.len() {
                    need
                } else {
                    input@.len() as int
                }
                &&& final(self).pending() == old(self).pending() + input@.take(n as int)
            }),
    {
        let have = self.stitch.len();
        let head = if have == 0 {
            input[0]
        } else {
            self.stitch[0]
        };
        let need = seq_len_of(head);
        let want = need - have;
        let avail = input.len();
        let take_n = if want <= avail {
            want
        } else {
            avail
        };
        let mut j: usize = 0;
        while j < take_n
            invariant
                j <= take_n <= input@.len(),
                self.stitch@ == old(self).pending() + input@.take(j as int),
            decreases take_n - j,
        {
            self.stitch.push(input[j]);
            assert(self.stitch@ =~= old(self).pending() + input@.take(j + 1));
            j = j + 1;
        }
        take_n
    }

    /// Validate as much of `input` as possible: complete a pending split
    /// sequence first, then run a bulk fast path over whole 4-byte windows,
    /// then scan the tail with bounds checks.
    pub fn decode(&mut self, input: &[u8]) -> (r: Result<Decoded, DecodeError>)
        requires
            old(self).wf(),
        ensures
            final(self).wf(),
            decode_post(old(self).pending(), input@, final(self).pending(), r),
    {
        if self.stitch.len() != 0 {
            if input.len() == 0 {
                let out = self.output();
                if out.len() == 0 {
                    return Err(
                        DecodeError::new(
                            DecodeErrorKind::PartialInput,
                            0,
                            "input ends with an incomplete UTF-8 sequence",
                        ),
                    );
                }
                return Decoded::some(0, out);
            }
            // Try to complete the accumulated partial sequence
            let partial_len = self.take_partial(input);
            let vr = validate_next(self.stitch.as_slice());
            match vr {
                Ok(len) => {
                    if len == 0 {
                        // still incomplete; nothing to show yet
                        return Decoded::some(partial_len, Vec::new());
                    }
                    assert(len == self.stitch@.len());
                    let out = copy_prefix(&self.stitch, len);
                    assert(out@ =~= self.stitch@);
                    return Decoded::some(partial_len, out);
                },
                Err(e) => {
                    let new_len = self.stitch.len() - partial_len;
                    self.stitch.truncate(new_len);
                    assert(self.stitch@ =~= old(self).pending());
                    return Err(e);
                },
            }
        }
        let ghost inp = input@;
        let mut i: usize = 0;
        proof {
            assert(inp.skip(0) =~= inp);
        }
        // Bulk fast path: whole 4-byte windows need no bounds checks
        while input.len() - i >= 4
            invariant
                self.stitch@.len() == 0,
                self == old(self),
                i <= inp.len(),
                inp == input@,
                scan_kind(inp) == scan_kind(inp.skip(i as int)),
                scan_len(inp) == i + scan_len(inp.skip(i as int)),
            decreases input.len() - i,
        {
            let w = slice_subrange(input, i, i + 4);
            let ghost t = inp.skip(i as int);
            proof {
                assert(w@ =~= t.take(4));
                lemma_starts_agree(w@, t);
            }
            match validate_next_bulk(w) {
                Ok(n) => {
                    proof {
                        assert(t.skip(seq_len_spec(t[0])) =~= inp.skip(i + n));
                    }
                    i = i + n;
                },
                Err(e) => {
                    proof {
                        lemma_invalid_extends(w@, t);
                    }
                    if i == 0 {
                        return Err(e);
                    }
                    return Decoded::in_place(i);
                },
            }
        }
        // Tail scan, bounds-checked
        while i < input.len()
            invariant
                self.stitch@.len() == 0,
                self == old(self),
                i <= inp.len(),
                inp == input@,
                scan_kind(inp) == scan_kind(inp.skip(i as int)),
                scan_len(inp) == i + scan_len(inp.skip(i as int)),
            decreases input.len() - i,
        {
            let t = slice_subrange(input, i, input.len());
            proof {
                assert(t@ =~= inp.skip(i as int));
            }
            match validate_next(t) {
                Ok(n) => {
                    if n == 0 {
                        if i != 0 {
                            // an incomplete sequence at the end, but there is
                            // some validated UTF-8 to hand through in place
                            return Decoded::in_place(i);
                        }
                        // an incomplete input sequence and nothing validated:
                        // accumulate it in the stitch buffer
                        let partial_len = self.take_partial(input);
                        assert(self.stitch@ =~= inp);
                        return Decoded::some(partial_len, Vec::new());
                    }
                    proof {
                        assert(inp.skip(i as int).skip(seq_len_spec(inp.skip(i as int)[0]))
                            =~= inp.skip(i + n));
                    }
                    i = i + n;
                },
                Err(e) => {
                    if i == 0 {
                        return Err(e);
                    }
                    return Decoded::in_place(i);
                },
            }
        }
        proof {
            assert(inp.skip(i as int) =~= Seq::<u8>::empty());
            lemma_scan_all_valid_len(inp);
        }
        Decoded::in_place(i)
    }

    /// The materialized decoded bytes: the stitch buffer once it holds a
    /// complete sequence, empty while it is still short of one.
    pub fn output(&self) -> (out: Vec<u8>)
        ensures
            out@ == self.output_spec(),
    {
        let have = self.stitch.len();
        if have == 0 {
            return Vec::new();
        }
        let complete_len = seq_len_of(self.stitch[0]);
        if have != complete_len {
            return Vec::new();
        }
        let out = copy_prefix(&self.stitch, have);
        assert(out@ =~= self.stitch@);
        out
    }

    /// Clears the stitch buffer unconditionally; callers must not call this
    /// before draining `output`.
    pub fn consume(&mut self)
        ensures
            final(self).wf(),
            final(self).pending().len() == 0,
    {
        self.stitch.clear();
    }

    /// Returns the decoder to its initial state, discarding partial state.
    pub fn reset(&mut self)
        ensures
            final(self).wf(),
            final(self).pending().len() == 0,
    {
        self.stitch.clear();
    }
}

impl Decode for Utf8 {
    closed spec fn pending(&self) -> Seq<u8> {
        self.stitch@
    }

    open spec fn inv(&self) -> bool {
        self.wf()
    }

    open spec fn output_spec(&self) -> Seq<u8> {
        Utf8::output_spec(self)
    }

    open spec fn valid_text(s: Seq<u8>) -> bool {
        is_utf8(s)
    }

    fn decode(&mut self, input: &[u8]) -> (r: Result<Decoded, DecodeError>) {
        let ghost pre = self.stitch@;
        let r = Utf8::decode(self, input);
        proof {
            let inp = input@;
            if pre.len() > 0 && inp.len() > 0 {
                let need = seq_len_spec(pre[0]) - pre.len();
                let take_n = if need <= inp.len() {
                    need
                } else {
                    inp.len() as int
                };
                let comb = pre + inp.take(take_n);
                if is_valid_seq(comb) && !starts_incomplete(comb) {
                    lemma_one_valid_seq(comb);
                }
            }
            if pre.len() > 0 && inp.len() == 0 && pre.len() == seq_len_spec(pre[0]) {
                lemma_one_valid_seq(pre);
            }
            if pre.len() == 0 {
                lemma_scan_split(inp);
                lemma_scan_all_valid_len(inp);
                if scan_kind(inp) == ScanKind::AllValid {
                    assert(inp.take(inp.len() as int) =~= inp);
                }
            }
        }
        r
    }

    fn output(&self) -> (out: Vec<u8>) {
        let out = Utf8::output(self);
        proof {
            if self.pending_complete() {
                lemma_one_valid_seq(self.stitch@);
            }
        }
        out
    }

    fn consume(&mut self) {
        Utf8::consume(self);
    }

    fn reset(&mut self) {
        Utf8::reset(self);
    }
}

} // verus!
