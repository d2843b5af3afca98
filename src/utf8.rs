//! The 8-bit variant: text is UTF-8, a delimiter is one byte that can never
//! begin a well-formed UTF-8 sequence.

use vstd::prelude::*;
use vstd::utf8::*;
use crate::codec::Codec;
use crate::encodings::{Decoder, Encoder, Encoding};
use crate::text::{Attempt, lead_with, attempt_view, char_from_u32, lemma_lead_with_twice, lemma_lead_with_nothing};

verus! {

/// The bytes from index `i` to the end.
pub open spec fn tail(b: Seq<u8>, i: int) -> Seq<u8> {
    b.subrange(i, b.len() as int)
}

/// Whether `b1` may follow the lead byte `b0` in a well-formed sequence.
pub open spec fn second_byte_fits(b0: u8, b1: u8) -> bool {
    if b0 == 0xe0 {
        0xa0 <= b1 <= 0xbf
    } else if b0 == 0xed {
        0x80 <= b1 <= 0x9f
    } else if b0 == 0xf0 {
        0x90 <= b1 <= 0xbf
    } else if b0 == 0xf4 {
        0x80 <= b1 <= 0x8f
    } else {
        is_continuation_byte(b1)
    }
}

/// The number of bytes of a well-formed sequence that starts with `b0`
/// (zero when no well-formed multi-byte sequence starts with it).
pub open spec fn multi_byte_width(b0: u8) -> int {
    if 0xc2 <= b0 <= 0xdf {
        2
    } else if 0xe0 <= b0 <= 0xef {
        3
    } else if 0xf0 <= b0 <= 0xf4 {
        4
    } else {
        0
    }
}

/// `b` is a non-empty proper prefix of a well-formed multi-byte sequence:
/// more bytes could still complete it.
pub open spec fn truncated(b: Seq<u8>) -> bool {
    &&& 1 <= b.len() < multi_byte_width(b[0])
    &&& b.len() >= 2 ==> second_byte_fits(b[0], b[1])
    &&& b.len() >= 3 ==> is_continuation_byte(b[2])
}

/// Strict UTF-8 decoding of `b`. A well-formed prefix followed by a truncated
/// sequence decodes to that prefix (more bytes are needed); anything else
/// that is not well formed fails at the index of its first byte.
pub open spec fn scan(b: Seq<u8>) -> Attempt
    decreases b.len(),
{
    if b.len() == 0 {
        Ok(Seq::empty())
    } else if valid_first_scalar(b) {
        lead_with(
            seq![decode_first_scalar(b) as char],
            length_of_first_scalar(b),
            scan(pop_first_scalar(b)),
        )
    } else if truncated(b) {
        Ok(Seq::empty())
    } else {
        Err((Seq::empty(), 0))
    }
}

proof fn lemma_codepoint_bounds(b0: u8, b1: u8, b2: u8)
    ensures
        codepoint_width_1(b0) <= 0x7f,
        codepoint_width_2(b0, b1) <= 0x7ff,
        codepoint_width_3(b0, b1, b2) <= 0xffff,
{
    assert(((b0 & 0x7f) as u32) <= 0x7f) by (bit_vector);
    assert((((b0 & 0x1f) as u32) << 6) | ((b1 & 0x3f) as u32) <= 0x7ff) by (bit_vector);
    assert((((b0 & 0x0f) as u32) << 12) | (((b1 & 0x3f) as u32) << 6) | ((b2 & 0x3f) as u32)
        <= 0xffff) by (bit_vector);
}

/// The scalar that starts at index `i`, with its length in bytes; the length
/// is zero where no well-formed scalar starts there.
fn scalar_at(b: &[u8], i: usize) -> (r: (u32, usize))
    requires
        i < b@.len(),
    ensures
        (r.1 > 0) == valid_first_scalar(tail(b@, i as int)),
        r.1 > 0 ==> r.0 == decode_first_scalar(tail(b@, i as int)) && r.1 as int
            == length_of_first_scalar(tail(b@, i as int)) && is_scalar(r.0),
{
    let ghost t = tail(b@, i as int);
    let n = b.len() - i;
    let b0 = b[i];
    let cp: u32;
    let width: usize;
    if b0 <= 0x7f {
        cp = (b0 & 0x7f) as u32;
        width = 1;
    } else if 0xc0 <= b0 && b0 <= 0xdf && n >= 2 && 0x80 <= b[i + 1] && b[i + 1] <= 0xbf {
        cp = (((b0 & 0x1f) as u32) << 6) | ((b[i + 1] & 0x3f) as u32);
        width = 2;
    } else if 0xe0 <= b0 && b0 <= 0xef && n >= 3 && 0x80 <= b[i + 1] && b[i + 1] <= 0xbf
        && 0x80 <= b[i + 2] && b[i + 2] <= 0xbf {
        cp = (((b0 & 0x0f) as u32) << 12) | (((b[i + 1] & 0x3f) as u32) << 6) | ((b[i + 2]
            & 0x3f) as u32);
        width = 3;
    } else if 0xf0 <= b0 && b0 <= 0xf7 && n >= 4 && 0x80 <= b[i + 1] && b[i + 1] <= 0xbf
        && 0x80 <= b[i + 2] && b[i + 2] <= 0xbf && 0x80 <= b[i + 3] && b[i + 3] <= 0xbf {
        cp = (((b0 & 0x07) as u32) << 18) | (((b[i + 1] & 0x3f) as u32) << 12) | (((b[i + 2]
            & 0x3f) as u32) << 6) | ((b[i + 3] & 0x3f) as u32);
        width = 4;
    } else {
        return (0, 0);
    }
    proof {
        if n >= 3 {
            lemma_codepoint_bounds(t[0], t[1], t[2]);
        } else if n >= 2 {
            lemma_codepoint_bounds(t[0], t[1], 0);
        } else {
            lemma_codepoint_bounds(t[0], 0, 0);
        }
    }
    let overlong = (width == 2 && cp < 0x80) || (width == 3 && cp < 0x800) || (width == 4 && (
    cp < 0x10000 || cp > 0x10ffff));
    let surrogate = 0xd800 <= cp && cp <= 0xdfff;
    if overlong || surrogate {
        (0, 0)
    } else {
        (cp, width)
    }
}

/// Whether the bytes from index `i` on are a truncated sequence.
fn truncated_at(b: &[u8], i: usize) -> (r: bool)
    requires
        i < b@.len(),
    ensures
        r == truncated(tail(b@, i as int)),
{
    let n = b.len() - i;
    let b0 = b[i];
    let width: usize = if 0xc2 <= b0 && b0 <= 0xdf {
        2
    } else if 0xe0 <= b0 && b0 <= 0xef {
        3
    } else if 0xf0 <= b0 && b0 <= 0xf4 {
        4
    } else {
        0
    };
    if n >= width {
        return false;
    }
    if n >= 2 {
        let b1 = b[i + 1];
        let fits = if b0 == 0xe0 {
            0xa0 <= b1 && b1 <= 0xbf
        } else if b0 == 0xed {
            0x80 <= b1 && b1 <= 0x9f
        } else if b0 == 0xf0 {
            0x90 <= b1 && b1 <= 0xbf
        } else if b0 == 0xf4 {
            0x80 <= b1 && b1 <= 0x8f
        } else {
            0x80 <= b1 && b1 <= 0xbf
        };
        if !fits {
            return false;
        }
    }
    if n >= 3 {
        let b2 = b[i + 2];
        if !(0x80 <= b2 && b2 <= 0xbf) {
            return false;
        }
    }
    true
}

/// Decodes `b` as UTF-8 as far as it goes; see [`scan`].
pub fn scan_bytes(b: &[u8]) -> (r: Result<Vec<char>, (Vec<char>, usize)>)
    ensures
        attempt_view(r) == scan(b@),
{
    let mut out: Vec<char> = Vec::new();
    let mut i: usize = 0;
    proof {
        assert(tail(b@, 0) =~= b@);
        lemma_lead_with_nothing(scan(b@));
    }
    while i < b.len()
        invariant
            0 <= i <= b@.len(),
            scan(b@) == lead_with(out@, i as int, scan(tail(b@, i as int))),
        decreases b@.len() - i,
    {
        let ghost t = tail(b@, i as int);
        let (cp, width) = scalar_at(b, i);
        if width == 0 {
            if truncated_at(b, i) {
                assert(out@ + Seq::<char>::empty() =~= out@);
                return Ok(out);
            } else {
                assert(out@ + Seq::<char>::empty() =~= out@);
                return Err((out, i));
            }
        }
        match char_from_u32(cp) {
            Some(c) => {
                proof {
                    assert(pop_first_scalar(t) =~= tail(b@, i + width));
                    assert(scan(t) == lead_with(seq![c], width as int, scan(tail(b@, i + width))));
                    assert(out@.push(c) =~= out@ + seq![c]);
                    lemma_lead_with_twice(out@, i as int, seq![c], width as int,
                        scan(tail(b@, i + width)));
                }
                out.push(c);
                i = i + width;
            },
            None => {
                return Err((out, i));
            },
        }
    }
    proof {
        assert(out@ + Seq::<char>::empty() =~= out@);
    }
    Ok(out)
}

} // verus!

verus! {

/// Decoding the encoding of `cs` followed by `rest` yields `cs` followed by
/// whatever `rest` decodes to.
pub proof fn lemma_scan_encoded(cs: Seq<char>, rest: Seq<u8>)
    ensures
        scan(encode_utf8(cs) + rest) == lead_with(cs, encode_utf8(cs).len() as int, scan(rest)),
    decreases cs.len(),
{
    if cs.len() == 0 {
        assert(encode_utf8(cs) + rest =~= rest);
        lemma_lead_with_nothing(scan(rest));
    } else {
        let x = encode_utf8(cs);
        let e = x + rest;
        let first = encode_scalar(cs[0] as u32);
        let k = first.len() as int;
        encode_utf8_first_scalar(cs);
        assert(x == first + encode_utf8(cs.drop_first()));
        assert(1 <= k <= 4);
        assert(forall|j: int| 0 <= j < x.len() ==> e[j] == x[j]);
        assert(valid_first_scalar(e));
        assert(decode_first_scalar(e) == decode_first_scalar(x));
        assert(length_of_first_scalar(e) == k);
        assert(pop_first_scalar(e) =~= encode_utf8(cs.drop_first()) + rest);
        lemma_scan_encoded(cs.drop_first(), rest);
        char_u32_cast(cs[0], cs[0] as u32);
        lemma_lead_with_twice(seq![cs[0]], k, cs.drop_first(),
            encode_utf8(cs.drop_first()).len() as int, scan(rest));
        assert(seq![cs[0]] + cs.drop_first() =~= cs);
    }
}

} // verus!

verus! {

/// The characters of a string.
pub fn chars_of(s: &str) -> (r: Vec<char>)
    ensures
        r@ == s@,
{
    let b = s.as_bytes();
    proof {
        lemma_scan_encoded(s@, Seq::empty());
        assert(encode_utf8(s@) + Seq::<u8>::empty() =~= encode_utf8(s@));
        assert(s@ + Seq::<char>::empty() =~= s@);
    }
    match scan_bytes(b) {
        Ok(cs) => cs,
        Err((cs, _)) => cs,
    }
}

} // verus!

verus! {

/// Writes UTF-8 BadSV text and delimiters.
pub struct Utf8Encoder {
    size: usize,
}

/// Reads UTF-8 BadSV text.
pub struct Utf8Decoder {
    size: usize,
}

impl Utf8Encoder {
    #[verifier::type_invariant]
    spec fn well_formed(&self) -> bool {
        self.size == 1
    }

    /// An encoder for the 8-bit variant.
    pub fn new() -> (r: Self) {
        Utf8Encoder { size: 1 }
    }
}

impl Utf8Decoder {
    #[verifier::type_invariant]
    spec fn well_formed(&self) -> bool {
        self.size == 1
    }

    /// A decoder for the 8-bit variant.
    pub fn new() -> (r: Self) {
        Utf8Decoder { size: 1 }
    }
}

impl Encoding for Utf8Encoder {
    open spec fn codec(&self) -> Codec {
        Codec::Utf8
    }

    fn size(&self) -> (r: usize) {
        proof {
            use_type_invariant(self);
        }
        self.size
    }
}

impl Encoding for Utf8Decoder {
    open spec fn codec(&self) -> Codec {
        Codec::Utf8
    }

    fn size(&self) -> (r: usize) {
        proof {
            use_type_invariant(self);
        }
        self.size
    }
}

impl Encoder for Utf8Encoder {
    fn encode(&self, data: &str) -> (r: Vec<u8>) {
        Codec::Utf8.encode(data)
    }

    fn get_delimiter(&self) -> (r: Vec<u8>) {
        Codec::Utf8.get_delimiter()
    }
}

impl Decoder for Utf8Decoder {
    fn try_decode(&self, bytes: &[u8]) -> (r: Result<String, (String, usize)>) {
        Codec::Utf8.try_decode(bytes)
    }
}

} // verus!
