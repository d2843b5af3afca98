//! The 16-bit variant: text is UTF-16 in big-endian order, a delimiter is one
//! low surrogate, which can never begin a surrogate pair.
//!
//! Decoding is strict rather than lossy: no replacement character is ever
//! produced, so a U+FFFD that the text itself holds is ordinary text and can
//! never be taken for a delimiter.

use vstd::prelude::*;
use crate::codec::Codec;
use crate::encodings::{Decoder, Encoder, Encoding};
use crate::text::{Attempt, lead_with, attempt_view, char_from_u32, lemma_lead_with_twice, lemma_lead_with_nothing};

verus! {

/// The value of the big-endian unit that starts at byte `i`.
pub open spec fn unit_at(b: Seq<u8>, i: int) -> int {
    b[i] as int * 0x100 + b[i + 1] as int
}

/// The whole units of `b`; a trailing odd byte is left out.
pub open spec fn units(b: Seq<u8>) -> Seq<int> {
    Seq::new(b.len() / 2, |k: int| unit_at(b, 2 * k))
}

pub open spec fn is_high(u: int) -> bool {
    0xd800 <= u <= 0xdbff
}

pub open spec fn is_low(u: int) -> bool {
    0xdc00 <= u <= 0xdfff
}

/// The scalar value of the surrogate pair `hi`, `lo`.
pub open spec fn pair_value(hi: int, lo: int) -> int {
    0x10000 + (hi - 0xd800) * 0x400 + (lo - 0xdc00)
}

/// Decoding of UTF-16 units. A unit that is no surrogate is a character; a
/// high surrogate followed by a low one is a character; a high surrogate at
/// the very end needs more units; any other surrogate is invalid.
pub open spec fn scan(u: Seq<int>) -> Attempt
    decreases u.len(),
{
    if u.len() == 0 {
        Ok(Seq::empty())
    } else if !is_high(u[0]) && !is_low(u[0]) {
        lead_with(seq![u[0] as u32 as char], 1, scan(u.drop_first()))
    } else if is_high(u[0]) && u.len() == 1 {
        Ok(Seq::empty())
    } else if is_high(u[0]) && is_low(u[1]) {
        lead_with(seq![pair_value(u[0], u[1]) as u32 as char], 2, scan(u.skip(2)))
    } else {
        Err((Seq::empty(), 0))
    }
}

/// The two big-endian bytes of the unit `v`.
pub open spec fn unit_bytes(v: int) -> Seq<u8> {
    seq![(v / 0x100) as u8, (v % 0x100) as u8]
}

/// The UTF-16 bytes of one character.
pub open spec fn char_bytes(c: char) -> Seq<u8> {
    let v = c as u32 as int;
    if v < 0x10000 {
        unit_bytes(v)
    } else {
        unit_bytes(0xd800 + (v - 0x10000) / 0x400) + unit_bytes(0xdc00 + (v - 0x10000) % 0x400)
    }
}

/// UTF-16 encoding, big-endian.
pub open spec fn encode(cs: Seq<char>) -> Seq<u8>
    decreases cs.len(),
{
    if cs.len() == 0 {
        Seq::empty()
    } else {
        encode(cs.drop_last()) + char_bytes(cs.last())
    }
}

/// Decodes `b` as UTF-16 as far as it goes; see [`scan`].
pub fn scan_bytes(b: &[u8]) -> (r: Result<Vec<char>, (Vec<char>, usize)>)
    ensures
        attempt_view(r) == scan(units(b@)),
{
    let ghost us = units(b@);
    let mut out: Vec<char> = Vec::new();
    let n = b.len();
    let count = n / 2;
    let mut k: usize = 0;
    proof {
        assert(us.skip(0) =~= us);
        lemma_lead_with_nothing(scan(us));
    }
    while k < count
        invariant
            count == us.len(),
            count == b@.len() / 2,
            n == b@.len(),
            us == units(b@),
            0 <= k <= count,
            scan(us) == lead_with(out@, k as int, scan(us.skip(k as int))),
        decreases count - k,
    {
        assert(2 * k + 1 < b@.len()) by (nonlinear_arith)
            requires
                k < count,
                count == b@.len() / 2,
        ;
        let i = 2 * k;
        let v: u32 = (b[i] as u32) * 0x100 + b[i + 1] as u32;
        assert(v as int == us[k as int]);
        let ghost t = us.skip(k as int);
        let cp: u32;
        let step: usize;
        if v < 0xd800 || v > 0xdfff {
            cp = v;
            step = 1;
        } else if v <= 0xdbff && k + 1 == count {
            assert(out@ + Seq::<char>::empty() =~= out@);
            return Ok(out);
        } else if v <= 0xdbff {
            assert(2 * k + 3 < b@.len()) by (nonlinear_arith)
                requires
                    k + 1 < count,
                    count == b@.len() / 2,
            ;
            let w: u32 = (b[i + 2] as u32) * 0x100 + b[i + 3] as u32;
            assert(w as int == us[k + 1]);
            if w < 0xdc00 || w > 0xdfff {
                assert(out@ + Seq::<char>::empty() =~= out@);
                return Err((out, k));
            }
            cp = 0x10000 + (v - 0xd800) * 0x400 + (w - 0xdc00);
            step = 2;
        } else {
            assert(out@ + Seq::<char>::empty() =~= out@);
            return Err((out, k));
        }
        match char_from_u32(cp) {
            Some(c) => {
                proof {
                    if step == 1 {
                        assert(t.drop_first() =~= us.skip(k + 1));
                    } else {
                        assert(t.skip(2) =~= us.skip(k + 2));
                    }
                    lemma_lead_with_twice(out@, k as int, seq![c], step as int,
                        scan(us.skip(k + step)));
                    assert(out@.push(c) =~= out@ + seq![c]);
                }
                out.push(c);
                k = k + step;
            },
            None => {
                return Err((out, k));
            },
        }
    }
    proof {
        assert(out@ + Seq::<char>::empty() =~= out@);
    }
    Ok(out)
}

/// Appends the UTF-16 encoding of `cs` to `out`.
pub fn push_encoded(out: &mut Vec<u8>, cs: &Vec<char>)
    ensures
        final(out)@ == old(out)@ + encode(cs@),
{
    let mut j: usize = 0;
    proof {
        assert(cs@.take(0) =~= Seq::<char>::empty());
        assert(old(out)@ + Seq::<u8>::empty() =~= old(out)@);
    }
    while j < cs.len()
        invariant
            0 <= j <= cs@.len(),
            out@ == old(out)@ + encode(cs@.take(j as int)),
        decreases cs@.len() - j,
    {
        let v = cs[j] as u32;
        proof {
            vstd::utf8::char_is_scalar(cs@[j as int]);
        }
        if v < 0x10000 {
            out.push((v / 0x100) as u8);
            out.push((v % 0x100) as u8);
        } else {
            let hi = 0xd800 + (v - 0x10000) / 0x400;
            let lo = 0xdc00 + (v - 0x10000) % 0x400;
            out.push((hi / 0x100) as u8);
            out.push((hi % 0x100) as u8);
            out.push((lo / 0x100) as u8);
            out.push((lo % 0x100) as u8);
        }
        proof {
            assert(cs@.take(j + 1).drop_last() =~= cs@.take(j as int));
            assert(out@ =~= old(out)@ + encode(cs@.take(j + 1)));
        }
        j = j + 1;
    }
    assert(cs@.take(cs@.len() as int) =~= cs@);
}

} // verus!

verus! {

/// The units of one character.
pub open spec fn char_units(c: char) -> Seq<int> {
    let v = c as u32 as int;
    if v < 0x10000 {
        seq![v]
    } else {
        seq![0xd800 + (v - 0x10000) / 0x400, 0xdc00 + (v - 0x10000) % 0x400]
    }
}

/// The units of a text.
pub open spec fn text_units(cs: Seq<char>) -> Seq<int>
    decreases cs.len(),
{
    if cs.len() == 0 {
        Seq::empty()
    } else {
        text_units(cs.drop_last()) + char_units(cs.last())
    }
}

proof fn lemma_units_concat(x: Seq<u8>, y: Seq<u8>)
    requires
        x.len() % 2 == 0,
    ensures
        units(x + y) == units(x) + units(y),
{
    let n = x.len() / 2;
    assert forall|k: int| 0 <= k < units(x + y).len() implies #[trigger] units(x + y)[k] == (units(x) + units(y))[k] by {
        if k < n {
            assert(unit_at(x + y, 2 * k) == unit_at(x, 2 * k));
        } else {
            assert(unit_at(x + y, 2 * k) == unit_at(y, 2 * (k - n)));
        }
    }
    assert(units(x + y) =~= units(x) + units(y));
}

proof fn lemma_char_units(c: char)
    ensures
        char_bytes(c).len() == 2 * char_units(c).len(),
        units(char_bytes(c)) == char_units(c),
{
    vstd::utf8::char_is_scalar(c);
    let v = c as u32 as int;
    let b = char_bytes(c);
    if v < 0x10000 {
        assert(units(b) =~= char_units(c));
    } else {
        let hi = 0xd800 + (v - 0x10000) / 0x400;
        let lo = 0xdc00 + (v - 0x10000) % 0x400;
        assert(unit_at(b, 0) == hi);
        assert(unit_at(b, 2) == lo);
        assert(units(b) =~= char_units(c));
    }
}

proof fn lemma_units_text(cs: Seq<char>, rest: Seq<u8>)
    ensures
        units(encode(cs) + rest) == text_units(cs) + units(rest),
        encode(cs).len() == 2 * text_units(cs).len(),
    decreases cs.len(),
{
    if cs.len() == 0 {
        assert(encode(cs) + rest =~= rest);
        assert(text_units(cs) + units(rest) =~= units(rest));
    } else {
        let p = cs.drop_last();
        let c = cs.last();
        lemma_units_text(p, char_bytes(c) + rest);
        lemma_char_units(c);
        lemma_units_concat(char_bytes(c), rest);
        assert(encode(cs) + rest =~= encode(p) + (char_bytes(c) + rest));
        assert(text_units(cs) + units(rest) =~= text_units(p) + (char_units(c) + units(rest)));
    }
}

proof fn lemma_scan_char(c: char, ru: Seq<int>)
    ensures
        scan(char_units(c) + ru) == lead_with(seq![c], char_units(c).len() as int, scan(ru)),
{
    vstd::utf8::char_is_scalar(c);
    vstd::utf8::char_u32_cast(c, c as u32);
    let v = c as u32 as int;
    let u = char_units(c) + ru;
    if v < 0x10000 {
        assert(u.drop_first() =~= ru);
    } else {
        let hi = 0xd800 + (v - 0x10000) / 0x400;
        let lo = 0xdc00 + (v - 0x10000) % 0x400;
        assert(pair_value(hi, lo) == v);
        assert(u.skip(2) =~= ru);
    }
}

proof fn lemma_scan_units(cs: Seq<char>, ru: Seq<int>)
    ensures
        scan(text_units(cs) + ru) == lead_with(cs, text_units(cs).len() as int, scan(ru)),
    decreases cs.len(),
{
    if cs.len() == 0 {
        assert(text_units(cs) + ru =~= ru);
        lemma_lead_with_nothing(scan(ru));
    } else {
        let p = cs.drop_last();
        let c = cs.last();
        assert(text_units(cs) + ru =~= text_units(p) + (char_units(c) + ru));
        lemma_scan_units(p, char_units(c) + ru);
        lemma_scan_char(c, ru);
        lemma_lead_with_twice(p, text_units(p).len() as int, seq![c], char_units(c).len() as int,
            scan(ru));
        assert(p + seq![c] =~= cs);
    }
}

/// Decoding an encoding followed by more bytes yields the text followed by
/// whatever the rest decodes to.
pub proof fn lemma_scan_encoded(cs: Seq<char>, rest: Seq<u8>)
    ensures
        scan(units(encode(cs) + rest)) == lead_with(cs, text_units(cs).len() as int, scan(units(rest))),
        encode(cs).len() == 2 * text_units(cs).len(),
{
    lemma_units_text(cs, rest);
    lemma_scan_units(cs, units(rest));
}

} // verus!

verus! {

/// Writes UTF-16 BadSV text and delimiters.
pub struct Utf16Encoder {
    size: usize,
}

/// Reads UTF-16 BadSV text.
pub struct Utf16Decoder {
    size: usize,
}

impl Utf16Encoder {
    #[verifier::type_invariant]
    spec fn well_formed(&self) -> bool {
        self.size == 2
    }

    /// An encoder for the 16-bit variant.
    pub fn new() -> (r: Self) {
        Utf16Encoder { size: 2 }
    }
}

impl Utf16Decoder {
    #[verifier::type_invariant]
    spec fn well_formed(&self) -> bool {
        self.size == 2
    }

    /// A decoder for the 16-bit variant.
    pub fn new() -> (r: Self) {
        Utf16Decoder { size: 2 }
    }
}

impl Encoding for Utf16Encoder {
    open spec fn codec(&self) -> Codec {
        Codec::Utf16
    }

    fn size(&self) -> (r: usize) {
        proof {
            use_type_invariant(self);
        }
        self.size
    }
}

impl Encoding for Utf16Decoder {
    open spec fn codec(&self) -> Codec {
        Codec::Utf16
    }

    fn size(&self) -> (r: usize) {
        proof {
            use_type_invariant(self);
        }
        self.size
    }
}

impl Encoder for Utf16Encoder {
    fn encode(&self, data: &str) -> (r: Vec<u8>) {
        Codec::Utf16.encode(data)
    }

    fn get_delimiter(&self) -> (r: Vec<u8>) {
        Codec::Utf16.get_delimiter()
    }
}

impl Decoder for Utf16Decoder {
    fn try_decode(&self, bytes: &[u8]) -> (r: Result<String, (String, usize)>) {
        Codec::Utf16.try_decode(bytes)
    }
}

} // verus!
