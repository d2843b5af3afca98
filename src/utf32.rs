//! The 32-bit variant: text is UTF-32 in big-endian order, a delimiter is one
//! unit above the largest scalar value.
//!
//! A unit in the surrogate range is no scalar value either, so decoding
//! treats it as invalid too rather than turning it into a character.

use vstd::prelude::*;
use crate::codec::Codec;
use crate::encodings::{Decoder, Encoder, Encoding};
use crate::text::{Attempt, lead_with, attempt_view, char_from_u32, lemma_lead_with_twice, lemma_lead_with_nothing};

verus! {

/// The largest Unicode scalar value.
pub const MAX_SCALAR: u32 = 0x10ffff;

/// The value of the big-endian unit that starts at byte `i`.
pub open spec fn unit_at(b: Seq<u8>, i: int) -> int {
    b[i] as int * 0x1000000 + b[i + 1] as int * 0x10000 + b[i + 2] as int * 0x100 + b[i + 3] as int
}

/// The whole units of `b`; a trailing partial unit is left out.
pub open spec fn units(b: Seq<u8>) -> Seq<int> {
    Seq::new(b.len() / 4, |k: int| unit_at(b, 4 * k))
}

/// Whether `v` is a Unicode scalar value.
pub open spec fn scalar_value(v: int) -> bool {
    0 <= v <= 0x10ffff && !(0xd800 <= v <= 0xdfff)
}

/// Decoding of UTF-32 units: each scalar value is a character; the first
/// unit that is no scalar value (above the largest, or a surrogate) is
/// invalid.
pub open spec fn scan(u: Seq<int>) -> Attempt
    decreases u.len(),
{
    if u.len() == 0 {
        Ok(Seq::empty())
    } else if scalar_value(u[0]) {
        lead_with(seq![u[0] as u32 as char], 1, scan(u.drop_first()))
    } else {
        Err((Seq::empty(), 0))
    }
}

/// The four big-endian bytes of `v`.
pub open spec fn unit_bytes(v: u32) -> Seq<u8> {
    seq![
        (v / 0x1000000) as u8,
        (v / 0x10000 % 0x100) as u8,
        (v / 0x100 % 0x100) as u8,
        (v % 0x100) as u8,
    ]
}

/// UTF-32 encoding, big-endian.
pub open spec fn encode(cs: Seq<char>) -> Seq<u8>
    decreases cs.len(),
{
    if cs.len() == 0 {
        Seq::empty()
    } else {
        encode(cs.drop_last()) + unit_bytes(cs.last() as u32)
    }
}

/// Decodes `b` as UTF-32 as far as it goes; see [`scan`].
pub fn scan_bytes(b: &[u8]) -> (r: Result<Vec<char>, (Vec<char>, usize)>)
    ensures
        attempt_view(r) == scan(units(b@)),
{
    let ghost us = units(b@);
    let mut out: Vec<char> = Vec::new();
    let n = b.len();
    let count = n / 4;
    let mut k: usize = 0;
    proof {
        assert(us.skip(0) =~= us);
        lemma_lead_with_nothing(scan(us));
    }
    while k < count
        invariant
            count == us.len(),
            count == b@.len() / 4,
            n == b@.len(),
            us == units(b@),
            0 <= k <= count,
            scan(us) == lead_with(out@, k as int, scan(us.skip(k as int))),
        decreases count - k,
    {
        assert(4 * k + 3 < b@.len()) by (nonlinear_arith)
            requires
                k < count,
                count == b@.len() / 4,
            n == b@.len(),
        ;
        let i = 4 * k;
        let v: u32 = (b[i] as u32) * 0x1000000 + (b[i + 1] as u32) * 0x10000 + (b[i + 2] as u32)
            * 0x100 + b[i + 3] as u32;
        assert(v as int == us[k as int]);
        let ghost t = us.skip(k as int);
        if v > MAX_SCALAR || (0xd800 <= v && v <= 0xdfff) {
            assert(out@ + Seq::<char>::empty() =~= out@);
            return Err((out, k));
        }
        match char_from_u32(v) {
            Some(c) => {
                proof {
                    assert(t.drop_first() =~= us.skip(k + 1));
                    lemma_lead_with_twice(out@, k as int, seq![c], 1, scan(us.skip(k + 1)));
                    assert(out@.push(c) =~= out@ + seq![c]);
                }
                out.push(c);
                k = k + 1;
            },
            None => {
                return Err((out, k));
            },
        }
    }
    proof {
        assert(out@ + Seq::<char>::empty() =~= out@);
    }
    Ok(out)
}

/// Appends the UTF-32 encoding of `cs` to `out`.
pub fn push_encoded(out: &mut Vec<u8>, cs: &Vec<char>)
    ensures
        final(out)@ == old(out)@ + encode(cs@),
{
    let mut j: usize = 0;
    proof {
        assert(cs@.take(0) =~= Seq::<char>::empty());
        assert(old(out)@ + Seq::<u8>::empty() =~= old(out)@);
    }
    while j < cs.len()
        invariant
            0 <= j <= cs@.len(),
            out@ == old(out)@ + encode(cs@.take(j as int)),
        decreases cs@.len() - j,
    {
        let v = cs[j] as u32;
        out.push((v / 0x1000000) as u8);
        out.push((v / 0x10000 % 0x100) as u8);
        out.push((v / 0x100 % 0x100) as u8);
        out.push((v % 0x100) as u8);
        proof {
            assert(cs@.take(j + 1).drop_last() =~= cs@.take(j as int));
            assert(out@ =~= old(out)@ + encode(cs@.take(j + 1)));
        }
        j = j + 1;
    }
    assert(cs@.take(cs@.len() as int) =~= cs@);
}

} // verus!

verus! {

proof fn lemma_unit_bytes(v: u32)
    ensures
        unit_at(unit_bytes(v), 0) == v as int,
        unit_bytes(v).len() == 4,
{
    let b = unit_bytes(v);
    assert(b[0] as int == v as int / 0x1000000);
    assert(b[1] as int == v as int / 0x10000 % 0x100);
    assert(b[2] as int == v as int / 0x100 % 0x100);
    assert(b[3] as int == v as int % 0x100);
}

/// The layout of an encoding: four bytes per character, each group the
/// character's value.
proof fn lemma_encode_layout(cs: Seq<char>)
    ensures
        encode(cs).len() == 4 * cs.len(),
        forall|k: int| 0 <= k < cs.len() ==> #[trigger] unit_at(encode(cs), 4 * k) == cs[k] as u32 as int,
    decreases cs.len(),
{
    if cs.len() > 0 {
        let p = cs.drop_last();
        lemma_encode_layout(p);
        lemma_unit_bytes(cs.last() as u32);
        let e = encode(cs);
        assert forall|k: int| 0 <= k < cs.len() implies #[trigger] unit_at(e, 4 * k) == cs[k] as u32 as int by {
            if k < p.len() {
                assert(unit_at(encode(p), 4 * k) == p[k] as u32 as int);
            }
        }
    }
}

/// The units of an encoding followed by more bytes.
proof fn lemma_units_encoded(cs: Seq<char>, rest: Seq<u8>)
    ensures
        units(encode(cs) + rest) == Seq::new(cs.len(), |k: int| cs[k] as u32 as int) + units(rest),
{
    lemma_encode_layout(cs);
    let e = encode(cs);
    let all = e + rest;
    let n = cs.len() as int;
    assert(all.len() / 4 == n + rest.len() / 4);
    assert forall|k: int| 0 <= k < units(all).len() implies #[trigger] units(all)[k] == (Seq::new(cs.len(), |k: int| cs[k] as u32 as int) + units(rest))[k] by {
        if k < n {
            assert(unit_at(e, 4 * k) == cs[k] as u32 as int);
            assert(unit_at(all, 4 * k) == unit_at(e, 4 * k));
        } else {
            assert(unit_at(all, 4 * k) == unit_at(rest, 4 * (k - n)));
        }
    }
    assert(units(all) =~= Seq::new(cs.len(), |k: int| cs[k] as u32 as int) + units(rest));
}

/// Decoding the units of a text followed by other units.
proof fn lemma_scan_chars(cs: Seq<char>, ru: Seq<int>)
    ensures
        scan(Seq::new(cs.len(), |k: int| cs[k] as u32 as int) + ru) == lead_with(cs, cs.len() as int, scan(ru)),
    decreases cs.len(),
{
    let vs = Seq::new(cs.len(), |k: int| cs[k] as u32 as int);
    if cs.len() == 0 {
        assert(vs + ru =~= ru);
        lemma_lead_with_nothing(scan(ru));
    } else {
        let rest = cs.drop_first();
        let u = vs + ru;
        vstd::utf8::char_is_scalar(cs[0]);
        vstd::utf8::char_u32_cast(cs[0], cs[0] as u32);
        assert(u.drop_first() =~= Seq::new(rest.len(), |k: int| rest[k] as u32 as int) + ru);
        lemma_scan_chars(rest, ru);
        lemma_lead_with_twice(seq![cs[0]], 1, rest, rest.len() as int, scan(ru));
        assert(seq![cs[0]] + rest =~= cs);
    }
}

/// Decoding an encoding followed by more bytes yields the text followed by
/// whatever the rest decodes to.
pub proof fn lemma_scan_encoded(cs: Seq<char>, rest: Seq<u8>)
    ensures
        scan(units(encode(cs) + rest)) == lead_with(cs, cs.len() as int, scan(units(rest))),
        encode(cs).len() == 4 * cs.len(),
{
    lemma_encode_layout(cs);
    lemma_units_encoded(cs, rest);
    lemma_scan_chars(cs, units(rest));
}

} // verus!

verus! {

/// Writes UTF-32 BadSV text and delimiters.
pub struct Utf32Encoder {
    size: usize,
}

/// Reads UTF-32 BadSV text.
pub struct Utf32Decoder {
    size: usize,
}

impl Utf32Encoder {
    #[verifier::type_invariant]
    spec fn well_formed(&self) -> bool {
        self.size == 4
    }

    /// An encoder for the 32-bit variant.
    pub fn new() -> (r: Self) {
        Utf32Encoder { size: 4 }
    }
}

impl Utf32Decoder {
    #[verifier::type_invariant]
    spec fn well_formed(&self) -> bool {
        self.size == 4
    }

    /// A decoder for the 32-bit variant.
    pub fn new() -> (r: Self) {
        Utf32Decoder { size: 4 }
    }
}

impl Encoding for Utf32Encoder {
    open spec fn codec(&self) -> Codec {
        Codec::Utf32
    }

    fn size(&self) -> (r: usize) {
        proof {
            use_type_invariant(self);
        }
        self.size
    }
}

impl Encoding for Utf32Decoder {
    open spec fn codec(&self) -> Codec {
        Codec::Utf32
    }

    fn size(&self) -> (r: usize) {
        proof {
            use_type_invariant(self);
        }
        self.size
    }
}

impl Encoder for Utf32Encoder {
    fn encode(&self, data: &str) -> (r: Vec<u8>) {
        Codec::Utf32.encode(data)
    }

    fn get_delimiter(&self) -> (r: Vec<u8>) {
        Codec::Utf32.get_delimiter()
    }
}

impl Decoder for Utf32Decoder {
    fn try_decode(&self, bytes: &[u8]) -> (r: Result<String, (String, usize)>) {
        Codec::Utf32.try_decode(bytes)
    }
}

} // verus!
