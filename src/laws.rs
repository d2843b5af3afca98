//! What holds of the codecs and the engines together: decoding inverts
//! encoding, records stay unit-aligned, delimiters are always rejected, a
//! truncated character is never mistaken for a delimiter, and empty input
//! maps to empty output.

use vstd::prelude::*;
use vstd::utf8::*;
use crate::codec::Codec;
use crate::engine::{Grid, Progress, start, step, feed, decoded, trim_newlines, gaps, fields_bytes, record_bytes, grid_bytes, delimiters_fit, encodes};
use crate::text::lead_with;
use crate::utf8;
use crate::utf16;
use crate::utf32;

verus! {

/// The number of code units in the encoding of `s`.
pub open spec fn unit_count(c: Codec, s: Seq<char>) -> int {
    match c {
        Codec::Utf8 => encode_utf8(s).len() as int,
        Codec::Utf16 => utf16::text_units(s).len() as int,
        Codec::Utf32 => s.len() as int,
    }
}

/// Decoding an encoded text followed by more bytes yields the text, then
/// whatever the rest decodes to; and an encoded text is a whole number of
/// units.
pub proof fn lemma_attempt_encoded(c: Codec, s: Seq<char>, rest: Seq<u8>)
    ensures
        c.attempt(c.encoded(s) + rest) == lead_with(s, unit_count(c, s), c.attempt(rest)),
        c.encoded(s).len() == c.unit() * unit_count(c, s),
{
    match c {
        Codec::Utf8 => utf8::lemma_scan_encoded(s, rest),
        Codec::Utf16 => utf16::lemma_scan_encoded(s, rest),
        Codec::Utf32 => utf32::lemma_scan_encoded(s, rest),
    }
}

proof fn lemma_utf8_concat(a: Seq<char>, b: Seq<char>)
    ensures
        encode_utf8(a + b) == encode_utf8(a) + encode_utf8(b),
    decreases a.len(),
{
    if a.len() == 0 {
        assert(a + b =~= b);
        assert(encode_utf8(a) + encode_utf8(b) =~= encode_utf8(b));
    } else {
        assert((a + b).drop_first() =~= a.drop_first() + b);
        lemma_utf8_concat(a.drop_first(), b);
        assert(encode_utf8(a + b) =~= encode_utf8(a) + encode_utf8(b));
    }
}

proof fn lemma_utf16_concat(a: Seq<char>, b: Seq<char>)
    ensures
        utf16::encode(a + b) == utf16::encode(a) + utf16::encode(b),
    decreases b.len(),
{
    if b.len() == 0 {
        assert(a + b =~= a);
        assert(utf16::encode(a) + utf16::encode(b) =~= utf16::encode(a));
    } else {
        assert((a + b).drop_last() =~= a + b.drop_last());
        lemma_utf16_concat(a, b.drop_last());
        assert(utf16::encode(a + b) =~= utf16::encode(a) + utf16::encode(b));
    }
}

proof fn lemma_utf32_concat(a: Seq<char>, b: Seq<char>)
    ensures
        utf32::encode(a + b) == utf32::encode(a) + utf32::encode(b),
    decreases b.len(),
{
    if b.len() == 0 {
        assert(a + b =~= a);
        assert(utf32::encode(a) + utf32::encode(b) =~= utf32::encode(a));
    } else {
        assert((a + b).drop_last() =~= a + b.drop_last());
        lemma_utf32_concat(a, b.drop_last());
        assert(utf32::encode(a + b) =~= utf32::encode(a) + utf32::encode(b));
    }
}

/// Encoding distributes over concatenation.
proof fn lemma_encoded_concat(c: Codec, a: Seq<char>, b: Seq<char>)
    ensures
        c.encoded(a + b) == c.encoded(a) + c.encoded(b),
{
    match c {
        Codec::Utf8 => lemma_utf8_concat(a, b),
        Codec::Utf16 => lemma_utf16_concat(a, b),
        Codec::Utf32 => lemma_utf32_concat(a, b),
    }
}

/// The terminator is the encoding of a newline.
pub proof fn lemma_terminator(c: Codec)
    ensures
        c.terminator() == c.encoded(seq!['\n']),
        c.terminator().len() == c.unit(),
{
    let nl = seq!['\n'];
    assert(nl.drop_last() =~= Seq::<char>::empty());
    assert(nl.drop_first() =~= Seq::<char>::empty());
    assert(('\n' as u32) == 10);
    match c {
        Codec::Utf8 => {
            assert(((10u32 & 0x7f) as u8) == 10u8) by (bit_vector);
            assert(encode_scalar(10u32) =~= seq![10u8]);
            assert(encode_utf8(nl) == encode_scalar('\n' as u32) + encode_utf8(nl.drop_first()));
            assert(encode_utf8(nl) =~= seq![10u8]);
            assert(c.terminator() =~= c.encoded(nl));
        },
        Codec::Utf16 => {
            assert(utf16::encode(nl) == utf16::encode(nl.drop_last()) + utf16::char_bytes('\n'));
            assert(utf16::encode(nl) =~= seq![0u8, 10u8]);
            assert(c.terminator() =~= c.encoded(nl));
        },
        Codec::Utf32 => {
            assert(utf32::encode(nl) == utf32::encode(nl.drop_last()) + utf32::unit_bytes('\n' as u32));
            assert(utf32::encode(nl) =~= seq![0u8, 0u8, 0u8, 10u8]);
            assert(c.terminator() =~= c.encoded(nl));
        },
    }
}

/// Every delimiter is rejected by the decode attempt, and after complete
/// characters it ends the text exactly there.
pub proof fn lemma_delimiter_rejected(c: Codec, s: Seq<char>, d: Seq<u8>)
    requires
        c.delimits(d),
    ensures
        c.attempt(d) == Err::<Seq<char>, (Seq<char>, int)>((Seq::empty(), 0)),
        c.attempt(c.encoded(s) + d) == Err::<Seq<char>, (Seq<char>, int)>((s, unit_count(c, s))),
{
    match c {
        Codec::Utf8 => {},
        Codec::Utf16 => {
            let u = utf16::units(d);
            assert(u.len() == 1);
        },
        Codec::Utf32 => {
            let u = utf32::units(d);
            assert(u.len() == 1);
        },
    }
    lemma_attempt_encoded(c, s, d);
    assert(s + Seq::<char>::empty() =~= s);
}

} // verus!

verus! {

proof fn lemma_utf8_partial(ch: char, k: int)
    requires
        0 < k < encode_scalar(ch as u32).len(),
    ensures
        utf8::scan(encode_scalar(ch as u32).take(k)) == Ok::<Seq<char>, (Seq<char>, int)>(Seq::empty()),
{
    let v = ch as u32;
    char_is_scalar(ch);
    let e = encode_scalar(v);
    let q = e.take(k);
    if has_width_2_encoding(v) {
        assert(0x80 <= v <= 0x7ff ==> 0xc2 <= (0xc0u8 | (((v >> 6u32) & 0x1fu32) as u8)) <= 0xdf) by (bit_vector);
    } else if has_width_3_encoding(v) {
        assert(0x800 <= v <= 0xffff && !(0xd800 <= v <= 0xdfff) ==> {
            let b0 = 0xe0u8 | (((v >> 12u32) & 0x0fu32) as u8);
            let b1 = 0x80u8 | (((v >> 6u32) & 0x3fu32) as u8);
            &&& 0xe0 <= b0 <= 0xef
            &&& 0x80 <= b1 <= 0xbf
            &&& b0 == 0xe0 ==> 0xa0 <= b1
            &&& b0 == 0xed ==> b1 <= 0x9f
        }) by (bit_vector);
    } else {
        assert(0x10000 <= v <= 0x10ffff ==> {
            let b0 = 0xf0u8 | (((v >> 18u32) & 0x7u32) as u8);
            let b1 = 0x80u8 | (((v >> 12u32) & 0x3fu32) as u8);
            let b2 = 0x80u8 | (((v >> 6u32) & 0x3fu32) as u8);
            &&& 0xf0 <= b0 <= 0xf4
            &&& 0x80 <= b1 <= 0xbf
            &&& 0x80 <= b2 <= 0xbf
            &&& b0 == 0xf0 ==> 0x90 <= b1
            &&& b0 == 0xf4 ==> b1 <= 0x8f
        }) by (bit_vector);
    }
    assert(!valid_first_scalar(q));
    assert(utf8::truncated(q));
}

/// A character cut short after a whole number of units is reported as
/// needing more bytes, never as invalid: after complete text `s`, the
/// attempt yields `s` and no failure.
pub proof fn lemma_truncated_needs_more(c: Codec, s: Seq<char>, ch: char, k: int)
    requires
        0 < k < c.encoded(seq![ch]).len(),
        k % c.unit() == 0,
    ensures
        c.attempt(c.encoded(s) + c.encoded(seq![ch]).take(k)) == Ok::<Seq<char>, (Seq<char>, int)>(s),
{
    let one = seq![ch];
    let q = c.encoded(one).take(k);
    assert(one.drop_last() =~= Seq::<char>::empty());
    assert(one.drop_first() =~= Seq::<char>::empty());
    match c {
        Codec::Utf8 => {
            assert(encode_utf8(one) == encode_scalar(one[0] as u32) + encode_utf8(one.drop_first()));
            assert(encode_utf8(one) =~= encode_scalar(ch as u32));
            lemma_utf8_partial(ch, k);
        },
        Codec::Utf16 => {
            assert(utf16::encode(one) == utf16::encode(one.drop_last()) + utf16::char_bytes(one.last()));
            assert(utf16::encode(one) =~= utf16::char_bytes(ch));
            char_is_scalar(ch);
            let v = ch as u32 as int;
            assert(v >= 0x10000);
            assert(k == 2);
            let u = utf16::units(q);
            assert(u.len() == 1);
            assert(u[0] == 0xd800 + (v - 0x10000) / 0x400);
        },
        Codec::Utf32 => {
            assert(utf32::encode(one) == utf32::encode(one.drop_last()) + utf32::unit_bytes(one.last() as u32));
            assert(utf32::encode(one) =~= utf32::unit_bytes(ch as u32));
        },
    }
    lemma_attempt_encoded(c, s, q);
    assert(s + Seq::<char>::empty() =~= s);
}

} // verus!

verus! {

/// A field that holds no newline.
pub open spec fn plain_field(f: Seq<char>) -> bool {
    forall|i: int| 0 <= i < f.len() ==> f[i] != '\n'
}

/// A grid whose records each hold at least one field, and whose fields hold
/// no newline.
pub open spec fn plain_grid(g: Grid) -> bool {
    forall|i: int|
        0 <= i < g.len() ==> g[i].len() > 0 && forall|j: int|
            0 <= j < g[i].len() ==> plain_field(#[trigger] g[i][j])
}

/// An encoded text is a whole number of units.
pub proof fn lemma_encoded_aligned(c: Codec, f: Seq<char>)
    ensures
        c.encoded(f).len() as int % c.unit() == 0,
{
    lemma_attempt_encoded(c, f, Seq::empty());
}

proof fn lemma_aligned_add(c: Codec, a: int, b: int)
    requires
        a % c.unit() == 0,
        b % c.unit() == 0,
    ensures
        (a + b) % c.unit() == 0,
        (a - b) % c.unit() == 0,
{
}

proof fn lemma_attempt_empty(c: Codec)
    ensures
        c.attempt(Seq::empty()) == Ok::<Seq<char>, (Seq<char>, int)>(Seq::empty()),
{
    assert(utf16::units(Seq::empty()) =~= Seq::<int>::empty());
    assert(utf32::units(Seq::empty()) =~= Seq::<int>::empty());
}

/// Every whole-unit prefix of an encoded text decodes without failure to a
/// prefix of the text.
proof fn lemma_attempt_prefix(c: Codec, f: Seq<char>, p: int)
    requires
        0 <= p <= c.encoded(f).len(),
        p % c.unit() == 0,
    ensures
        c.attempt(c.encoded(f).take(p)) is Ok,
        c.attempt(c.encoded(f).take(p))->Ok_0.len() <= f.len(),
        c.attempt(c.encoded(f).take(p))->Ok_0 == f.take(c.attempt(c.encoded(f).take(p))->Ok_0.len() as int),
    decreases f.len(),
{
    if f.len() == 0 {
        assert(c.encoded(f).take(p) =~= Seq::<u8>::empty()) by {
            lemma_attempt_encoded(c, f, Seq::empty());
        }
        lemma_attempt_empty(c);
        assert(f.take(0) =~= Seq::<char>::empty());
    } else {
        let f0 = f.drop_last();
        let ch = f.last();
        let one = seq![ch];
        assert(f0 + one =~= f);
        lemma_encoded_concat(c, f0, one);
        let e0 = c.encoded(f0);
        let e1 = c.encoded(one);
        lemma_attempt_encoded(c, f0, Seq::empty());
        lemma_attempt_encoded(c, one, Seq::empty());
        if p <= e0.len() {
            lemma_attempt_prefix(c, f0, p);
            assert(c.encoded(f).take(p) =~= e0.take(p));
            let s = c.attempt(e0.take(p))->Ok_0;
            assert(f0.take(s.len() as int) =~= f.take(s.len() as int));
        } else {
            let k = p - e0.len();
            lemma_aligned_add(c, p, e0.len() as int);
            assert(c.encoded(f).take(p) =~= e0 + e1.take(k));
            if k == e1.len() {
                assert(e1.take(k) =~= e1);
                lemma_attempt_encoded(c, f0, e1);
                lemma_attempt_empty(c);
                assert(one + Seq::<char>::empty() =~= one);
                assert(f.take(f.len() as int) =~= f);
            } else {
                lemma_truncated_needs_more(c, f0, ch, k);
                assert(f.take(f0.len() as int) =~= f0);
            }
        }
    }
}

/// Reading `x` and then `y` is reading `x + y`, when `x` is a whole number
/// of units.
proof fn lemma_feed_concat(c: Codec, st: Progress, x: Seq<u8>, y: Seq<u8>)
    requires
        x.len() as int % c.unit() == 0,
    ensures
        feed(c, st, x + y) == feed(c, feed(c, st, x), y),
    decreases x.len(),
{
    let u = c.unit();
    if x.len() == 0 {
        assert(x + y =~= y);
    } else {
        assert(x.len() >= u);
        let xy = x + y;
        if x.len() == u && y.len() == 0 {
            assert(xy =~= x);
        } else {
            assert(xy.take(u) =~= x.take(u));
            assert(xy.skip(u) =~= x.skip(u) + y);
            let st1 = step(c, st, x.take(u));
            lemma_aligned_add(c, x.len() as int, u);
            lemma_feed_concat(c, st1, x.skip(u), y);
            if x.len() == u {
                assert(x.take(u) =~= x);
                assert(x.skip(u) =~= Seq::<u8>::empty());
            }
        }
    }
}

/// Reading the units of a field one by one only gathers pending bytes.
proof fn lemma_feed_field_prefix(c: Codec, r: Seq<Seq<char>>, g: Grid, f: Seq<char>, p: int)
    requires
        plain_field(f),
        0 <= p <= c.encoded(f).len(),
        p % c.unit() == 0,
    ensures
        feed(c, (Seq::empty(), r, g), c.encoded(f).take(p)) == (c.encoded(f).take(p), r, g),
    decreases p,
{
    let e = c.encoded(f);
    let u = c.unit();
    if p == 0 {
        assert(e.take(0) =~= Seq::<u8>::empty());
    } else {
        lemma_aligned_add(c, p, u);
        let x = e.take(p - u);
        let y = e.subrange(p - u, p);
        assert(x + y =~= e.take(p));
        lemma_feed_field_prefix(c, r, g, f, p - u);
        lemma_feed_concat(c, (Seq::empty(), r, g), x, y);
        lemma_attempt_prefix(c, f, p);
        let s = c.attempt(e.take(p))->Ok_0;
        if s.len() > 0 {
            assert(s.last() == f[s.len() - 1]);
        }
        assert(x + y == e.take(p));
    }
}

/// A field followed by a delimiter closes the field.
proof fn lemma_feed_field_delimiter(c: Codec, r: Seq<Seq<char>>, g: Grid, f: Seq<char>, d: Seq<u8>)
    requires
        plain_field(f),
        c.delimits(d),
    ensures
        feed(c, (Seq::empty(), r, g), c.encoded(f) + d) == (Seq::<u8>::empty(), r.push(f), g),
{
    let e = c.encoded(f);
    lemma_attempt_encoded(c, f, d);
    lemma_encoded_aligned(c, f);
    lemma_feed_field_prefix(c, r, g, f, e.len() as int);
    assert(e.take(e.len() as int) =~= e);
    lemma_feed_concat(c, (Seq::empty(), r, g), e, d);
    lemma_delimiter_rejected(c, f, d);
}

proof fn lemma_trim_plain(f: Seq<char>)
    requires
        plain_field(f),
    ensures
        trim_newlines(f.push('\n')) == f,
{
    assert(f.push('\n').drop_last() =~= f);
    if f.len() > 0 {
        assert(f.last() != '\n');
    }
    assert(trim_newlines(f) == f);
    assert(f.push('\n').last() == '\n');
    assert(trim_newlines(f.push('\n')) == trim_newlines(f.push('\n').drop_last()));
}

/// A field followed by the terminator closes the field and the record.
proof fn lemma_feed_field_terminator(c: Codec, r: Seq<Seq<char>>, g: Grid, f: Seq<char>)
    requires
        plain_field(f),
    ensures
        feed(c, (Seq::empty(), r, g), c.encoded(f) + c.terminator()) == (Seq::<u8>::empty(), Seq::<Seq<char>>::empty(), g.push(r.push(f))),
{
    let e = c.encoded(f);
    let t = c.terminator();
    let nl = seq!['\n'];
    lemma_encoded_aligned(c, f);
    lemma_terminator(c);
    lemma_attempt_encoded(c, f, t);
    lemma_attempt_encoded(c, nl, Seq::empty());
    lemma_attempt_empty(c);
    assert(t + Seq::<u8>::empty() =~= t);
    assert(nl + Seq::<char>::empty() =~= nl);
    assert(f + nl =~= f.push('\n'));
    lemma_trim_plain(f);
    lemma_feed_field_prefix(c, r, g, f, e.len() as int);
    assert(e.take(e.len() as int) =~= e);
    lemma_feed_concat(c, (Seq::empty(), r, g), e, t);
}

} // verus!

verus! {

/// `ds` holds a delimiter of the variant for each gap of the record `r`.
pub open spec fn record_delimiters_fit(c: Codec, r: Seq<Seq<char>>, ds: Seq<Seq<u8>>) -> bool {
    &&& ds.len() >= gaps(r)
    &&& forall|j: int| 0 <= j < gaps(r) ==> c.delimits(#[trigger] ds[j])
}

/// Each encoded record, from its first byte to the end of its terminator,
/// is a whole number of units.
pub proof fn lemma_record_aligned(c: Codec, r: Seq<Seq<char>>, ds: Seq<Seq<u8>>)
    requires
        record_delimiters_fit(c, r, ds),
    ensures
        fields_bytes(c, r, ds).len() as int % c.unit() == 0,
        record_bytes(c, r, ds).len() as int % c.unit() == 0,
    decreases r.len(),
{
    lemma_terminator(c);
    if r.len() == 1 {
        lemma_encoded_aligned(c, r[0]);
    } else if r.len() > 1 {
        let r0 = r.drop_last();
        assert(c.delimits(ds[r.len() - 2]));
        assert(record_delimiters_fit(c, r0, ds));
        lemma_record_aligned(c, r0, ds);
        lemma_encoded_aligned(c, r.last());
        lemma_aligned_add(c, fields_bytes(c, r0, ds).len() as int, ds[r.len() - 2].len() as int);
        lemma_aligned_add(c, (fields_bytes(c, r0, ds).len() + ds[r.len() - 2].len()) as int, c.encoded(r.last()).len() as int);
    }
    lemma_aligned_add(c, fields_bytes(c, r, ds).len() as int, c.terminator().len() as int);
}

/// An encoded grid is a whole number of units.
pub proof fn lemma_grid_aligned(c: Codec, g: Grid, dss: Seq<Seq<Seq<u8>>>)
    requires
        delimiters_fit(c, g, dss),
    ensures
        grid_bytes(c, g, dss).len() as int % c.unit() == 0,
    decreases g.len(),
{
    if g.len() > 0 {
        let n = g.len() - 1;
        let g0 = g.drop_last();
        let d0 = dss.drop_last();
        assert(delimiters_fit(c, g0, d0)) by {
            assert forall|i: int| 0 <= i < g0.len() implies #[trigger] d0[i].len() == gaps(g0[i]) by {
                assert(dss[i].len() == gaps(g[i]));
            }
            assert forall|i: int, j: int| 0 <= i < d0.len() && 0 <= j < d0[i].len() implies c.delimits(#[trigger] d0[i][j]) by {
                assert(c.delimits(dss[i][j]));
            }
        }
        lemma_grid_aligned(c, g0, d0);
        assert(record_delimiters_fit(c, g[n], dss[n])) by {
            assert(dss[n].len() == gaps(g[n]));
            assert forall|j: int| 0 <= j < gaps(g[n]) implies c.delimits(#[trigger] dss[n][j]) by {
                assert(c.delimits(dss[n][j]));
            }
        }
        lemma_record_aligned(c, g.last(), dss.last());
        lemma_aligned_add(c, grid_bytes(c, g0, d0).len() as int, record_bytes(c, g.last(), dss.last()).len() as int);
    }
}

/// The fields of a record followed by a delimiter close all its fields.
proof fn lemma_feed_fields_delimiter(c: Codec, pre: Seq<Seq<char>>, g: Grid, r: Seq<Seq<char>>, ds: Seq<Seq<u8>>, d: Seq<u8>)
    requires
        r.len() > 0,
        forall|j: int| 0 <= j < r.len() ==> plain_field(#[trigger] r[j]),
        record_delimiters_fit(c, r, ds),
        c.delimits(d),
    ensures
        feed(c, (Seq::empty(), pre, g), fields_bytes(c, r, ds) + d) == (Seq::<u8>::empty(), pre + r, g),
    decreases r.len(),
{
    if r.len() == 1 {
        assert(plain_field(r[0]));
        lemma_feed_field_delimiter(c, pre, g, r[0], d);
        assert(pre.push(r[0]) =~= pre + r);
    } else {
        let r0 = r.drop_last();
        let dm = ds[r.len() - 2];
        assert(c.delimits(dm));
        assert(record_delimiters_fit(c, r0, ds));
        assert(forall|j: int| 0 <= j < r0.len() ==> r0[j] == r[j]);
        lemma_record_aligned(c, r0, ds);
        lemma_aligned_add(c, fields_bytes(c, r0, ds).len() as int, dm.len() as int);
        let x = fields_bytes(c, r0, ds) + dm;
        let y = c.encoded(r.last()) + d;
        assert(fields_bytes(c, r, ds) + d =~= x + y);
        lemma_feed_concat(c, (Seq::empty(), pre, g), x, y);
        lemma_feed_fields_delimiter(c, pre, g, r0, ds, dm);
        assert(plain_field(r[r.len() - 1]));
        lemma_feed_field_delimiter(c, pre + r0, g, r.last(), d);
        assert((pre + r0).push(r.last()) =~= pre + r);
    }
}

/// An encoded record closes exactly that record.
proof fn lemma_feed_record(c: Codec, g: Grid, r: Seq<Seq<char>>, ds: Seq<Seq<u8>>)
    requires
        r.len() > 0,
        forall|j: int| 0 <= j < r.len() ==> plain_field(#[trigger] r[j]),
        record_delimiters_fit(c, r, ds),
    ensures
        feed(c, (Seq::empty(), Seq::empty(), g), record_bytes(c, r, ds)) == (Seq::<u8>::empty(), Seq::<Seq<char>>::empty(), g.push(r)),
{
    let none = Seq::<Seq<char>>::empty();
    if r.len() == 1 {
        assert(plain_field(r[0]));
        lemma_feed_field_terminator(c, none, g, r[0]);
        assert(none.push(r[0]) =~= r);
    } else {
        let r0 = r.drop_last();
        let dm = ds[r.len() - 2];
        assert(c.delimits(dm));
        assert(record_delimiters_fit(c, r0, ds));
        assert(forall|j: int| 0 <= j < r0.len() ==> r0[j] == r[j]);
        lemma_record_aligned(c, r0, ds);
        lemma_aligned_add(c, fields_bytes(c, r0, ds).len() as int, dm.len() as int);
        let x = fields_bytes(c, r0, ds) + dm;
        let y = c.encoded(r.last()) + c.terminator();
        assert(record_bytes(c, r, ds) =~= x + y);
        lemma_feed_concat(c, (Seq::empty(), none, g), x, y);
        lemma_feed_fields_delimiter(c, none, g, r0, ds, dm);
        assert(none + r0 =~= r0);
        assert(plain_field(r[r.len() - 1]));
        lemma_feed_field_terminator(c, r0, g, r.last());
        assert(r0.push(r.last()) =~= r);
    }
}

/// An encoded grid appends exactly its records.
proof fn lemma_feed_grid(c: Codec, done: Grid, g: Grid, dss: Seq<Seq<Seq<u8>>>)
    requires
        plain_grid(g),
        delimiters_fit(c, g, dss),
    ensures
        feed(c, (Seq::empty(), Seq::empty(), done), grid_bytes(c, g, dss)) == (Seq::<u8>::empty(), Seq::<Seq<char>>::empty(), done + g),
    decreases g.len(),
{
    if g.len() == 0 {
        assert(done + g =~= done);
    } else {
        let n = g.len() - 1;
        let g0 = g.drop_last();
        let d0 = dss.drop_last();
        assert(delimiters_fit(c, g0, d0)) by {
            assert forall|i: int| 0 <= i < g0.len() implies #[trigger] d0[i].len() == gaps(g0[i]) by {
                assert(dss[i].len() == gaps(g[i]));
            }
            assert forall|i: int, j: int| 0 <= i < d0.len() && 0 <= j < d0[i].len() implies c.delimits(#[trigger] d0[i][j]) by {
                assert(c.delimits(dss[i][j]));
            }
        }
        assert(plain_grid(g0)) by {
            assert forall|i: int| 0 <= i < g0.len() implies g0[i].len() > 0 && forall|j: int| 0 <= j < g0[i].len() ==> plain_field(#[trigger] g0[i][j]) by {
                assert(g0[i] == g[i]);
            }
        }
        assert(record_delimiters_fit(c, g[n], dss[n])) by {
            assert(dss[n].len() == gaps(g[n]));
            assert forall|j: int| 0 <= j < gaps(g[n]) implies c.delimits(#[trigger] dss[n][j]) by {
                assert(c.delimits(dss[n][j]));
            }
        }
        assert(g[n].len() > 0);
        assert(forall|j: int| 0 <= j < g[n].len() ==> plain_field(#[trigger] g[n][j]));
        lemma_grid_aligned(c, g0, d0);
        lemma_feed_concat(c, (Seq::empty(), Seq::empty(), done), grid_bytes(c, g0, d0), record_bytes(c, g.last(), dss.last()));
        lemma_feed_grid(c, done, g0, d0);
        lemma_feed_record(c, done + g0, g.last(), dss.last());
        assert((done + g0).push(g.last()) =~= done + g);
    }
}

/// Decoding inverts encoding: any encoding of a grid, whatever delimiters it
/// drew, decodes back to the grid, provided every record has a field and no
/// field holds a newline.
pub proof fn lemma_round_trip(c: Codec, g: Grid, b: Seq<u8>)
    requires
        plain_grid(g),
        encodes(c, g, b),
    ensures
        decoded(c, b) == g,
{
    let dss = choose|dss: Seq<Seq<Seq<u8>>>| delimiters_fit(c, g, dss) && b == grid_bytes(c, g, dss);
    lemma_feed_grid(c, Seq::empty(), g, dss);
    assert(Seq::<Seq<Seq<char>>>::empty() + g =~= g);
}

/// Empty input: the empty grid encodes to no bytes, and no bytes decode to
/// the empty grid.
pub proof fn lemma_empty(c: Codec, b: Seq<u8>)
    ensures
        encodes(c, Seq::empty(), b) <==> b.len() == 0,
        decoded(c, Seq::empty()) == Seq::<Seq<Seq<char>>>::empty(),
{
    let g = Seq::<Seq<Seq<char>>>::empty();
    let dss = Seq::<Seq<Seq<u8>>>::empty();
    if b.len() == 0 {
        assert(delimiters_fit(c, g, dss));
        assert(b =~= grid_bytes(c, g, dss));
    }
}

} // verus!

verus! {

proof fn lemma_step_done(c: Codec, st: Progress, done: Grid, chunk: Seq<u8>)
    ensures
        step(c, (st.0, st.1, done + st.2), chunk) == (step(c, st, chunk).0, step(c, st, chunk).1, done + step(c, st, chunk).2),
{
    let buf = st.0 + chunk;
    match c.attempt(buf) {
        Ok(s) => {
            if s.len() > 0 && s.last() == '\n' {
                assert((done + st.2).push(st.1.push(trim_newlines(s))) =~= done + st.2.push(st.1.push(trim_newlines(s))));
            }
        },
        Err(_) => {},
    }
}

/// Records already completed stay in front of whatever is read next.
proof fn lemma_feed_done(c: Codec, st: Progress, done: Grid, b: Seq<u8>)
    ensures
        feed(c, (st.0, st.1, done + st.2), b) == (feed(c, st, b).0, feed(c, st, b).1, done + feed(c, st, b).2),
    decreases b.len(),
{
    let u = c.unit();
    if b.len() == 0 {
    } else if b.len() <= u {
        lemma_step_done(c, st, done, b);
    } else {
        lemma_step_done(c, st, done, b.take(u));
        lemma_feed_done(c, step(c, st, b.take(u)), done, b.skip(u));
    }
}

/// Decoding an encoded grid followed by more bytes yields the grid, then
/// what the rest decodes to on its own, under the same conditions as the
/// round trip.
pub proof fn lemma_decoded_concat(c: Codec, g: Grid, b: Seq<u8>, rest: Seq<u8>)
    requires
        plain_grid(g),
        encodes(c, g, b),
    ensures
        decoded(c, b + rest) == g + decoded(c, rest),
{
    let dss = choose|dss: Seq<Seq<Seq<u8>>>| delimiters_fit(c, g, dss) && b == grid_bytes(c, g, dss);
    let none = Seq::<Seq<Seq<char>>>::empty();
    lemma_grid_aligned(c, g, dss);
    lemma_feed_concat(c, start(), b, rest);
    lemma_feed_grid(c, none, g, dss);
    assert(none + g =~= g);
    assert(g + none =~= g);
    lemma_feed_done(c, start(), g, rest);
}

} // verus!
