//! The closed set of encoding variants and the capabilities each provides:
//! unit width, text encoding, decode attempts and delimiter generation.

use vstd::prelude::*;
use vstd::slice::slice_to_vec;
use vstd::utf8::encode_utf8;
use rand::Rng;
use crate::text::{Attempt, attempt_view, string_attempt_view, string_from_chars};
use crate::utf8;
use crate::utf16;
use crate::utf32;

verus! {

/// A text encoding that BadSV can be written in.
#[derive(Clone, Copy, Debug, PartialEq, Eq, Structural)]
pub enum Codec {
    Utf8,
    Utf16,
    Utf32,
}

/// The 8-bit delimiter with index `k` among the candidates: first the two
/// bytes that only start overlong sequences, then the bytes that start no
/// sequence at all, then the continuation bytes.
pub open spec fn utf8_candidate(k: int) -> u8 {
    if k < 2 {
        (0xc0 + k) as u8
    } else if k < 13 {
        (0xf5 + k - 2) as u8
    } else {
        (0x80 + k - 13) as u8
    }
}

impl Codec {
    /// Bytes per code unit.
    pub open spec fn unit(self) -> int {
        match self {
            Codec::Utf8 => 1,
            Codec::Utf16 => 2,
            Codec::Utf32 => 4,
        }
    }

    /// The bytes of a text.
    pub open spec fn encoded(self, s: Seq<char>) -> Seq<u8> {
        match self {
            Codec::Utf8 => encode_utf8(s),
            Codec::Utf16 => utf16::encode(s),
            Codec::Utf32 => utf32::encode(s),
        }
    }

    /// What a decode attempt on `b` yields.
    pub open spec fn attempt(self, b: Seq<u8>) -> Attempt {
        match self {
            Codec::Utf8 => utf8::scan(b),
            Codec::Utf16 => utf16::scan(utf16::units(b)),
            Codec::Utf32 => utf32::scan(utf32::units(b)),
        }
    }

    /// `d` is one of the variant's delimiters: one unit whose bit pattern is
    /// invalid wherever it stands after complete characters.
    pub open spec fn delimits(self, d: Seq<u8>) -> bool {
        match self {
            Codec::Utf8 => d.len() == 1 && (0x80 <= d[0] <= 0xc1 || 0xf5 <= d[0]),
            Codec::Utf16 => d.len() == 2 && utf16::is_low(utf16::unit_at(d, 0)),
            Codec::Utf32 => d.len() == 4 && utf32::unit_at(d, 0) > 0x10ffff,
        }
    }

    /// How many delimiters the variant has.
    pub open spec fn candidates(self) -> int {
        match self {
            Codec::Utf8 => 77,
            Codec::Utf16 => 0x400,
            Codec::Utf32 => 0xffef0000,
        }
    }

    /// The delimiter that the number `pick` selects.
    pub open spec fn delimiter_for(self, pick: u32) -> Seq<u8> {
        match self {
            Codec::Utf8 => seq![utf8_candidate(pick as int % 77)],
            Codec::Utf16 => utf16::unit_bytes(0xdc00 + pick as int % 0x400),
            Codec::Utf32 => utf32::unit_bytes((0x110000 + pick as int % 0xffef0000) as u32),
        }
    }

    /// The record terminator: `unit - 1` zero bytes, then a newline byte.
    pub open spec fn terminator(self) -> Seq<u8> {
        Seq::new((self.unit() - 1) as nat, |i: int| 0u8).push(0x0au8)
    }

    /// Bytes per code unit.
    pub fn width(&self) -> (r: usize)
        ensures
            r as int == self.unit(),
    {
        match self {
            Codec::Utf8 => 1,
            Codec::Utf16 => 2,
            Codec::Utf32 => 4,
        }
    }

    /// Encodes a text.
    pub fn encode(&self, data: &str) -> (r: Vec<u8>)
        ensures
            r@ == self.encoded(data@),
    {
        match self {
            Codec::Utf8 => slice_to_vec(data.as_bytes()),
            Codec::Utf16 => {
                let cs = utf8::chars_of(data);
                let mut out: Vec<u8> = Vec::new();
                utf16::push_encoded(&mut out, &cs);
                assert(out@ =~= utf16::encode(data@));
                out
            },
            Codec::Utf32 => {
                let cs = utf8::chars_of(data);
                let mut out: Vec<u8> = Vec::new();
                utf32::push_encoded(&mut out, &cs);
                assert(out@ =~= utf32::encode(data@));
                out
            },
        }
    }

    /// Decodes `b` as far as it goes, giving the characters.
    pub fn decode_chars(&self, b: &[u8]) -> (r: Result<Vec<char>, (Vec<char>, usize)>)
        ensures
            attempt_view(r) == self.attempt(b@),
    {
        match self {
            Codec::Utf8 => utf8::scan_bytes(b),
            Codec::Utf16 => utf16::scan_bytes(b),
            Codec::Utf32 => utf32::scan_bytes(b),
        }
    }

    /// Decodes `b` as far as it goes: `Ok` with the text where `b` holds
    /// complete characters, possibly followed by an incomplete one that more
    /// bytes could finish; else `Err` with the text before the first invalid
    /// unit and that unit's index.
    pub fn try_decode(&self, b: &[u8]) -> (r: Result<String, (String, usize)>)
        ensures
            string_attempt_view(r) == self.attempt(b@),
    {
        match self.decode_chars(b) {
            Ok(cs) => Ok(string_from_chars(&cs)),
            Err((cs, i)) => Err((string_from_chars(&cs), i)),
        }
    }

    /// The delimiter that the number `pick` selects.
    pub fn delimiter(&self, pick: u32) -> (r: Vec<u8>)
        ensures
            r@ == self.delimiter_for(pick),
            self.delimits(r@),
    {
        match self {
            Codec::Utf8 => {
                let k = pick % 77;
                let b: u8 = if k < 2 {
                    (0xc0 + k) as u8
                } else if k < 13 {
                    (0xf5 + k - 2) as u8
                } else {
                    (0x80 + k - 13) as u8
                };
                let r = vec![b];
                assert(r@ =~= self.delimiter_for(pick));
                r
            },
            Codec::Utf16 => {
                let v = 0xdc00 + pick % 0x400;
                let r = vec![(v / 0x100) as u8, (v % 0x100) as u8];
                assert(r@ =~= self.delimiter_for(pick));
                r
            },
            Codec::Utf32 => {
                let v = 0x110000 + pick % 0xffef0000;
                let r = vec![(v / 0x1000000) as u8, (v / 0x10000 % 0x100) as u8, (v / 0x100 % 0x100) as u8, (v % 0x100) as u8];
                assert(r@ =~= self.delimiter_for(pick));
                r
            },
        }
    }

    /// A delimiter drawn at random, fresh on each call: the one that a
    /// number drawn below the count of candidates selects.
    pub fn get_delimiter(&self) -> (r: Vec<u8>)
        ensures
            self.delimits(r@),
            exists|pick: u32| pick < self.candidates() && r@ == #[trigger] self.delimiter_for(pick),
    {
        let count: u32 = match self {
            Codec::Utf8 => 77,
            Codec::Utf16 => 0x400,
            Codec::Utf32 => 0xffef0000,
        };
        let pick = random_in(0, count);
        let r = self.delimiter(pick);
        assert(pick < self.candidates() && r@ == self.delimiter_for(pick));
        r
    }

    /// Whether `d` is one of the variant's delimiters.
    pub fn is_delimiter(&self, d: &[u8]) -> (r: bool)
        ensures
            r == self.delimits(d@),
    {
        match self {
            Codec::Utf8 => d.len() == 1 && ((0x80 <= d[0] && d[0] <= 0xc1) || 0xf5 <= d[0]),
            Codec::Utf16 => {
                d.len() == 2 && {
                    let v = (d[0] as u32) * 0x100 + d[1] as u32;
                    0xdc00 <= v && v <= 0xdfff
                }
            },
            Codec::Utf32 => {
                d.len() == 4 && {
                    let v = (d[0] as u64) * 0x1000000 + (d[1] as u64) * 0x10000 + (d[2] as u64)
                        * 0x100 + d[3] as u64;
                    v > 0x10ffff
                }
            },
        }
    }
}

/// Relies on rand's `Rng::gen_range` on the thread-local generator: a value
/// in `[low, high)`; it panics when `low >= high`, which `requires` excludes.
#[verifier::external_body]
fn random_in(low: u32, high: u32) -> (r: u32)
    requires
        low < high,
    ensures
        low <= r < high,
{
    rand::thread_rng().gen_range(low, high)
}

} // verus!
