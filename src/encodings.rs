//! The registry of encoding variants, the capability traits that each
//! variant's encoder and decoder provide, and conversion by variant name.

use vstd::prelude::*;
use crate::codec::Codec;
use crate::engine::{compile_with, decoded, encodes, parse_with};
use crate::text::string_attempt_view;
use crate::utf8::chars_of;

verus! {

/// The failure of a lookup by name: no variant is registered under it.
#[derive(Clone, Copy, Debug, PartialEq, Eq, Structural)]
pub struct UnsupportedEncoding;

/// A value tied to one encoding variant.
pub trait Encoding {
    /// The variant.
    spec fn codec(&self) -> Codec;

    /// Bytes per code unit.
    fn size(&self) -> (r: usize)
        ensures
            r as int == self.codec().unit(),
    ;
}

/// Writes text and delimiters of a variant.
pub trait Encoder: Encoding {
    /// The bytes of `data`.
    fn encode(&self, data: &str) -> (r: Vec<u8>)
        ensures
            r@ == self.codec().encoded(data@),
    ;

    /// A fresh delimiter, invalid in the variant.
    fn get_delimiter(&self) -> (r: Vec<u8>)
        ensures
            self.codec().delimits(r@),
    ;
}

/// Reads text of a variant.
pub trait Decoder: Encoding {
    /// Decodes `bytes` as far as they go.
    fn try_decode(&self, bytes: &[u8]) -> (r: Result<String, (String, usize)>)
        ensures
            string_attempt_view(r) == self.codec().attempt(bytes@),
    ;
}

/// The variant registered under `name`, if any.
pub open spec fn codec_named(name: Seq<char>) -> Option<Codec> {
    if name == "utf-8"@ {
        Some(Codec::Utf8)
    } else if name == "utf-16"@ {
        Some(Codec::Utf16)
    } else if name == "utf-32"@ {
        Some(Codec::Utf32)
    } else {
        None
    }
}

/// Whether two strings hold the same characters.
fn same_text(a: &str, b: &str) -> (r: bool)
    ensures
        r == (a@ == b@),
{
    let x = chars_of(a);
    let y = chars_of(b);
    if x.len() != y.len() {
        return false;
    }
    let mut k: usize = 0;
    while k < x.len()
        invariant
            x@.len() == y@.len(),
            x@ == a@,
            y@ == b@,
            0 <= k <= x@.len(),
            forall|m: int| 0 <= m < k ==> x@[m] == y@[m],
        decreases x@.len() - k,
    {
        if x[k] != y[k] {
            return false;
        }
        k = k + 1;
    }
    assert(x@ =~= y@);
    true
}

/// Looks a variant up by name.
pub fn resolve(name: &str) -> (r: Result<Codec, UnsupportedEncoding>)
    ensures
        r == (match codec_named(name@) {
            Some(c) => Ok(c),
            None => Err(UnsupportedEncoding),
        }),
{
    if same_text(name, "utf-8") {
        Ok(Codec::Utf8)
    } else if same_text(name, "utf-16") {
        Ok(Codec::Utf16)
    } else if same_text(name, "utf-32") {
        Ok(Codec::Utf32)
    } else {
        Err(UnsupportedEncoding)
    }
}

/// The names of the registered variants, in order.
pub fn list_encodings() -> (r: Vec<&'static str>)
    ensures
        r@.len() == 3,
        r@[0]@ == "utf-8"@,
        r@[1]@ == "utf-16"@,
        r@[2]@ == "utf-32"@,
        forall|k: int| 0 <= k < r@.len() ==> codec_named(#[trigger] r@[k]@) is Some,
{
    vec!["utf-8", "utf-16", "utf-32"]
}

/// Decodes BadSV bytes in the variant named `encoding` into a grid.
pub fn parse(data: &[u8], encoding: &str) -> (r: Result<Vec<Vec<String>>, UnsupportedEncoding>)
    ensures
        match codec_named(encoding@) {
            Some(c) => r is Ok && r->Ok_0.deep_view() == decoded(c, data@),
            None => r == Err::<Vec<Vec<String>>, UnsupportedEncoding>(UnsupportedEncoding),
        },
{
    match resolve(encoding) {
        Ok(c) => Ok(parse_with(data, c)),
        Err(e) => Err(e),
    }
}

/// Encodes a grid as BadSV in the variant named `encoding`.
pub fn compile(data: Vec<Vec<String>>, encoding: &str) -> (r: Result<Vec<u8>, UnsupportedEncoding>)
    ensures
        match codec_named(encoding@) {
            Some(c) => r is Ok && encodes(c, data.deep_view(), r->Ok_0@),
            None => r == Err::<Vec<u8>, UnsupportedEncoding>(UnsupportedEncoding),
        },
{
    match resolve(encoding) {
        Ok(c) => Ok(compile_with(&data, c)),
        Err(e) => Err(e),
    }
}

} // verus!
