//! Text helpers shared by the codecs: the shape of a decode attempt and the
//! conversions between `char` sequences and `String`.

use vstd::prelude::*;
use vstd::utf8::is_scalar;

verus! {

/// What a decode attempt yields: the whole text, or the text that decodes
/// before the first invalid unit together with that unit's index.
pub type Attempt = Result<Seq<char>, (Seq<char>, int)>;

/// Puts `pre` in front of the text of `r`; an invalid index moves by `n` units.
pub open spec fn lead_with(pre: Seq<char>, n: int, r: Attempt) -> Attempt {
    match r {
        Ok(s) => Ok(pre + s),
        Err((s, i)) => Err((pre + s, i + n)),
    }
}

/// The mathematical value of an executable decode result.
pub open spec fn attempt_view(r: Result<Vec<char>, (Vec<char>, usize)>) -> Attempt {
    match r {
        Ok(s) => Ok(s@),
        Err((s, i)) => Err((s@, i as int)),
    }
}

/// The mathematical value of a decode result whose text is a `String`.
pub open spec fn string_attempt_view(r: Result<String, (String, usize)>) -> Attempt {
    match r {
        Ok(s) => Ok(s@),
        Err((s, i)) => Err((s@, i as int)),
    }
}

pub proof fn lemma_lead_with_twice(a: Seq<char>, n: int, b: Seq<char>, m: int, r: Attempt)
    ensures
        lead_with(a, n, lead_with(b, m, r)) == lead_with(a + b, n + m, r),
{
    match r {
        Ok(s) => {
            assert(a + (b + s) =~= (a + b) + s);
        },
        Err((s, i)) => {
            assert(a + (b + s) =~= (a + b) + s);
        },
    }
}

pub proof fn lemma_lead_with_nothing(r: Attempt)
    ensures
        lead_with(Seq::empty(), 0, r) == r,
{
    match r {
        Ok(s) => {
            assert(Seq::<char>::empty() + s =~= s);
        },
        Err((s, i)) => {
            assert(Seq::<char>::empty() + s =~= s);
        },
    }
}

/// Relies on `char::from_u32`: `Some` exactly for a Unicode scalar value,
/// holding the `char` of that value.
#[verifier::external_body]
pub(crate) fn char_from_u32(v: u32) -> (r: Option<char>)
    ensures
        r == (if is_scalar(v) {
            Some(v as char)
        } else {
            None
        }),
{
    char::from_u32(v)
}

/// Relies on `String`'s `FromIterator<&char>`: the string holds the given
/// characters in order.
#[verifier::external_body]
pub(crate) fn string_from_chars(chars: &Vec<char>) -> (r: String)
    ensures
        r@ == chars@,
{
    chars.iter().collect()
}

} // verus!
