//! The two bridges between `&str`/`String` and the character vectors the
//! verified code works on. Everything else in the crate stays on
//! `Vec<char>` and `Seq<char>`.

use vstd::prelude::*;

verus! {

/// Relies on str::chars: iterating a string slice yields exactly the
/// characters of its view, in order.
#[verifier::external_body]
pub fn chars_of(s: &str) -> (r: Vec<char>)
    ensures
        r@ == s@,
{
    s.chars().collect()
}

/// Relies on String's FromIterator over char: collecting characters builds
/// the string whose view is exactly that character sequence.
#[verifier::external_body]
pub fn string_from_chars(v: &Vec<char>) -> (r: String)
    ensures
        r@ == v@,
{
    v.iter().collect()
}

} // verus!
