//! The two bridges between `String`/`&str` and the `Vec<char>` form that the
//! verified code works on. Both views agree (`Seq<char>`), so the contracts
//! are pure identities on the view.
use vstd::prelude::*;

verus! {

/// Relies on `str::chars` (with `collect`): yields exactly the characters of
/// the string, in order.
#[verifier::external_body]
pub fn chars_of(s: &str) -> (r: Vec<char>)
    ensures
        r@ == s@,
{
    s.chars().collect()
}

/// Relies on `String`'s `FromIterator<char>` (via `collect`): builds the
/// string holding exactly the given characters, in order.
#[verifier::external_body]
pub fn string_from_chars(v: &Vec<char>) -> (r: String)
    ensures
        r@ == v@,
{
    v.iter().collect()
}

} // verus!
