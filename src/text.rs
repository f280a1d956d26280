//! Building strings from characters.
use vstd::prelude::*;

verus! {

/// Relies on `String`'s `FromIterator<char>`: the string of the characters, in order.
#[verifier::external_body]
pub(crate) fn string_from_chars(chars: &Vec<char>) -> (r: String)
    ensures
        r@ == chars@,
{
    chars.iter().collect()
}

} // verus!
