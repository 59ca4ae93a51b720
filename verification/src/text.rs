//! Small trusted bridges to the standard library's text facilities.
use vstd::prelude::*;

verus! {

/// Relies on `String::from_iter` over `char`: collecting characters yields
/// the string of exactly those characters in order.
#[verifier::external_body]
pub fn string_from_chars(v: &Vec<char>) -> (r: String)
    ensures
        r@ == v@,
{
    v.iter().collect()
}

} // verus!
