//! Word storage: compact strings from the `smol_str` crate.
//!
//! Word tokens keep their text in a [`SmolStr`], an outside type that is
//! opaque here; [`smol_chars`] names the characters such a string holds, and
//! the trusted wrappers below relate it to the text the string was built
//! from.
use smol_str::SmolStr;
use vstd::prelude::*;

verus! {

#[verifier::external_type_specification]
#[verifier::external_body]
pub struct ExSmolStr(SmolStr);

/// The characters a [`SmolStr`] holds.
pub uninterp spec fn smol_chars(s: SmolStr) -> Seq<char>;

/// Relies on `SmolStr::clone`: the clone holds the same text.
pub assume_specification[ <SmolStr as Clone>::clone ](s: &SmolStr) -> (r: SmolStr)
    ensures
        smol_chars(r) == smol_chars(*s),
;

/// Relies on `SmolStr::from(&str)`: the new string holds exactly the given
/// text.
#[verifier::external_body]
pub(crate) fn smol_from(s: &str) -> (r: SmolStr)
    ensures
        smol_chars(r) == s@,
{
    SmolStr::from(s)
}

/// Relies on `SmolStr::as_str`: it returns exactly the held text.
#[verifier::external_body]
pub fn smol_as_str(s: &SmolStr) -> (r: &str)
    ensures
        r@ == smol_chars(*s),
{
    s.as_str()
}

} // verus!
