//! Shared texts: the names of variables and the bodies of comments.

use std::rc::Rc;
use vstd::prelude::*;

verus! {

/// Compares two shared texts with `==`, that is `PartialEq::eq` of
/// `Rc<str>`, which compares the texts that the two pointers lead to: the
/// result says whether they hold the same characters.
#[verifier::external_body]
pub(crate) fn same_text(a: &Rc<str>, b: &Rc<str>) -> (r: bool)
    ensures
        r == (a@ == b@),
{
    a == b
}

/// Makes another pointer to a shared text with `Rc::clone`: the result
/// leads to the same text.
#[verifier::external_body]
pub(crate) fn share_text(a: &Rc<str>) -> (r: Rc<str>)
    ensures
        r@ == a@,
{
    Rc::clone(a)
}

/// Copies a text into a shared one with `Rc::from`, that is
/// `From<&str>` of `Rc<str>`: the result holds the same characters.
#[verifier::external_body]
pub(crate) fn shared_text(s: &str) -> (r: Rc<str>)
    ensures
        r@ == s@,
{
    Rc::from(s)
}

} // verus!
