use vstd::prelude::*;

verus! {

/// Whether two texts hold the same characters.
///
/// Trusted: the body is `str`'s own `==`, which compares the contents of the
/// two slices.
#[verifier::external_body]
pub(crate) fn text_eq(a: &str, b: &str) -> (same: bool)
    ensures
        same == (a@ == b@),
{
    a == b
}

} // verus!
