//! Text between quotation marks, for messages.

use vstd::prelude::*;

verus! {

/// A string between quotation marks, with everything in it that is not
/// plainly printable escaped: what `{:?}` makes of a `str`.
pub uninterp spec fn quoted(s: Seq<char>) -> Seq<char>;

/// `format!("{s:?}")`, that is `<str as Debug>::fmt`: the result depends on
/// the characters of `s` alone.
#[verifier::external_body]
pub(crate) fn quote(s: &str) -> (r: String)
    ensures
        r@ == quoted(s@),
{
    format!("{s:?}")
}

} // verus!
