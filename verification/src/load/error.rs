//! What the load generator says when it fails.

use vstd::prelude::*;

verus! {

/// A failure, in words.
#[derive(Clone, Debug, PartialEq, Eq)]
pub struct Error {
    pub message: String,
}

pub fn error(message: String) -> (r: Error)
    ensures
        r.message == message,
{
    Error { message }
}

/// Two pieces of text in a row.
pub fn pair(a: &str, b: &str) -> (r: String)
    ensures
        r@ == a@ + b@,
{
    let mut out = String::new();
    out.append(a);
    out.append(b);
    assert(out@ =~= a@ + b@);
    out
}

/// Three pieces of text in a row.
pub fn join(a: &str, b: &str, c: &str) -> (r: String)
    ensures
        r@ == a@ + b@ + c@,
{
    let mut out = String::new();
    out.append(a);
    out.append(b);
    out.append(c);
    assert(out@ =~= a@ + b@ + c@);
    out
}

} // verus!
