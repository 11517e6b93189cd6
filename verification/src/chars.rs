//! Character classes that std decides from Unicode tables.
use vstd::prelude::*;

verus! {

/// Whether `c` is alphabetic or numeric in Unicode's sense, as `char::is_alphanumeric` decides.
pub uninterp spec fn alphanumeric(c: char) -> bool;

/// Trusted: `char::is_alphanumeric` answers from Unicode's tables and depends
/// on the character alone; its answer is named `alphanumeric(c)`.
#[verifier::external_body]
pub(crate) fn is_alphanumeric(c: char) -> (r: bool)
    ensures
        r == alphanumeric(c),
{
    c.is_alphanumeric()
}

/// Whether `c` has Unicode's `White_Space` property, as `char::is_whitespace` decides.
pub uninterp spec fn whitespace(c: char) -> bool;

/// Trusted: `char::is_whitespace` answers from Unicode's tables and depends
/// on the character alone; its answer is named `whitespace(c)`.
#[verifier::external_body]
pub(crate) fn is_whitespace(c: char) -> (r: bool)
    ensures
        r == whitespace(c),
{
    c.is_whitespace()
}

} // verus!
