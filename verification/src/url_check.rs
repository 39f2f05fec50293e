//! Syntactic URL validation, done by the url crate.
use vstd::prelude::*;

verus! {

/// Whether a string is a syntactically valid absolute URL: exactly the strings
/// that `url::Url::parse` accepts. The answer depends on the string alone.
pub uninterp spec fn is_valid_url(s: Seq<char>) -> bool;

/// Relies on url::Url::parse: a pure syntactic parse whose success depends on
/// the input string alone, with no I/O and no panic.
#[verifier::external_body]
pub(crate) fn url_parses(s: &str) -> (r: bool)
    ensures
        r == is_valid_url(s@),
{
    url::Url::parse(s).is_ok()
}

} // verus!
