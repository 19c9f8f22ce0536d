//! Filters on names, as regular expressions of the `regex` crate. An empty filter lets everything
//! pass.
use vstd::prelude::*;
use vstd::string::*;

verus! {

/// The error of the `regex` crate.
#[verifier::external_type_specification]
#[verifier::external_body]
pub struct ExRegexError(regex::Error);

/// Whether `regex::Regex::new` accepts a pattern.
pub uninterp spec fn regex_valid(pattern: Seq<char>) -> bool;

/// What `regex::Regex::is_match` answers for an accepted pattern and a text.
pub uninterp spec fn regex_matches(pattern: Seq<char>, text: Seq<char>) -> bool;

/// `Regex::new` accepts a pattern or gives an error; which of the two depends on the pattern alone.
#[verifier::external_body]
fn compile(pattern: &str) -> (r: Result<(), regex::Error>)
    ensures
        r is Ok <==> regex_valid(pattern@),
{
    regex::Regex::new(pattern).map(|_| ())
}

/// `Regex::is_match` on the regular expression that `Regex::new` makes of an accepted pattern says
/// whether it matches anywhere in a text; the answer depends on the pattern and the text alone.
#[verifier::external_body]
fn is_match(pattern: &str, text: &str) -> (r: bool)
    requires
        regex_valid(pattern@),
    ensures
        r == regex_matches(pattern@, text@),
{
    regex::Regex::new(pattern).unwrap().is_match(text)
}

/// A filter can be used: it is empty or an accepted pattern.
pub open spec fn filter_valid(filter: Seq<char>) -> bool {
    filter.len() == 0 || regex_valid(filter)
}

/// A filter lets a text pass: it is empty or matches the text.
pub open spec fn filter_passes(filter: Seq<char>, text: Seq<char>) -> bool {
    filter.len() == 0 || regex_matches(filter, text)
}

/// Whether a filter can be used; if not, the error says why.
pub(crate) fn check_filter(filter: &str) -> (r: Result<(), regex::Error>)
    ensures
        r is Ok <==> filter_valid(filter@),
{
    if filter.unicode_len() == 0 {
        Ok(())
    } else {
        compile(filter)
    }
}

/// Whether a filter lets a text pass.
pub(crate) fn passes(filter: &str, text: &str) -> (r: bool)
    requires
        filter_valid(filter@),
    ensures
        r == filter_passes(filter@, text@),
{
    filter.unicode_len() == 0 || is_match(filter, text)
}

} // verus!
