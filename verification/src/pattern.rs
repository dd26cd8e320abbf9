//! Pattern sets, compiled and matched by the `regex` crate.

use vstd::prelude::*;
use crate::settings::strings;

verus! {

/// `regex::RegexSet`: a set of compiled patterns, carried as it is.
#[verifier::external_type_specification]
#[verifier::external_body]
pub struct ExRegexSet(regex::RegexSet);

/// `regex::Error`: why patterns did not compile, carried as it is.
#[verifier::external_type_specification]
#[verifier::external_body]
pub struct ExRegexError(regex::Error);

/// What `RegexSet::patterns` hands out: the patterns that a set was
/// compiled from, in the order in which they were given.
pub uninterp spec fn set_patterns(set: regex::RegexSet) -> Seq<Seq<char>>;

/// Whether `RegexSet::new` makes a set of the patterns.
pub uninterp spec fn patterns_compile(patterns: Seq<Seq<char>>) -> bool;

/// What `RegexSet::is_match` finds for a set of these patterns: whether
/// one of them matches somewhere in the text.
pub uninterp spec fn any_pattern_matches(patterns: Seq<Seq<char>>, text: Seq<char>) -> bool;

/// `RegexSet::new`: compiles the patterns into one set. Whether they compile
/// depends on the patterns alone, and the set that comes back holds the
/// patterns that were given. No patterns at all make the empty set.
#[verifier::external_body]
pub(crate) fn compile_set(patterns: &Vec<String>) -> (res: Result<regex::RegexSet, regex::Error>)
    ensures
        res is Ok <==> patterns_compile(strings(patterns@)),
        res matches Ok(set) ==> set_patterns(set) == strings(patterns@),
        patterns@.len() == 0 ==> res is Ok,
{
    regex::RegexSet::new(patterns)
}

/// `RegexSet::is_match`: whether one of the set's patterns matches somewhere
/// in the text. The empty set matches nothing.
#[verifier::external_body]
pub(crate) fn set_is_match(set: &regex::RegexSet, text: &str) -> (res: bool)
    ensures
        res == any_pattern_matches(set_patterns(*set), text@),
        set_patterns(*set).len() == 0 ==> !res,
{
    set.is_match(text)
}

/// `ToString::to_string` on a `regex::Error`: what the error says of itself.
/// Nothing is promised of the text.
#[verifier::external_body]
pub(crate) fn error_text(error: &regex::Error) -> (res: String)
{
    error.to_string()
}

/// The exclude patterns did not compile. The message is what the compiler
/// of patterns said of them.
#[derive(Clone, Debug, PartialEq, Eq)]
pub struct PatternError {
    pub message: String,
}

} // verus!
