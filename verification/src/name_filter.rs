//! Names to leave out, given as a regular expression of the `regex` crate.

use vstd::prelude::*;

verus! {

/// A compiled regular expression of the `regex` crate, taken as opaque.
#[verifier::external_type_specification]
#[verifier::external_body]
pub struct ExRegex(regex::Regex);

/// The error with which `Regex::new` refuses a pattern, taken as opaque.
#[verifier::external_type_specification]
#[verifier::external_body]
pub struct ExRegexError(regex::Error);

/// Whether `Regex::new` accepts this pattern.
pub uninterp spec fn pattern_is_valid(pattern: Seq<char>) -> bool;

/// Whether the regular expression compiled from `pattern` matches anywhere
/// in `text`: `Regex::is_match`.
pub uninterp spec fn pattern_matches(pattern: Seq<char>, text: Seq<char>) -> bool;

/// A compiled regular expression together with the pattern it came from.
pub struct NameFilter {
    pattern: String,
    compiled: regex::Regex,
}

/// A pattern that is no regular expression, or one too large to compile.
#[derive(Debug, PartialEq, Eq)]
pub struct InvalidPattern {
    pub pattern: String,
}

/// `Regex::new`: compiles the pattern, or fails where it is invalid. The
/// filter keeps the pattern beside the compiled expression.
#[verifier::external_body]
fn compile(pattern: &str) -> (made: Result<NameFilter, regex::Error>)
    ensures
        made is Ok <==> pattern_is_valid(pattern@),
        made matches Ok(filter) ==> filter.pattern() == pattern@,
{
    regex::Regex::new(pattern).map(|rx| NameFilter { pattern: pattern.to_owned(), compiled: rx })
}

/// `Regex::is_match`: whether the expression matches anywhere in the text.
#[verifier::external_body]
fn is_match(filter: &NameFilter, text: &str) -> (hit: bool)
    ensures
        hit == pattern_matches(filter.pattern(), text@),
{
    filter.compiled.is_match(text)
}

impl NameFilter {
    /// The pattern that the filter was compiled from.
    pub closed spec fn pattern(&self) -> Seq<char> {
        self.pattern@
    }

    /// Compiles a pattern into a filter.
    pub fn new(pattern: &str) -> (made: Result<NameFilter, InvalidPattern>)
        ensures
            made is Ok <==> pattern_is_valid(pattern@),
            made matches Ok(filter) ==> filter.pattern() == pattern@,
            made matches Err(e) ==> e.pattern@ == pattern@,
    {
        match compile(pattern) {
            Ok(filter) => Ok(filter),
            Err(_) => Err(InvalidPattern { pattern: pattern.to_owned() }),
        }
    }

    /// The pattern as text.
    pub fn as_str(&self) -> (text: &str)
        ensures
            text@ == self.pattern(),
    {
        self.pattern.as_str()
    }

    /// Whether the filter matches anywhere in `text`.
    pub fn matches(&self, text: &str) -> (hit: bool)
        ensures
            hit == pattern_matches(self.pattern(), text@),
    {
        is_match(self, text)
    }
}

} // verus!
