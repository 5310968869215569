//! The name filter of the report: a regular expression that a row's name
//! must match for the row to be shown.

use vstd::prelude::*;

verus! {

#[verifier::external_type_specification]
#[verifier::external_body]
pub struct ExRegex(regex::Regex);

#[verifier::external_type_specification]
#[verifier::external_body]
pub struct ExRegexError(regex::Error);

/// Whether the regular expression `pattern` matches somewhere in `text`.
pub uninterp spec fn pattern_matches(pattern: Seq<char>, text: Seq<char>) -> bool;

/// Whether `regex::Regex::new` accepts `pattern` (valid syntax, and within
/// the default size limit).
pub uninterp spec fn regex_compiles(pattern: Seq<char>) -> bool;

/// Relies on `regex::Regex::new`: compiles the pattern, or fails when it is
/// invalid or too big for the default size limit; which of the two happens
/// depends on the pattern alone.
#[verifier::external_body]
fn compile(pattern: &str) -> (r: Result<regex::Regex, regex::Error>)
    ensures
        r is Ok <==> regex_compiles(pattern@),
{
    regex::Regex::new(pattern)
}

/// Relies on the `Display` impl of `regex::Error`: its message.
#[verifier::external_body]
fn error_message(e: &regex::Error) -> (r: String) {
    e.to_string()
}

/// A pattern that does not compile, with the reason.
pub struct InvalidPattern {
    pub message: String,
}

/// A compiled name filter; `regex` is always compiled from `pattern`.
pub struct NameFilter {
    pattern: String,
    regex: regex::Regex,
}

impl View for NameFilter {
    type V = Seq<char>;

    /// The pattern the filter was made from.
    closed spec fn view(&self) -> Seq<char> {
        self.pattern@
    }
}

impl NameFilter {
    /// Compiles `pattern`.
    pub fn new(pattern: &str) -> (r: Result<NameFilter, InvalidPattern>)
        ensures
            r is Ok <==> regex_compiles(pattern@),
            r matches Ok(f) ==> f@ == pattern@,
    {
        match compile(pattern) {
            Ok(regex) => Ok(NameFilter { pattern: pattern.to_owned(), regex }),
            Err(e) => Err(InvalidPattern { message: error_message(&e) }),
        }
    }

    /// The pattern the filter was made from.
    pub fn pattern(&self) -> (r: &str)
        ensures
            r@ == self@,
    {
        self.pattern.as_str()
    }

    /// Relies on `regex::Regex::is_match`: whether the regex matches
    /// anywhere in `text`; `self.regex` was compiled from `self.pattern`.
    #[verifier::external_body]
    pub(crate) fn is_match(&self, text: &str) -> (r: bool)
        ensures
            r == pattern_matches(self@, text@),
    {
        self.regex.is_match(text)
    }
}

} // verus!
