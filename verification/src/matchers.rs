//! Compiled glob and regular-expression matchers, and the clock that times
//! a search. These are the library's only calls into the `glob` and `regex`
//! crates and into `std::time`.
use vstd::prelude::*;

verus! {

#[verifier::external_type_specification]
#[verifier::external_body]
pub struct ExPattern(glob::Pattern);

#[verifier::external_type_specification]
#[verifier::external_body]
pub struct ExRegex(regex::Regex);

#[verifier::external_type_specification]
#[verifier::external_body]
pub struct ExInstant(std::time::Instant);

/// Names whether `glob::Pattern::new` accepts `pattern`.
pub uninterp spec fn glob_compiles(pattern: Seq<char>) -> bool;

/// Names whether the pattern compiled from `pattern` matches all of `text`
/// (`glob::Pattern::matches` with default options).
pub uninterp spec fn glob_matches(pattern: Seq<char>, text: Seq<char>) -> bool;

/// Names whether `regex::Regex::new` accepts `pattern`.
pub uninterp spec fn regex_compiles(pattern: Seq<char>) -> bool;

/// Names whether the regex compiled from `pattern` matches somewhere in
/// `text` (`regex::Regex::is_match`).
pub uninterp spec fn regex_matches(pattern: Seq<char>, text: Seq<char>) -> bool;

/// A glob pattern together with the text it was compiled from.
pub struct GlobMatcher {
    source: String,
    pattern: glob::Pattern,
}

impl GlobMatcher {
    /// The text the pattern was compiled from.
    pub closed spec fn source(&self) -> Seq<char> {
        self.source@
    }
}

/// A regular expression together with the text it was compiled from.
pub struct RegexMatcher {
    source: String,
    regex: regex::Regex,
}

impl RegexMatcher {
    /// The text the expression was compiled from.
    pub closed spec fn source(&self) -> Seq<char> {
        self.source@
    }
}

/// `glob::Pattern::new`: compiles `source`; the result is present exactly
/// when the pattern is valid, and it remembers `source`. Which patterns are
/// valid is only named, not stated.
#[verifier::external_body]
pub(crate) fn compile_glob(source: &str) -> (res: Option<GlobMatcher>)
    ensures
        res is Some <==> glob_compiles(source@),
        res matches Some(m) ==> m.source() == source@,
{
    match glob::Pattern::new(source) {
        Ok(pattern) => Some(GlobMatcher { source: source.to_string(), pattern }),
        Err(_) => None,
    }
}

/// `glob::Pattern::matches`: whether the compiled pattern matches `text`.
/// Since a `GlobMatcher` is only made by `compile_glob`, its pattern is the
/// one compiled from its source.
#[verifier::external_body]
pub(crate) fn glob_is_match(m: &GlobMatcher, text: &str) -> (res: bool)
    ensures
        res == glob_matches(m.source(), text@),
{
    m.pattern.matches(text)
}

/// `regex::Regex::new`: compiles `source`; the result is present exactly
/// when the expression is accepted, and it remembers `source`.
#[verifier::external_body]
pub(crate) fn compile_regex(source: &str) -> (res: Option<RegexMatcher>)
    ensures
        res is Some <==> regex_compiles(source@),
        res matches Some(m) ==> m.source() == source@,
{
    match regex::Regex::new(source) {
        Ok(regex) => Some(RegexMatcher { source: source.to_string(), regex }),
        Err(_) => None,
    }
}

/// `regex::Regex::is_match`: whether the compiled expression matches
/// somewhere in `text`.
#[verifier::external_body]
pub(crate) fn regex_is_match(m: &RegexMatcher, text: &str) -> (res: bool)
    ensures
        res == regex_matches(m.source(), text@),
{
    m.regex.is_match(text)
}

/// `std::time::Instant::now`. Nothing is promised of the reading.
#[verifier::external_body]
pub(crate) fn clock_now() -> (res: std::time::Instant) {
    std::time::Instant::now()
}

/// `Instant::elapsed`, in microseconds. Nothing is promised of the reading.
#[verifier::external_body]
pub(crate) fn micros_since(start: &std::time::Instant) -> (res: u128) {
    start.elapsed().as_micros()
}

} // verus!
