//! Regular expressions, compiled once and matched many times.

use vstd::prelude::*;

verus! {

/// The regular expression type of the `regex` crate.
#[verifier::external_type_specification]
#[verifier::external_body]
pub struct ExRegex(regex::Regex);

/// Whether `regex::Regex::new` accepts `pattern`.
pub uninterp spec fn regex_compiles(pattern: Seq<char>) -> bool;

/// The byte range of the leftmost-first match of the regular expression
/// `pattern` in `haystack`, as `regex::Regex::find` reports it.
pub uninterp spec fn regex_first_match(pattern: Seq<char>, haystack: Seq<char>) -> Option<(usize, usize)>;

/// A regular expression with the pattern it was compiled from.
pub struct CompiledRegexp {
    pattern: String,
    regex: regex::Regex,
}

impl CompiledRegexp {
    /// The pattern the expression was compiled from.
    pub closed spec fn pattern_view(&self) -> Seq<char> {
        self.pattern@
    }

    /// The pattern the expression was compiled from.
    pub fn pattern(&self) -> (p: &str)
        ensures
            p@ == self.pattern_view(),
    {
        self.pattern.as_str()
    }
}

/// Compiles `pattern` with `regex::Regex::new`; none when the crate refuses
/// it. The contract claims that the outcome depends on the pattern alone.
#[verifier::external_body]
pub(crate) fn compile_regexp(pattern: &str) -> (r: Option<CompiledRegexp>)
    ensures
        r is Some <==> regex_compiles(pattern@),
        r matches Some(c) ==> c.pattern_view() == pattern@,
{
    match regex::Regex::new(pattern) {
        Ok(regex) => Some(CompiledRegexp { pattern: pattern.to_owned(), regex }),
        Err(_) => None,
    }
}

/// The byte range of the first match in `haystack` (`regex::Regex::find`,
/// with `Match::start` and `Match::end`). The contract claims that the
/// result depends on the pattern and the haystack alone.
#[verifier::external_body]
pub(crate) fn find_first(re: &CompiledRegexp, haystack: &str) -> (r: Option<(usize, usize)>)
    ensures
        r == regex_first_match(re.pattern_view(), haystack@),
{
    match re.regex.find(haystack) {
        Some(found) => Some((found.start(), found.end())),
        None => None,
    }
}

} // verus!
