use vstd::prelude::*;
use regex::Regex;

verus! {

#[verifier::external_type_specification]
#[verifier::external_body]
pub struct ExRegex(regex::Regex);

/// The texts of the successive non-overlapping leftmost-first matches that
/// `regex` reports for `pattern` (compiled with the default settings) in
/// `haystack`, in the order in which they occur.
pub uninterp spec fn regex_matches(pattern: Seq<char>, haystack: Seq<char>) -> Seq<Seq<char>>;

/// Whether `regex` compiles `pattern` with the default settings (a valid
/// pattern whose compiled form stays within the default size limit).
pub uninterp spec fn regex_compiles(pattern: Seq<char>) -> bool;

/// A compiled regular expression together with the pattern it was compiled from.
///
/// Matchers are built only by `compile_matcher`, which stores in `re` the regex
/// that `regex` compiled from `pattern`.
pub struct Matcher {
    re: Regex,
    pattern: String,
}

impl View for Matcher {
    type V = Seq<char>;

    /// The pattern the matcher was compiled from.
    closed spec fn view(&self) -> Seq<char> {
        self.pattern@
    }
}

/// `regex::Regex::new`, kept together with the pattern it compiled: `Some`
/// exactly where the regex crate accepts `pattern`, which depends on the
/// pattern alone and is named by `regex_compiles`.  The matcher holds the
/// regex compiled from `pattern` and a copy of `pattern` itself.
#[verifier::external_body]
fn compile_matcher(pattern: &str) -> (r: Option<Matcher>)
    ensures
        r is Some <==> regex_compiles(pattern@),
        r matches Some(m) ==> m@ == pattern@,
{
    Regex::new(pattern).ok().map(|re| Matcher { re, pattern: pattern.to_owned() })
}

/// `regex::Regex::find_iter`: the texts of all successive non-overlapping
/// matches of `m` in `haystack`, named by `regex_matches`.
#[verifier::external_body]
pub(crate) fn find_all(m: &Matcher, haystack: &str) -> (r: Vec<String>)
    ensures
        r@.map_values(|s: String| s@) == regex_matches(m@, haystack@),
{
    m.re.find_iter(haystack).map(|x| x.as_str().to_string()).collect()
}

/// `regex::Regex::is_match`: documented to be true iff the regex matches
/// somewhere in `haystack`, that is, iff `find_iter` yields a match.
#[verifier::external_body]
pub(crate) fn is_match(m: &Matcher, haystack: &str) -> (r: bool)
    ensures
        r == (regex_matches(m@, haystack@).len() > 0),
{
    m.re.is_match(haystack)
}

impl Matcher {
    /// Compiles `pattern`; `None` where the regex crate rejects it.
    pub fn new(pattern: &str) -> (r: Option<Matcher>)
        ensures
            r is Some <==> regex_compiles(pattern@),
            r matches Some(m) ==> m@ == pattern@,
    {
        compile_matcher(pattern)
    }

    /// The pattern this matcher was compiled from.
    pub fn pattern(&self) -> (r: &str)
        ensures
            r@ == self@,
    {
        self.pattern.as_str()
    }
}

/// Number of matches of `m` in `haystack`.
pub fn count_matches(m: &Matcher, haystack: &str) -> (r: usize)
    ensures
        r == regex_matches(m@, haystack@).len(),
{
    let all = find_all(m, haystack);
    all.len()
}

} // verus!
