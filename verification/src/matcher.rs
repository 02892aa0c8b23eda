use vstd::prelude::*;

verus! {

/// A compiled regular expression.
#[verifier::external_type_specification]
#[verifier::external_body]
pub struct ExRegex(regex::Regex);

/// Whether `pattern` compiles as a regular expression, case-insensitively
/// when `ignore_case` holds.
pub uninterp spec fn regex_compiles(pattern: Seq<char>, ignore_case: bool) -> bool;

/// The text of the leftmost-first match of the expression `re` (its source
/// and its case-insensitivity) in `haystack`, if there is one.
pub uninterp spec fn regex_first_match(re: (Seq<char>, bool), haystack: Seq<char>) -> Option<Seq<char>>;

/// `haystack` with every non-overlapping match of `re` replaced by
/// `replacement`, in which `$` references to capture groups are expanded.
pub uninterp spec fn regex_replace_all(
    re: (Seq<char>, bool),
    haystack: Seq<char>,
    replacement: Seq<char>,
) -> Seq<char>;

/// A regular expression together with the source it was compiled from.
/// Values are made only by [`compile_matcher`], so the expression always
/// is the compilation of `pattern` under `ignore_case`.
pub struct Matcher {
    re: regex::Regex,
    pattern: String,
    ignore_case: bool,
}

impl View for Matcher {
    type V = (Seq<char>, bool);

    /// The source of the expression and whether it ignores case.
    closed spec fn view(&self) -> (Seq<char>, bool) {
        (self.pattern@, self.ignore_case)
    }
}

/// Whether `line` holds a match of `re`.
pub open spec fn line_matches(re: (Seq<char>, bool), line: Seq<char>) -> bool {
    regex_first_match(re, line) is Some
}

/// Compiles `pattern` with `regex::RegexBuilder::new`, `case_insensitive`
/// and `build`. Trusted: the compilation succeeds exactly when the named
/// predicate `regex_compiles` holds of the pattern and the flag, and the
/// result remembers both.
#[verifier::external_body]
pub(crate) fn compile_matcher(pattern: &str, ignore_case: bool) -> (r: Result<Matcher, regex::Error>)
    ensures
        r is Ok <==> regex_compiles(pattern@, ignore_case),
        r matches Ok(m) ==> m@ == (pattern@, ignore_case),
{
    match regex::RegexBuilder::new(pattern).case_insensitive(ignore_case).build() {
        Ok(re) => Ok(Matcher { re, pattern: pattern.to_string(), ignore_case }),
        Err(e) => Err(e),
    }
}

/// Calls `regex::Regex::find` and keeps the matched text. Trusted: the
/// result is the named `regex_first_match` of the expression and the
/// haystack.
#[verifier::external_body]
pub(crate) fn first_match(m: &Matcher, haystack: &str) -> (r: Option<String>)
    ensures
        r is Some <==> regex_first_match(m@, haystack@) is Some,
        r matches Some(t) ==> regex_first_match(m@, haystack@) == Some(t@),
{
    m.re.find(haystack).map(|found| found.as_str().to_string())
}

/// Calls `regex::Regex::replace_all`. Trusted: the result is the named
/// `regex_replace_all`, and, as the crate documents, it is the haystack
/// unchanged where there is no match.
#[verifier::external_body]
pub(crate) fn replace_all(m: &Matcher, haystack: &str, replacement: &str) -> (r: String)
    ensures
        r@ == regex_replace_all(m@, haystack@, replacement@),
        regex_first_match(m@, haystack@) is None ==> r@ == haystack@,
{
    m.re.replace_all(haystack, replacement).into_owned()
}

} // verus!
