//! Path filters: regular expressions over repository-relative paths, compiled
//! and matched by the `regex` crate.
use vstd::prelude::*;

verus! {

#[verifier::external_type_specification]
#[verifier::external_body]
pub struct ExRegex(regex::Regex);

/// Whether `regex::Regex::new` compiles `pattern`: it is valid syntax and
/// fits the crate's default size limit.
pub uninterp spec fn regex_compiles(pattern: Seq<char>) -> bool;

/// The text of the error `regex::Regex::new` returns for `pattern` (its
/// `Display` form), when it does not compile.
pub uninterp spec fn regex_error_message(pattern: Seq<char>) -> Seq<char>;

/// Whether `regex::Regex::is_match` finds a match of the regex compiled from
/// `pattern` anywhere in `text`.
pub uninterp spec fn regex_finds(pattern: Seq<char>, text: Seq<char>) -> bool;

/// A compiled path filter, together with the pattern it was compiled from.
/// Only `compile_filter` makes one, so `regex` is always the compilation of
/// `pattern`.
pub struct PathFilter {
    pattern: String,
    regex: regex::Regex,
}

impl View for PathFilter {
    type V = Seq<char>;

    /// A filter is seen as its pattern.
    closed spec fn view(&self) -> Seq<char> {
        self.pattern@
    }
}

/// `regex::Regex::new`: the filter compiled from `pattern`, or the text of
/// the crate's error (its `Display` form); it succeeds exactly when the
/// pattern compiles.
#[verifier::external_body]
pub(crate) fn compile_filter(pattern: &str) -> (r: Result<PathFilter, String>)
    ensures
        r is Ok <==> regex_compiles(pattern@),
        r matches Ok(filter) ==> filter@ == pattern@,
        r matches Err(text) ==> text@ == regex_error_message(pattern@),
{
    match regex::Regex::new(pattern) {
        Ok(regex) => Ok(PathFilter { pattern: pattern.to_string(), regex }),
        Err(error) => Err(error.to_string()),
    }
}

/// `regex::Regex::is_match`: whether the filter matches anywhere in `path`.
#[verifier::external_body]
pub(crate) fn filter_matches(filter: &PathFilter, path: &str) -> (b: bool)
    ensures
        b == regex_finds(filter@, path@),
{
    filter.regex.is_match(path)
}

} // verus!
