//! Shell-style glob patterns, matched by the `glob` crate.

use vstd::prelude::*;

verus! {

/// Whether `glob::Pattern::new` accepts the pattern text `pattern`.
pub uninterp spec fn glob_valid(pattern: Seq<char>) -> bool;

/// Whether the pattern text `pattern` matches the path `path`, where `*`, `?`
/// and character classes never match a `/`, and `**` as a whole path
/// component matches any number of components.
pub uninterp spec fn glob_match(pattern: Seq<char>, path: Seq<char>) -> bool;

/// Relies on `glob::Pattern::new`: it accepts or refuses a pattern according
/// to its text alone.
#[verifier::external_body]
pub(crate) fn glob_is_valid(pattern: &str) -> (r: bool)
    ensures
        r == glob_valid(pattern@),
{
    glob::Pattern::new(pattern).is_ok()
}

/// Relies on `glob::Pattern::matches_with`, with `require_literal_separator`
/// set and case-sensitive matching: whether the compiled pattern matches the
/// path depends on the two texts alone.
#[verifier::external_body]
pub(crate) fn glob_matches(pattern: &str, path: &str) -> (r: bool)
    requires
        glob_valid(pattern@),
    ensures
        r == glob_match(pattern@, path@),
{
    let options = glob::MatchOptions {
        case_sensitive: true,
        require_literal_separator: true,
        require_literal_leading_dot: false,
    };
    match glob::Pattern::new(pattern) {
        Ok(p) => p.matches_with(path, options),
        Err(_) => false,
    }
}

} // verus!
