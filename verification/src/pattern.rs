//! Shell patterns, as the `glob` crate reads them.

use vstd::prelude::*;

verus! {

/// Whether `glob::Pattern::new` accepts a pattern.
pub uninterp spec fn pattern_valid(pattern: Seq<char>) -> bool;

/// Whether `glob::Pattern::matches` says that a valid pattern matches a name.
pub uninterp spec fn pattern_matches(pattern: Seq<char>, name: Seq<char>) -> bool;

/// The pattern that every name matches.
pub open spec fn any_name() -> Seq<char> {
    seq!['*']
}

/// A pattern without metacharacters and path separators.
pub open spec fn is_plain(pattern: Seq<char>) -> bool {
    forall|i: int|
        0 <= i < pattern.len() ==> #[trigger] pattern[i] != '?' && pattern[i] != '*' && pattern[i]
            != '[' && pattern[i] != '/' && pattern[i] != '\\'
}

/// A pattern without metacharacters and path separators, but for a `*` at its
/// end.
pub open spec fn is_prefix_pattern(pattern: Seq<char>) -> bool {
    pattern.len() > 0 && pattern.last() == '*' && is_plain(pattern.drop_last())
}

/// Calls `glob::Pattern::new`.
///
/// Taken on trust: whether a pattern is accepted depends on its text alone, on
/// the platform that the crate is compiled for; a lone `*` is accepted, and so
/// is a pattern without metacharacters, also with one `*` at its end.
#[verifier::external_body]
pub(crate) fn check_pattern(pattern: &str) -> (valid: bool)
    ensures
        valid == pattern_valid(pattern@),
        pattern@ == any_name() ==> valid,
        is_plain(pattern@) ==> valid,
        is_prefix_pattern(pattern@) ==> valid,
{
    glob::Pattern::new(pattern).is_ok()
}

/// Calls `glob::Pattern::matches` on the pattern that `glob::Pattern::new` makes
/// of a text.
///
/// Taken on trust: the result depends on the text of the pattern and on the name
/// alone, on the platform that the crate is compiled for; a lone `*` matches
/// every name, and a pattern without metacharacters and path separators
/// matches itself only, or, with one `*` at its end, every name that starts with
/// what stands before the `*`.
#[verifier::external_body]
pub(crate) fn match_pattern(pattern: &str, name: &str) -> (matched: bool)
    requires
        pattern_valid(pattern@),
    ensures
        matched == pattern_matches(pattern@, name@),
        pattern@ == any_name() ==> matched,
        is_plain(pattern@) ==> matched == (pattern@ == name@),
        is_prefix_pattern(pattern@) ==> matched == pattern@.drop_last().is_prefix_of(name@),
{
    glob::Pattern::new(pattern).unwrap().matches(name)
}

} // verus!
