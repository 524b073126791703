//! Questions about patterns that other crates answer.
use crate::query::ast::text_option;
use vstd::prelude::*;

verus! {

/// The message of the error that `globset::Glob::new` gives for a pattern with
/// brackets, braces or backslashes, or nothing where it accepts the pattern. A
/// backslash counts as on the system that the crate is built for.
pub uninterp spec fn glob_error(pattern: Seq<char>) -> Option<Seq<char>>;

/// Whether `regex_syntax::ast::parse::Parser::parse` ends in the error
/// `ClassUnclosed` on a pattern.
pub uninterp spec fn class_unclosed(pattern: Seq<char>) -> bool;

/// Whether a glob is made of wildcards and plain characters alone.
pub open spec fn is_simple_glob(s: Seq<char>) -> bool {
    !s.contains('[') && !s.contains('{') && !s.contains('}') && !s.contains('\\')
}

/// Why a pattern is no glob, where it is none.
pub open spec fn glob_refusal(pattern: Seq<char>) -> Option<Seq<char>> {
    if is_simple_glob(pattern) {
        None
    } else {
        glob_error(pattern)
    }
}

/// Asks `globset::Glob::new` whether a pattern is a glob. Only brackets, braces
/// and backslashes can be wrong in one; beyond that the answer, a message or
/// none, depends on the pattern alone.
#[verifier::external_body]
pub(crate) fn check_glob(pattern: &str) -> (r: Option<String>)
    ensures
        is_simple_glob(pattern@) ==> r is None,
        !is_simple_glob(pattern@) ==> text_option(r) == glob_error(pattern@),
{
    match globset::Glob::new(pattern) {
        Ok(_) => None,
        Err(error) => Some(error.to_string()),
    }
}

/// Whether a pattern has an opening bracket that no backslash takes away.
pub open spec fn has_bracket(s: Seq<char>) -> bool
    decreases s.len(),
{
    if s.len() == 0 {
        false
    } else if s[0] == '\\' {
        s.len() > 1 && has_bracket(s.skip(2))
    } else {
        s[0] == '[' || has_bracket(s.skip(1))
    }
}

/// Whether a pattern ends inside a character class.
pub open spec fn ends_inside(pattern: Seq<char>) -> bool {
    has_bracket(pattern) && class_unclosed(pattern)
}

/// Asks `regex_syntax::ast::parse::Parser::parse` whether a pattern ends inside
/// a character class. Only an opening bracket starts a class, and a backslash
/// takes that meaning from it; beyond that the answer depends on the pattern
/// alone.
#[verifier::external_body]
pub(crate) fn ends_in_class(pattern: &str) -> (r: bool)
    ensures
        has_bracket(pattern@) ==> r == class_unclosed(pattern@),
        !has_bracket(pattern@) ==> !r,
{
    match regex_syntax::ast::parse::Parser::new().parse(pattern) {
        Ok(_) => false,
        Err(error) => matches!(error.kind(), regex_syntax::ast::ErrorKind::ClassUnclosed),
    }
}

} // verus!
