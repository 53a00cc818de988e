//! The trusted boundary to the glob-pattern matcher, and the literal prefix
//! a pattern opens with.

use vstd::prelude::*;

verus! {

/// The characters of a pattern before its first wildcard token.
pub open spec fn lit_prefix(p: Seq<char>) -> Seq<char>
    decreases p.len(),
{
    if p.len() == 0 {
        Seq::empty()
    } else if p[0] == '*' || p[0] == '?' || p[0] == '[' {
        Seq::empty()
    } else {
        seq![p[0]] + lit_prefix(p.drop_first())
    }
}

/// Whether the pattern compiles.
pub uninterp spec fn glob_pattern_ok(pattern: Seq<char>) -> bool;

/// Whether the pattern matches the text, under case-sensitive matching with
/// no special treatment of separators or leading dots.  A match always
/// begins with the pattern's literal prefix, letter for letter.
pub open spec fn glob_accepts(pattern: Seq<char>, text: Seq<char>) -> bool {
    glob_accepts_raw(pattern, text) && text.len() >= lit_prefix(pattern).len() && text.take(
        lit_prefix(pattern).len() as int,
    ) == lit_prefix(pattern)
}

/// What the matcher answers beyond the literal-prefix constraint.
pub uninterp spec fn glob_accepts_raw(pattern: Seq<char>, text: Seq<char>) -> bool;

/// Relies on `glob::Pattern::new` and `glob::Pattern::matches`: compiles
/// the pattern and tests the text under the default options
/// (case-sensitive, separators and leading dots not special).  An invalid
/// pattern yields nothing; the pattern's leading literal characters must
/// match the text's first characters exactly.
#[verifier::external_body]
pub fn glob_match(pattern: &str, text: &str) -> (r: Option<bool>)
    ensures
        (r is Some) == glob_pattern_ok(pattern@),
        r matches Some(m) ==> m == glob_accepts_raw(pattern@, text@),
        r matches Some(m) ==> m == glob_accepts(pattern@, text@),
{
    glob::Pattern::new(pattern).ok().map(|p| p.matches(text))
}

} // verus!
