//! Flags selectors where the parent reference `&` is glued to an identifier
//! character, as in `&a` or `a-&`: substituted, such an `&` would merge into
//! the neighbouring name instead of forming a compound selector.

use vstd::prelude::*;
use crate::expression::Scope;

verus! {

/// Letters, digits, `_` and `-`: the characters that may not touch an `&`.
pub open spec fn is_ident_char(c: char) -> bool {
    ||| 'a' <= c <= 'z'
    ||| 'A' <= c <= 'Z'
    ||| '0' <= c <= '9'
    ||| c == '_'
    ||| c == '-'
}

/// Some `&` in `s` has an identifier character right before or right after
/// it.
pub open spec fn has_glued_amp(s: Seq<char>) -> bool {
    exists|i: int|
        0 <= i < s.len() && #[trigger] s[i] == '&' && ((i > 0 && is_ident_char(s[i - 1])) || (i
            + 1 < s.len() && is_ident_char(s[i + 1])))
}

/// An identifier character followed by `&`, or `&` followed by one.
pub const GLUED_AMP_PATTERN: &'static str = "([a-zA-Z0-9_\\-]&)|(&[a-zA-Z0-9_\\-])";

/// Relies on `regex::Regex::new`, which compiles this fixed pattern without
/// error, and on `regex::Regex::is_match`, which reports whether the pattern
/// matches anywhere in the text: here, whether a letter, digit, `_` or `-`
/// stands right before or right after some `&`.
#[verifier::external_body]
fn regex_is_match(pattern: &str, text: &str) -> (r: bool)
    requires
        pattern@ == GLUED_AMP_PATTERN@,
    ensures
        r == has_glued_amp(text@),
{
    regex::Regex::new(pattern).unwrap().is_match(text)
}

/// Whether the selector `s` uses `&` glued to an identifier character.
pub fn has_evil_amp(s: &str) -> (r: bool)
    ensures
        r == has_glued_amp(s@),
{
    regex_is_match(GLUED_AMP_PATTERN, s)
}

impl Scope {
    /// Whether any of the scope's selectors uses `&` glued to an identifier
    /// character.
    pub fn has_evil_amp(&mut self) -> (r: bool)
        ensures
            *final(self) == *old(self),
            r == exists|j: int|
                0 <= j < old(self).selectors@.len() && has_glued_amp(
                    (#[trigger] old(self).selectors@[j])@,
                ),
    {
        let mut k: usize = 0;
        while k < self.selectors.len()
            invariant
                *self == *old(self),
                k <= self.selectors.len(),
                forall|j: int| 0 <= j < k ==> !has_glued_amp((#[trigger] self.selectors@[j])@),
            decreases self.selectors.len() - k,
        {
            if has_evil_amp(self.selectors[k].as_str()) {
                return true;
            }
            k = k + 1;
        }
        false
    }
}

} // verus!
