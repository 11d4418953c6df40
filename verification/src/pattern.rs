//! Character-class patterns and the compiled expressions that strip text down
//! to the characters a class keeps.

use regex::Regex;
use vstd::prelude::*;

verus! {

/// `regex::Regex`, a compiled expression. Nothing inside it is visible here.
#[verifier::external_type_specification]
#[verifier::external_body]
pub struct ExRegex(regex::Regex);

/// The pattern text that `regex::Regex::new` compiled an expression from. Of an
/// expression built in any other way, with settings of its own, this says
/// nothing.
pub uninterp spec fn pattern_text(re: Regex) -> Seq<char>;

/// The letters `A` to `Z`.
pub open spec fn is_upper_letter(c: char) -> bool {
    'A' <= c <= 'Z'
}

/// The digits `0` to `9`.
pub open spec fn is_digit(c: char) -> bool {
    '0' <= c <= '9'
}

/// The negated class `[^A-Z]`: it matches every character but an upper-case
/// ASCII letter.
pub open spec fn letters_class() -> Seq<char> {
    seq!['[', '^', 'A', '-', 'Z', ']']
}

/// The negated class `[^A-Z0-9]`: it matches every character but an upper-case
/// ASCII letter or an ASCII digit.
pub open spec fn alphanumeric_class() -> Seq<char> {
    seq!['[', '^', 'A', '-', 'Z', '0', '-', '9', ']']
}

/// The two classes that this module compiles and applies.
pub open spec fn is_supported_class(pattern: Seq<char>) -> bool {
    pattern == letters_class() || pattern == alphanumeric_class()
}

/// Whether a supported class leaves `c` unmatched, that is, whether `c` is one
/// of the characters listed after the `^`.
pub open spec fn class_keeps(pattern: Seq<char>, c: char) -> bool {
    is_upper_letter(c) || (pattern == alphanumeric_class() && is_digit(c))
}

/// What is left of `text` once every character that the class matches is gone.
pub open spec fn kept_text(pattern: Seq<char>, text: Seq<char>) -> Seq<char> {
    text.filter(|c: char| class_keeps(pattern, c))
}

/// Compiles one of the two supported classes with `regex::Regex::new`.
///
/// Trusted: both classes are valid patterns far below the size limit, so
/// compilation succeeds, and the compiled expression remembers the pattern it
/// was given.
#[verifier::external_body]
pub(crate) fn compile_class(pattern: &str) -> (re: Regex)
    requires
        is_supported_class(pattern@),
    ensures
        pattern_text(re) == pattern@,
{
    Regex::new(pattern).unwrap()
}

/// Replaces every match of a supported class by the empty `replacement` with
/// `regex::Regex::replace_all`.
///
/// Trusted: a negated class matches exactly one character at a time, namely any
/// character not listed in it, so replacing all matches by nothing leaves the
/// listed characters in the order they stood in.
#[verifier::external_body]
pub(crate) fn replace_matches(re: &Regex, text: &str, replacement: &str) -> (out: String)
    requires
        is_supported_class(pattern_text(*re)),
        replacement@.len() == 0,
    ensures
        out@ == kept_text(pattern_text(*re), text@),
{
    re.replace_all(text, replacement).into_owned()
}

} // verus!
