//! Canonical form of tokens: upper case, restricted to the characters that a
//! profile allows, with a minimum length.

use crate::pattern::{
    alphanumeric_class, class_keeps, compile_class, is_digit, is_upper_letter, kept_text,
    letters_class, pattern_text, replace_matches,
};
use crate::text::{chars_of, uppercased};
use regex::Regex;
use vstd::prelude::*;
use vstd::string::StrSliceExecFns;
use vstd::utf8::is_ascii_chars;

verus! {

/// A bundle of normalization policy choices.
#[derive(Clone, Copy, Debug, PartialEq, Eq, Structural)]
pub struct Profile {
    /// Whether the digits `0` to `9` are kept beside the letters `A` to `Z`.
    pub allow_digits: bool,
    /// The least number of characters of a canonical token. An empty token is
    /// never canonical, whatever this says.
    pub min_length: usize,
    /// Whether a token that holds an apostrophe is rejected as a whole.
    pub reject_apostrophes: bool,
}

impl Profile {
    /// The class pattern that matches what this profile strips.
    pub open spec fn class(self) -> Seq<char> {
        if self.allow_digits {
            alphanumeric_class()
        } else {
            letters_class()
        }
    }

    /// Whether `c` may stand in a canonical token.
    pub open spec fn allows(self, c: char) -> bool {
        is_upper_letter(c) || (self.allow_digits && is_digit(c))
    }

    /// The least length that a canonical token has: `min_length`, but never 0.
    pub open spec fn least_len(self) -> int {
        if self.min_length == 0 {
            1
        } else {
            self.min_length as int
        }
    }

    /// The strict profile: letters only, at least two of them, no apostrophes.
    pub open spec fn strict_spec() -> Profile {
        Profile { allow_digits: false, min_length: 2, reject_apostrophes: true }
    }

    /// The alphanumeric profile: letters and digits, at least three of them, no
    /// apostrophes.
    pub open spec fn alphanumeric_spec() -> Profile {
        Profile { allow_digits: true, min_length: 3, reject_apostrophes: true }
    }

    /// The strict profile.
    #[verifier::when_used_as_spec(strict_spec)]
    pub fn strict() -> (p: Profile)
        ensures
            p == Profile::strict_spec(),
    {
        Profile { allow_digits: false, min_length: 2, reject_apostrophes: true }
    }

    /// The alphanumeric profile.
    #[verifier::when_used_as_spec(alphanumeric_spec)]
    pub fn alphanumeric() -> (p: Profile)
        ensures
            p == Profile::alphanumeric_spec(),
    {
        Profile { allow_digits: true, min_length: 3, reject_apostrophes: true }
    }
}

/// Whether the three characters at `i` are the sequence that a mis-decoded
/// right single quotation mark leaves behind.
pub open spec fn is_mangled_apostrophe_at(s: Seq<char>, i: int) -> bool {
    &&& 0 <= i
    &&& i + 3 <= s.len()
    &&& s[i] == '\u{e2}'
    &&& s[i + 1] == '\u{20ac}'
    &&& s[i + 2] == '\u{2122}'
}

/// Whether `s` holds an ASCII apostrophe or a mangled one.
pub open spec fn has_apostrophe(s: Seq<char>) -> bool {
    s.contains('\'') || exists|i: int| is_mangled_apostrophe_at(s, i)
}

/// Whether `s` is in canonical form: only allowed characters, and long enough.
pub open spec fn is_canonical(profile: Profile, s: Seq<char>) -> bool {
    &&& s.len() >= profile.least_len()
    &&& forall|i: int| 0 <= i < s.len() ==> profile.allows(#[trigger] s[i])
}

/// What is left of `text` once every character that the profile does not allow
/// is gone.
pub open spec fn stripped(profile: Profile, text: Seq<char>) -> Seq<char> {
    text.filter(|c: char| profile.allows(c))
}

/// The canonical form of a raw token, or `None` where the token is rejected:
/// the upper-case form of the token, stripped, unless the token holds an
/// apostrophe that the profile rejects or too little is left.
pub open spec fn normalize_spec(profile: Profile, raw: Seq<char>) -> Option<Seq<char>> {
    let kept = stripped(profile, uppercased(raw));
    if profile.reject_apostrophes && has_apostrophe(raw) {
        None
    } else if kept.len() < profile.least_len() {
        None
    } else {
        Some(kept)
    }
}

/// Whether `raw` holds an ASCII apostrophe or a mangled one.
pub fn contains_apostrophe(raw: &str) -> (b: bool)
    ensures
        b == has_apostrophe(raw@),
{
    let chars = chars_of(raw);
    let n = chars.len();
    let mut i: usize = 0;
    while i < n
        invariant
            i <= n,
            n == chars@.len(),
            chars@ == raw@,
            forall|j: int| 0 <= j < i ==> chars@[j] != '\'',
            forall|j: int| 0 <= j < i ==> !is_mangled_apostrophe_at(chars@, j),
        decreases n - i,
    {
        if chars[i] == '\'' {
            return true;
        }
        if n - i >= 3 && chars[i] == '\u{e2}' && chars[i + 1] == '\u{20ac}' && chars[i + 2]
            == '\u{2122}' {
            assert(is_mangled_apostrophe_at(raw@, i as int));
            return true;
        }
        i += 1;
    }
    false
}

/// The class pattern of a profile keeps exactly the characters that the
/// profile allows.
pub proof fn lemma_class_keeps_allowed(profile: Profile, text: Seq<char>)
    ensures
        kept_text(profile.class(), text) == stripped(profile, text),
{
    assert(letters_class().len() != alphanumeric_class().len());
    lemma_filter_same(
        text,
        |c: char| class_keeps(profile.class(), c),
        |c: char| profile.allows(c),
    );
}

/// What is left after stripping holds allowed characters only.
pub proof fn lemma_stripped_allowed(profile: Profile, text: Seq<char>)
    ensures
        forall|i: int|
            0 <= i < stripped(profile, text).len() ==> profile.allows(
                #[trigger] stripped(profile, text)[i],
            ),
{
    broadcast use vstd::seq_lib::group_filter_ensures;

    let allows = |c: char| profile.allows(c);
    let kept = text.filter(allows);
    assert forall|i: int| 0 <= i < kept.len() implies profile.allows(#[trigger] kept[i]) by {
        assert(allows(kept[i]));
    }
}

/// Text made of allowed characters only holds no apostrophe and is left as it
/// is by upper-casing and by stripping.
pub proof fn lemma_allowed_text_is_fixed(profile: Profile, s: Seq<char>)
    requires
        forall|i: int| 0 <= i < s.len() ==> profile.allows(#[trigger] s[i]),
    ensures
        !has_apostrophe(s),
        uppercased(s) == s,
        stripped(profile, s) == s,
{
    assert(is_ascii_chars(s));
    assert(uppercased(s) =~= s);
    lemma_filter_all(s, |c: char| profile.allows(c));
    assert forall|i: int| !is_mangled_apostrophe_at(s, i) by {
        if is_mangled_apostrophe_at(s, i) {
            assert(profile.allows(s[i]));
        }
    }
}

/// Two predicates that agree on every character filter alike.
pub proof fn lemma_filter_same(
    s: Seq<char>,
    first: spec_fn(char) -> bool,
    second: spec_fn(char) -> bool,
)
    requires
        forall|c: char| #[trigger] first(c) == second(c),
    ensures
        s.filter(first) == s.filter(second),
    decreases s.len(),
{
    reveal(Seq::filter);
    if s.len() > 0 {
        lemma_filter_same(s.drop_last(), first, second);
    }
}

/// Filtering keeps a sequence whose every element passes.
pub proof fn lemma_filter_all(s: Seq<char>, pred: spec_fn(char) -> bool)
    requires
        forall|i: int| 0 <= i < s.len() ==> pred(#[trigger] s[i]),
    ensures
        s.filter(pred) == s,
    decreases s.len(),
{
    reveal(Seq::filter);
    if s.len() > 0 {
        lemma_filter_all(s.drop_last(), pred);
        assert(s.drop_last().push(s.last()) =~= s);
    }
}

/// Normalization has a canonical result, and canonical text normalizes to
/// itself: normalizing a second time changes nothing.
pub proof fn lemma_normalize_idempotent(profile: Profile, raw: Seq<char>)
    ensures
        normalize_spec(profile, raw) matches Some(token) ==> is_canonical(profile, token)
            && normalize_spec(profile, token) == Some(token),
        is_canonical(profile, raw) ==> normalize_spec(profile, raw) == Some(raw),
{
    lemma_stripped_allowed(profile, uppercased(raw));
    if let Some(token) = normalize_spec(profile, raw) {
        lemma_allowed_text_is_fixed(profile, token);
    }
    if is_canonical(profile, raw) {
        lemma_allowed_text_is_fixed(profile, raw);
    }
}

/// Turns raw tokens into canonical ones under one profile.
pub struct Normalizer {
    profile: Profile,
    stripper: Regex,
}

impl Normalizer {
    #[verifier::type_invariant]
    spec fn well_formed(self) -> bool {
        pattern_text(self.stripper) == self.profile.class()
    }

    /// The profile that this normalizer applies.
    pub closed spec fn profile(&self) -> Profile {
        self.profile
    }

    /// A normalizer for `profile`, its stripping pattern compiled once.
    pub fn new(profile: Profile) -> (normalizer: Normalizer)
        ensures
            normalizer.profile() == profile,
    {
        let stripper = if profile.allow_digits {
            proof {
                reveal_strlit("[^A-Z0-9]");
                assert("[^A-Z0-9]"@ =~= alphanumeric_class());
            }
            compile_class("[^A-Z0-9]")
        } else {
            proof {
                reveal_strlit("[^A-Z]");
                assert("[^A-Z]"@ =~= letters_class());
            }
            compile_class("[^A-Z]")
        };
        Normalizer { profile, stripper }
    }

    /// The profile that this normalizer applies.
    pub fn get_profile(&self) -> (profile: Profile)
        ensures
            profile == self.profile(),
    {
        self.profile
    }

    /// The canonical form of `raw`, or `None` where `raw` is rejected: it holds
    /// an apostrophe that the profile rejects, or too little is left of it.
    pub fn normalize(&self, raw: &str) -> (out: Option<String>)
        ensures
            match out {
                Some(token) => normalize_spec(self.profile(), raw@) == Some(token@),
                None => normalize_spec(self.profile(), raw@) is None,
            },
    {
        proof {
            use_type_invariant(self);
            reveal_strlit("");
        }
        if self.profile.reject_apostrophes && contains_apostrophe(raw) {
            return None;
        }
        let upper = raw.to_uppercase();
        assert(upper@ =~= uppercased(raw@));
        let kept = replace_matches(&self.stripper, upper.as_str(), "");
        proof {
            lemma_class_keeps_allowed(self.profile, upper@);
        }
        let length = kept.as_str().unicode_len();
        if length == 0 || length < self.profile.min_length {
            None
        } else {
            Some(kept)
        }
    }
}

} // verus!
