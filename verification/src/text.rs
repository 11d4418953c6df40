//! Plain operations on text: characters, case, tokens and lines.

use vstd::prelude::*;
use vstd::utf8::is_ascii_chars;

verus! {

/// `String::push` appends one character.
pub assume_specification[ String::push ](s: &mut String, c: char)
    ensures
        final(s)@ == old(s)@.push(c),
;

/// The upper-case form of an ASCII character; any other character is itself.
pub open spec fn ascii_upper(c: char) -> char {
    if 'a' <= c <= 'z' {
        ((c as u32) - 32) as char
    } else {
        c
    }
}

/// The upper-case form of a text that holds a character outside ASCII, by
/// Unicode's case mapping.
pub uninterp spec fn unicode_uppercase(s: Seq<char>) -> Seq<char>;

/// The upper-case form of a text. On ASCII text each letter `a` to `z` becomes
/// `A` to `Z` and every other character stays.
pub open spec fn uppercased(s: Seq<char>) -> Seq<char> {
    if is_ascii_chars(s) {
        s.map_values(|c: char| ascii_upper(c))
    } else {
        unicode_uppercase(s)
    }
}

/// `str::to_uppercase` gives the upper-case form of the whole text. It maps the
/// ASCII letters as `to_ascii_uppercase` does, so on ASCII text the result is
/// known character by character.
pub assume_specification[ str::to_uppercase ](s: &str) -> (out: String)
    ensures
        is_ascii_chars(s@) ==> out@ == s@.map_values(|c: char| ascii_upper(c)),
        !is_ascii_chars(s@) ==> out@ == unicode_uppercase(s@),
;

/// The characters of each string of a sequence.
pub open spec fn texts(strings: Seq<String>) -> Seq<Seq<char>> {
    strings.map_values(|s: String| s@)
}

/// Whether one of `list` has the same characters as `token`.
pub fn holds(list: &Vec<String>, token: &String) -> (found: bool)
    ensures
        found == texts(list@).contains(token@),
{
    let n = list.len();
    let mut i: usize = 0;
    while i < n
        invariant
            i <= n,
            n == list@.len(),
            forall|j: int| 0 <= j < i ==> texts(list@)[j] != token@,
        decreases n - i,
    {
        if list[i] == *token {
            assert(texts(list@)[i as int] == token@);
            return true;
        }
        i += 1;
    }
    false
}

/// The characters of a string slice, in order.
pub fn chars_of(s: &str) -> (out: Vec<char>)
    ensures
        out@ == s@,
{
    let mut out: Vec<char> = Vec::new();
    for c in it: s.chars()
        invariant
            it.seq() == s@,
            out@ == it.seq().take(it.index()),
    {
        out.push(c);
    }
    out
}

/// The ASCII whitespace characters: space, tab, line feed, form feed and
/// carriage return.
pub open spec fn is_separator(c: char) -> bool {
    c == ' ' || c == '\t' || c == '\n' || c == '\x0C' || c == '\r'
}

/// Whether `c` is one of the separators.
pub fn separates(c: char) -> (b: bool)
    ensures
        b == is_separator(c),
{
    c == ' ' || c == '\t' || c == '\n' || c == '\x0C' || c == '\r'
}

/// Whether no character of `s` is a separator.
pub open spec fn has_no_separator(s: Seq<char>) -> bool {
    forall|i: int| 0 <= i < s.len() ==> !is_separator(#[trigger] s[i])
}

/// The number of characters before the first separator of `s`.
pub open spec fn word_len(s: Seq<char>) -> nat
    decreases s.len(),
{
    if s.len() == 0 || is_separator(s[0]) {
        0
    } else {
        1 + word_len(s.drop_first())
    }
}

/// The first word is no longer than the text, and not empty where the text
/// starts with something else than a separator.
pub proof fn lemma_word_len_bound(s: Seq<char>)
    ensures
        word_len(s) <= s.len(),
        s.len() > 0 && !is_separator(s[0]) ==> word_len(s) >= 1,
    decreases s.len(),
{
    if s.len() > 0 && !is_separator(s[0]) {
        lemma_word_len_bound(s.drop_first());
    }
}

/// The maximal runs of non-separator characters of `s`, from left to right.
/// No token is empty and none holds a separator.
pub open spec fn tokens_of(s: Seq<char>) -> Seq<Seq<char>>
    decreases s.len(),
    via tokens_of_decreases
{
    if s.len() == 0 {
        Seq::empty()
    } else if is_separator(s[0]) {
        tokens_of(s.drop_first())
    } else {
        seq![s.take(word_len(s) as int)] + tokens_of(s.skip(word_len(s) as int))
    }
}

#[via_fn]
proof fn tokens_of_decreases(s: Seq<char>) {
    lemma_word_len_bound(s);
}

/// A word followed by a separator, or by nothing, ends where the word ends.
pub proof fn lemma_word_len_of_word(word: Seq<char>, rest: Seq<char>)
    requires
        has_no_separator(word),
        rest.len() == 0 || is_separator(rest[0]),
    ensures
        word_len(word + rest) == word.len(),
    decreases word.len(),
{
    if word.len() == 0 {
        assert(word + rest =~= rest);
    } else {
        assert(!is_separator(word[0]));
        assert((word + rest).drop_first() =~= word.drop_first() + rest);
        assert(has_no_separator(word.drop_first())) by {
            assert forall|i: int| 0 <= i < word.drop_first().len() implies !is_separator(
                #[trigger] word.drop_first()[i],
            ) by {
                assert(word.drop_first()[i] == word[i + 1]);
            }
        }
        lemma_word_len_of_word(word.drop_first(), rest);
    }
}

/// A non-empty word in front of a separator, or of nothing, is the first token.
pub proof fn lemma_tokens_of_word(word: Seq<char>, rest: Seq<char>)
    requires
        word.len() > 0,
        has_no_separator(word),
        rest.len() == 0 || is_separator(rest[0]),
    ensures
        tokens_of(word + rest) == seq![word] + tokens_of(rest),
{
    lemma_word_len_of_word(word, rest);
    let s = word + rest;
    assert(!is_separator(word[0]));
    assert(s[0] == word[0]);
    assert(s.take(word.len() as int) =~= word);
    assert(s.skip(word.len() as int) =~= rest);
}

/// Every token is non-empty and free of separators.
pub proof fn lemma_tokens_are_words(s: Seq<char>)
    ensures
        forall|k: int|
            0 <= k < tokens_of(s).len() ==> (#[trigger] tokens_of(s)[k]).len() > 0
                && has_no_separator(tokens_of(s)[k]),
    decreases s.len(),
{
    if s.len() == 0 {
        assert(tokens_of(s).len() == 0);
    } else if is_separator(s[0]) {
        lemma_tokens_are_words(s.drop_first());
        assert(tokens_of(s) == tokens_of(s.drop_first()));
    } else {
        lemma_word_len_bound(s);
        let n = word_len(s) as int;
        let head = s.take(n);
        let tail = tokens_of(s.skip(n));
        lemma_word_has_no_separator(s);
        lemma_tokens_are_words(s.skip(n));
        assert(tokens_of(s) == seq![head] + tail);
        assert forall|k: int| 0 <= k < tokens_of(s).len() implies (#[trigger] tokens_of(
            s,
        )[k]).len() > 0 && has_no_separator(tokens_of(s)[k]) by {
            if k == 0 {
                assert(tokens_of(s)[0] == head);
            } else {
                assert(tokens_of(s)[k] == tail[k - 1]);
            }
        }
    }
}

/// The characters before the first separator hold no separator.
pub proof fn lemma_word_has_no_separator(s: Seq<char>)
    ensures
        has_no_separator(s.take(word_len(s) as int)),
    decreases s.len(),
{
    lemma_word_len_bound(s);
    if s.len() == 0 || is_separator(s[0]) {
    } else {
        lemma_word_has_no_separator(s.drop_first());
        lemma_word_len_bound(s.drop_first());
        let n = word_len(s) as int;
        assert forall|i: int| 0 <= i < s.take(n).len() implies !is_separator(
            #[trigger] s.take(n)[i],
        ) by {
            if i > 0 {
                assert(s.take(n)[i] == s.drop_first().take(n - 1)[i - 1]);
            }
        }
    }
}

/// Splits a line at ASCII whitespace. Runs of separators count as one, and
/// separators at either end give no token.
pub fn split_tokens(line: &str) -> (out: Vec<String>)
    ensures
        texts(out@) == tokens_of(line@),
        forall|k: int|
            0 <= k < out@.len() ==> (#[trigger] out@[k])@.len() > 0 && has_no_separator(out@[k]@),
{
    let mut done: Vec<String> = Vec::new();
    let mut current = String::new();
    assert(texts(done@) =~= Seq::<Seq<char>>::empty());
    assert(current@ + line@.skip(0) =~= line@);
    for c in it: line.chars()
        invariant
            it.seq() == line@,
            has_no_separator(current@),
            tokens_of(line@) == texts(done@) + tokens_of(current@ + line@.skip(it.index())),
    {
        let ghost i = it.index();
        let ghost rest = line@.skip(i);
        assert(rest.len() > 0 && rest[0] == c);
        assert(rest.drop_first() =~= line@.skip(i + 1));
        if separates(c) {
            if !current.as_str().is_empty() {
                proof {
                    lemma_tokens_of_word(current@, rest);
                    assert(texts(done@.push(current)) =~= texts(done@).push(current@));
                    assert(Seq::<char>::empty() + line@.skip(i + 1) =~= line@.skip(i + 1));
                }
                done.push(current);
                current = String::new();
            } else {
                proof {
                    assert(current@ + rest =~= rest);
                    assert(current@ + line@.skip(i + 1) =~= line@.skip(i + 1));
                }
            }
        } else {
            proof {
                assert(current@.push(c) + line@.skip(i + 1) =~= current@ + rest);
            }
            current.push(c);
        }
    }
    proof {
        assert(line@.skip(line@.len() as int) =~= Seq::<char>::empty());
        assert(current@ + Seq::<char>::empty() =~= current@);
    }
    if !current.as_str().is_empty() {
        proof {
            lemma_tokens_of_word(current@, Seq::<char>::empty());
            assert(texts(done@.push(current)) =~= texts(done@).push(current@));
        }
        done.push(current);
    }
    proof {
        lemma_tokens_are_words(line@);
        assert(texts(done@) == tokens_of(line@));
        assert forall|k: int| 0 <= k < done@.len() implies (#[trigger] done@[k])@.len() > 0
            && has_no_separator(done@[k]@) by {
            assert(tokens_of(line@)[k] == done@[k]@);
        }
    }
    done
}

/// Whether no character of `s` is a line feed.
pub open spec fn has_no_line_feed(s: Seq<char>) -> bool {
    forall|i: int| 0 <= i < s.len() ==> #[trigger] s[i] != '\n'
}

/// The number of characters before the first line feed of `s`.
pub open spec fn line_len(s: Seq<char>) -> nat
    decreases s.len(),
{
    if s.len() == 0 || s[0] == '\n' {
        0
    } else {
        1 + line_len(s.drop_first())
    }
}

/// The first line is no longer than the text.
pub proof fn lemma_line_len_bound(s: Seq<char>)
    ensures
        line_len(s) <= s.len(),
    decreases s.len(),
{
    if s.len() > 0 && s[0] != '\n' {
        lemma_line_len_bound(s.drop_first());
    }
}

/// The pieces that the line feeds of `s` cut it into, from left to right. A
/// text without a line feed is one piece, and so is the empty text; a line feed
/// at the end leaves an empty last piece.
pub open spec fn lines_of(s: Seq<char>) -> Seq<Seq<char>>
    decreases s.len(),
    via lines_of_decreases
{
    if line_len(s) >= s.len() {
        seq![s]
    } else {
        seq![s.take(line_len(s) as int)] + lines_of(s.skip(line_len(s) as int + 1))
    }
}

#[via_fn]
proof fn lines_of_decreases(s: Seq<char>) {
    lemma_line_len_bound(s);
}

/// A piece without a line feed ends at the line feed behind it, or at the end.
pub proof fn lemma_line_len_of_piece(piece: Seq<char>, rest: Seq<char>)
    requires
        has_no_line_feed(piece),
        rest.len() == 0 || rest[0] == '\n',
    ensures
        line_len(piece + rest) == piece.len(),
    decreases piece.len(),
{
    if piece.len() == 0 {
        assert(piece + rest =~= rest);
    } else {
        assert(piece[0] != '\n');
        assert((piece + rest).drop_first() =~= piece.drop_first() + rest);
        assert(has_no_line_feed(piece.drop_first())) by {
            assert forall|i: int| 0 <= i < piece.drop_first().len() implies #[trigger] piece.drop_first()[i]
                != '\n' by {
                assert(piece.drop_first()[i] == piece[i + 1]);
            }
        }
        lemma_line_len_of_piece(piece.drop_first(), rest);
    }
}

/// A piece in front of a line feed is the first line, and the lines of what
/// follows the line feed come after it.
pub proof fn lemma_lines_of_piece(piece: Seq<char>, rest: Seq<char>)
    requires
        has_no_line_feed(piece),
        rest.len() > 0,
        rest[0] == '\n',
    ensures
        lines_of(piece + rest) == seq![piece] + lines_of(rest.drop_first()),
{
    lemma_line_len_of_piece(piece, rest);
    let s = piece + rest;
    assert(s.take(piece.len() as int) =~= piece);
    assert(s.skip(piece.len() as int + 1) =~= rest.drop_first());
}

/// Cuts a text at every line feed, as `lines_of` says.
pub fn split_lines(contents: &str) -> (out: Vec<String>)
    ensures
        texts(out@) == lines_of(contents@),
{
    let mut done: Vec<String> = Vec::new();
    let mut current = String::new();
    assert(texts(done@) =~= Seq::<Seq<char>>::empty());
    assert(current@ + contents@.skip(0) =~= contents@);
    for c in it: contents.chars()
        invariant
            it.seq() == contents@,
            has_no_line_feed(current@),
            lines_of(contents@) == texts(done@) + lines_of(current@ + contents@.skip(it.index())),
    {
        let ghost i = it.index();
        let ghost rest = contents@.skip(i);
        assert(rest.len() > 0 && rest[0] == c);
        assert(rest.drop_first() =~= contents@.skip(i + 1));
        if c == '\n' {
            proof {
                lemma_lines_of_piece(current@, rest);
                assert(texts(done@.push(current)) =~= texts(done@).push(current@));
                assert(Seq::<char>::empty() + contents@.skip(i + 1) =~= contents@.skip(i + 1));
            }
            done.push(current);
            current = String::new();
        } else {
            proof {
                assert(current@.push(c) + contents@.skip(i + 1) =~= current@ + rest);
            }
            current.push(c);
        }
    }
    proof {
        assert(contents@.skip(contents@.len() as int) =~= Seq::<char>::empty());
        assert(current@ + Seq::<char>::empty() =~= current@);
        lemma_line_len_of_piece(current@, Seq::<char>::empty());
        assert(texts(done@.push(current)) =~= texts(done@).push(current@));
    }
    done.push(current);
    done
}

} // verus!
