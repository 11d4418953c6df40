//! One request: from a raw line to the distinct novel tokens it holds.

use crate::index::Tree;
use crate::normalize::{is_canonical, lemma_normalize_idempotent, normalize_spec, Profile};
use crate::text::{holds, split_tokens, texts, tokens_of};
use vstd::prelude::*;

verus! {

/// Whether `token` is the canonical form of the raw token at position `i`.
pub open spec fn occurs_at(profile: Profile, raw: Seq<Seq<char>>, token: Seq<char>, i: int) -> bool {
    0 <= i < raw.len() && normalize_spec(profile, raw[i]) == Some(token)
}

/// Whether `token` is the canonical form of one of the raw tokens.
pub open spec fn occurs(profile: Profile, raw: Seq<Seq<char>>, token: Seq<char>) -> bool {
    exists|i: int| occurs_at(profile, raw, token, i)
}

/// Whether position `i` is where `token` first occurs among the raw tokens.
pub open spec fn first_occurs_at(
    profile: Profile,
    raw: Seq<Seq<char>>,
    token: Seq<char>,
    i: int,
) -> bool {
    &&& occurs_at(profile, raw, token, i)
    &&& forall|j: int| 0 <= j < i ==> !occurs_at(profile, raw, token, j)
}

/// The novel tokens of a sequence of raw tokens: going from left to right, the
/// canonical form of each raw token that has one, is not among the known words
/// and was not met before.
pub open spec fn novel_tokens(
    profile: Profile,
    known: Set<Seq<char>>,
    raw: Seq<Seq<char>>,
) -> Seq<Seq<char>>
    decreases raw.len(),
{
    if raw.len() == 0 {
        Seq::empty()
    } else {
        let earlier = novel_tokens(profile, known, raw.drop_last());
        match normalize_spec(profile, raw.last()) {
            Some(token) => if earlier.contains(token) || known.contains(token) {
                earlier
            } else {
                earlier.push(token)
            },
            None => earlier,
        }
    }
}

/// The answer to a request line against a set of known words.
pub open spec fn response_of(profile: Profile, known: Set<Seq<char>>, line: Seq<char>) -> Seq<
    Seq<char>,
> {
    novel_tokens(profile, known, tokens_of(line))
}

/// A token is among the novel ones exactly when it is the canonical form of
/// some raw token and is not a known word.
pub proof fn lemma_novel_membership(profile: Profile, known: Set<Seq<char>>, raw: Seq<Seq<char>>)
    ensures
        forall|token: Seq<char>|
            #![trigger novel_tokens(profile, known, raw).contains(token)]
            #![trigger occurs(profile, raw, token)]
            novel_tokens(profile, known, raw).contains(token) <==> (occurs(profile, raw, token)
                && !known.contains(token)),
    decreases raw.len(),
{
    let novel = novel_tokens(profile, known, raw);
    if raw.len() == 0 {
        assert forall|token: Seq<char>| !occurs(profile, raw, token) by {
            if occurs(profile, raw, token) {
                let i = choose|i: int| occurs_at(profile, raw, token, i);
            }
        }
    } else {
        let shorter = raw.drop_last();
        let earlier = novel_tokens(profile, known, shorter);
        let last = raw.len() - 1;
        lemma_novel_membership(profile, known, shorter);
        assert forall|token: Seq<char>|
            novel.contains(token) <==> (occurs(profile, raw, token) && !known.contains(
                token,
            )) by {
            lemma_occurs_step(profile, raw, token);
            assert(earlier.contains(token) <==> (occurs(profile, shorter, token)
                && !known.contains(token)));
            match normalize_spec(profile, raw.last()) {
                Some(added) => {
                    if earlier.contains(added) || known.contains(added) {
                    } else {
                        lemma_push_contains(earlier, added, token);
                    }
                },
                None => {},
            }
        }
    }
}

/// A token occurs among the raw tokens when it occurs among all but the last,
/// or is the canonical form of the last.
pub proof fn lemma_occurs_step(profile: Profile, raw: Seq<Seq<char>>, token: Seq<char>)
    requires
        raw.len() > 0,
    ensures
        occurs(profile, raw, token) <==> (occurs(profile, raw.drop_last(), token)
            || normalize_spec(profile, raw.last()) == Some(token)),
{
    let shorter = raw.drop_last();
    let last = raw.len() - 1;
    if occurs(profile, raw, token) {
        let i = choose|i: int| occurs_at(profile, raw, token, i);
        if i < last {
            assert(shorter[i] == raw[i]);
            assert(occurs_at(profile, shorter, token, i));
        }
    }
    if occurs(profile, shorter, token) {
        let i = choose|i: int| occurs_at(profile, shorter, token, i);
        assert(shorter[i] == raw[i]);
        assert(occurs_at(profile, raw, token, i));
    }
    if normalize_spec(profile, raw.last()) == Some(token) {
        assert(occurs_at(profile, raw, token, last));
    }
}

/// What a sequence holds after a push: what it held, and the pushed element.
pub proof fn lemma_push_contains(s: Seq<Seq<char>>, added: Seq<char>, token: Seq<char>)
    ensures
        s.push(added).contains(token) <==> (s.contains(token) || token == added),
{
    let longer = s.push(added);
    if longer.contains(token) {
        let i = choose|i: int| 0 <= i < longer.len() && longer[i] == token;
        if i < s.len() {
            assert(s[i] == token);
        }
    }
    if s.contains(token) {
        let i = choose|i: int| 0 <= i < s.len() && s[i] == token;
        assert(longer[i] == token);
    }
    if token == added {
        assert(longer[s.len() as int] == token);
    }
}

/// No token stands twice among the novel ones.
pub proof fn lemma_novel_distinct(profile: Profile, known: Set<Seq<char>>, raw: Seq<Seq<char>>)
    ensures
        novel_tokens(profile, known, raw).no_duplicates(),
    decreases raw.len(),
{
    if raw.len() > 0 {
        let earlier = novel_tokens(profile, known, raw.drop_last());
        lemma_novel_distinct(profile, known, raw.drop_last());
        match normalize_spec(profile, raw.last()) {
            Some(added) => {
                if !(earlier.contains(added) || known.contains(added)) {
                    let longer = earlier.push(added);
                    assert forall|a: int, b: int|
                        0 <= a < longer.len() && 0 <= b < longer.len() && a != b implies longer[a]
                        != longer[b] by {
                        if a < earlier.len() && b < earlier.len() {
                        } else if a < earlier.len() {
                            assert(earlier[a] == longer[a]);
                        } else {
                            assert(earlier[b] == longer[b]);
                        }
                    }
                }
            },
            None => {},
        }
    }
}

/// The novel tokens stand in the order in which they first occur among the raw
/// tokens.
pub proof fn lemma_novel_order(profile: Profile, known: Set<Seq<char>>, raw: Seq<Seq<char>>)
    ensures
        forall|a: int, b: int, i: int, j: int|
            #![trigger first_occurs_at(profile, raw, novel_tokens(profile, known, raw)[a], i), first_occurs_at(profile, raw, novel_tokens(profile, known, raw)[b], j)]
            0 <= a < b < novel_tokens(profile, known, raw).len() && first_occurs_at(
                profile,
                raw,
                novel_tokens(profile, known, raw)[a],
                i,
            ) && first_occurs_at(profile, raw, novel_tokens(profile, known, raw)[b], j) ==> i < j,
    decreases raw.len(),
{
    let novel = novel_tokens(profile, known, raw);
    if raw.len() > 0 {
        let shorter = raw.drop_last();
        let last = raw.len() - 1;
        let earlier = novel_tokens(profile, known, shorter);
        lemma_novel_order(profile, known, shorter);
        lemma_novel_membership(profile, known, shorter);
        assert forall|a: int, b: int, i: int, j: int|
            0 <= a < b < novel.len() && first_occurs_at(profile, raw, novel[a], i)
                && first_occurs_at(profile, raw, novel[b], j) implies i < j by {
            // The token at `a` was already there before the last raw token.
            assert(a < earlier.len());
            assert(earlier[a] == novel[a]);
            assert(earlier.contains(novel[a]));
            assert(occurs(profile, shorter, novel[a]));
            let ia = choose|ia: int| occurs_at(profile, shorter, novel[a], ia);
            assert(shorter[ia] == raw[ia]);
            assert(occurs_at(profile, raw, novel[a], ia));
            assert(i <= ia);
            assert(i < last);
            lemma_first_occurs_shorter(profile, raw, novel[a], i);
            if b < earlier.len() {
                assert(earlier[b] == novel[b]);
                assert(earlier.contains(novel[b]));
                assert(occurs(profile, shorter, novel[b]));
                let ib = choose|ib: int| occurs_at(profile, shorter, novel[b], ib);
                assert(shorter[ib] == raw[ib]);
                assert(occurs_at(profile, raw, novel[b], ib));
                assert(j <= ib);
                lemma_first_occurs_shorter(profile, raw, novel[b], j);
            } else {
                // The token at `b` is the one that the last raw token added.
                assert(!earlier.contains(novel[b]));
                assert(!known.contains(novel[b]));
                assert(!occurs(profile, shorter, novel[b]));
                if j < last {
                    assert(shorter[j] == raw[j]);
                    assert(occurs_at(profile, shorter, novel[b], j));
                }
            }
        }
    }
}

/// A first occurrence before the last raw token is a first occurrence among
/// all but the last.
pub proof fn lemma_first_occurs_shorter(
    profile: Profile,
    raw: Seq<Seq<char>>,
    token: Seq<char>,
    i: int,
)
    requires
        raw.len() > 0,
        i < raw.len() - 1,
        first_occurs_at(profile, raw, token, i),
    ensures
        first_occurs_at(profile, raw.drop_last(), token, i),
{
    let shorter = raw.drop_last();
    assert(shorter[i] == raw[i]);
    assert forall|j: int| 0 <= j < i implies !occurs_at(profile, shorter, token, j) by {
        assert(shorter[j] == raw[j]);
        assert(!occurs_at(profile, raw, token, j));
    }
}

/// Answers one request line: the distinct tokens of the line, in canonical
/// form and in the order of their first occurrence, that the index does not
/// hold. An empty line, or one of known words only, gives an empty answer.
pub fn process(line: &str, index: &Tree) -> (novel: Vec<String>)
    ensures
        texts(novel@) == response_of(index.profile(), index.words(), line@),
        forall|k: int|
            0 <= k < novel@.len() ==> is_canonical(index.profile(), (#[trigger] novel@[k])@),
        texts(novel@).no_duplicates(),
        forall|token: Seq<char>|
            #![trigger texts(novel@).contains(token)]
            #![trigger occurs(index.profile(), tokens_of(line@), token)]
            texts(novel@).contains(token) <==> (occurs(index.profile(), tokens_of(line@), token)
                && !index.words().contains(token)),
        forall|a: int, b: int, i: int, j: int|
            #![trigger first_occurs_at(index.profile(), tokens_of(line@), texts(novel@)[a], i), first_occurs_at(index.profile(), tokens_of(line@), texts(novel@)[b], j)]
            0 <= a < b < novel@.len() && first_occurs_at(
                index.profile(),
                tokens_of(line@),
                texts(novel@)[a],
                i,
            ) && first_occurs_at(index.profile(), tokens_of(line@), texts(novel@)[b], j) ==> i
                < j,
{
    let raw = split_tokens(line);
    let normalizer = index.normalizer();
    let ghost profile = index.profile();
    let ghost known = index.words();
    let mut novel: Vec<String> = Vec::new();
    let n = raw.len();
    let mut i: usize = 0;
    assert(texts(raw@).take(0) =~= Seq::<Seq<char>>::empty());
    assert(texts(novel@) =~= Seq::<Seq<char>>::empty());
    while i < n
        invariant
            i <= n,
            n == raw@.len(),
            normalizer.profile() == profile,
            index.profile() == profile,
            index.words() == known,
            texts(novel@) == novel_tokens(profile, known, texts(raw@).take(i as int)),
        decreases n - i,
    {
        let ghost upto = texts(raw@).take(i + 1);
        assert(upto.drop_last() =~= texts(raw@).take(i as int));
        assert(upto.last() == raw@[i as int]@);
        match normalizer.normalize(raw[i].as_str()) {
            Some(token) => {
                if !holds(&novel, &token) && !index.contains(&token) {
                    assert(texts(novel@.push(token)) =~= texts(novel@).push(token@));
                    novel.push(token);
                }
            },
            None => {},
        }
        i += 1;
    }
    proof {
        assert(texts(raw@).take(n as int) =~= texts(raw@));
        lemma_novel_distinct(profile, known, tokens_of(line@));
        lemma_novel_membership(profile, known, tokens_of(line@));
        lemma_novel_order(profile, known, tokens_of(line@));
        assert forall|k: int| 0 <= k < novel@.len() implies is_canonical(
            profile,
            (#[trigger] novel@[k])@,
        ) by {
            let token = novel@[k]@;
            assert(texts(novel@)[k] == token);
            assert(texts(novel@).contains(token));
            assert(occurs(profile, tokens_of(line@), token));
            let i = choose|i: int| occurs_at(profile, tokens_of(line@), token, i);
            lemma_normalize_idempotent(profile, tokens_of(line@)[i]);
        }
    }
    novel
}

} // verus!
