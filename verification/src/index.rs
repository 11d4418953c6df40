//! The reference index: canonical words grouped by their first character.

use crate::normalize::{is_canonical, lemma_normalize_idempotent, normalize_spec, Normalizer, Profile};
use crate::text::{holds, texts};
use std::collections::HashMap;
use vstd::prelude::*;
use vstd::string::StrSliceExecFns;

verus! {

broadcast use vstd::std_specs::hash::group_hash_axioms;

/// The canonical forms of the words of a reference list: every result of
/// normalizing one of them.
pub open spec fn indexed_words(profile: Profile, words: Seq<Seq<char>>) -> Set<Seq<char>> {
    Set::new(
        |token: Seq<char>|
            exists|i: int|
                0 <= i < words.len() && #[trigger] normalize_spec(profile, words[i]) == Some(token),
    )
}

/// The key of the group that `word` belongs to: the code of its first character.
pub open spec fn group_key(word: Seq<char>) -> u32 {
    word[0] as u32
}

/// Whether `word` stands in the group of its own first character.
pub open spec fn filed(branches: Map<u32, Vec<String>>, word: Seq<char>) -> bool {
    &&& word.len() > 0
    &&& branches.contains_key(group_key(word))
    &&& texts(branches[group_key(word)]@).contains(word)
}

/// Whether every word of every group is canonical and stands under the code of
/// its own first character.
pub open spec fn groups_are_sound(profile: Profile, branches: Map<u32, Vec<String>>) -> bool {
    forall|key: u32, i: int|
        branches.contains_key(key) && 0 <= i < branches[key]@.len() ==> {
            &&& is_canonical(profile, #[trigger] branches[key]@[i]@)
            &&& group_key(branches[key]@[i]@) == key
        }
}

/// An immutable index of canonical words, one group for each first character.
pub struct Tree {
    branches: HashMap<u32, Vec<String>>,
    normalizer: Normalizer,
}

impl Tree {
    #[verifier::type_invariant]
    spec fn well_formed(self) -> bool {
        groups_are_sound(self.normalizer.profile(), self.branches@)
    }

    /// The profile under which the words were normalized, and under which
    /// requests against this index are.
    pub closed spec fn profile(&self) -> Profile {
        self.normalizer.profile()
    }

    /// The words that the index holds.
    pub closed spec fn words(&self) -> Set<Seq<char>> {
        Set::new(|word: Seq<char>| filed(self.branches@, word))
    }

    /// Builds the index of a reference list under the alphanumeric profile.
    /// Words that normalization rejects are left out.
    pub fn new(words: Vec<String>) -> (tree: Tree)
        ensures
            tree.profile() == Profile::alphanumeric_spec(),
            tree.words() == indexed_words(tree.profile(), texts(words@)),
            forall|i: int|
                0 <= i < words@.len() ==> (#[trigger] normalize_spec(
                    tree.profile(),
                    texts(words@)[i],
                ) matches Some(token) ==> tree.words().contains(token)),
            forall|word: Seq<char>| #[trigger]
                tree.words().contains(word) ==> is_canonical(tree.profile(), word),
    {
        Tree::with_profile(words, Profile::alphanumeric())
    }

    /// Builds the index of a reference list under `profile`. Words that
    /// normalization rejects are left out.
    pub fn with_profile(words: Vec<String>, profile: Profile) -> (tree: Tree)
        ensures
            tree.profile() == profile,
            tree.words() == indexed_words(profile, texts(words@)),
            forall|i: int|
                0 <= i < words@.len() ==> (#[trigger] normalize_spec(profile, texts(words@)[i])
                    matches Some(token) ==> tree.words().contains(token)),
            forall|word: Seq<char>| #[trigger]
                tree.words().contains(word) ==> is_canonical(profile, word),
    {
        let normalizer = Normalizer::new(profile);
        let mut branches: HashMap<u32, Vec<String>> = HashMap::new();
        let n = words.len();
        let mut i: usize = 0;
        while i < n
            invariant
                i <= n,
                n == words@.len(),
                normalizer.profile() == profile,
                groups_are_sound(profile, branches@),
                forall|token: Seq<char>|
                    filed(branches@, token) <==> indexed_words(
                        profile,
                        texts(words@).take(i as int),
                    ).contains(token),
            decreases n - i,
        {
            let ghost before = branches@;
            let ghost raw = texts(words@);
            assert(raw[i as int] == words@[i as int]@);
            proof {
                lemma_indexed_words_step(profile, raw, i as int);
            }
            match normalizer.normalize(words[i].as_str()) {
                Some(token) => {
                    proof {
                        lemma_normalize_idempotent(profile, words@[i as int]@);
                    }
                    let key = token.as_str().get_char(0) as u32;
                    let mut group = match branches.remove(&key) {
                        Some(group) => group,
                        None => Vec::new(),
                    };
                    let ghost earlier = group@;
                    group.push(token);
                    branches.insert(key, group);
                    proof {
                        lemma_group_grows(profile, before, earlier, group, token);
                        assert(branches@ =~= before.insert(key, group));
                    }
                },
                None => {},
            }
            assert forall|token: Seq<char>|
                filed(branches@, token) <==> indexed_words(
                    profile,
                    raw.take(i + 1),
                ).contains(token) by {
                assert(filed(before, token) <==> indexed_words(
                    profile,
                    raw.take(i as int),
                ).contains(token));
            }
            i += 1;
        }
        proof {
            assert(texts(words@).take(n as int) =~= texts(words@));
        }
        let tree = Tree { branches, normalizer };
        proof {
            let list = texts(words@);
            assert(tree.words() =~= indexed_words(profile, list));
            assert forall|word: Seq<char>| #[trigger]
                tree.words().contains(word) implies is_canonical(profile, word) by {
                let i = choose|i: int|
                    0 <= i < list.len() && #[trigger] normalize_spec(profile, list[i]) == Some(
                        word,
                    );
                lemma_normalize_idempotent(profile, list[i]);
            }
        }
        tree
    }

    /// Whether `token` is one of the indexed words. A token whose first
    /// character has no group is simply not found.
    pub fn contains(&self, token: &String) -> (found: bool)
        ensures
            found == self.words().contains(token@),
            found ==> is_canonical(self.profile(), token@),
    {
        proof {
            use_type_invariant(self);
        }
        if token.as_str().is_empty() {
            return false;
        }
        let key = token.as_str().get_char(0) as u32;
        match self.branches.get(&key) {
            None => false,
            Some(group) => holds(group, token),
        }
    }

    /// The normalizer that built this index.
    pub fn normalizer(&self) -> (normalizer: &Normalizer)
        ensures
            normalizer.profile() == self.profile(),
    {
        &self.normalizer
    }
}

/// Taking one more word of the list into account adds its canonical form, if it
/// has one, and nothing else.
pub proof fn lemma_indexed_words_step(profile: Profile, words: Seq<Seq<char>>, i: int)
    requires
        0 <= i < words.len(),
    ensures
        forall|token: Seq<char>|
            indexed_words(profile, words.take(i + 1)).contains(token) <==> (indexed_words(
                profile,
                words.take(i),
            ).contains(token) || normalize_spec(profile, words[i]) == Some(token)),
{
    let shorter = words.take(i);
    let longer = words.take(i + 1);
    assert forall|token: Seq<char>|
        indexed_words(profile, longer).contains(token) <==> (indexed_words(
            profile,
            shorter,
        ).contains(token) || normalize_spec(profile, words[i]) == Some(token)) by {
        if indexed_words(profile, longer).contains(token) {
            let j = choose|j: int|
                0 <= j < longer.len() && #[trigger] normalize_spec(profile, longer[j]) == Some(
                    token,
                );
            if j < i {
                assert(shorter[j] == longer[j]);
            }
        }
        if indexed_words(profile, shorter).contains(token) {
            let j = choose|j: int|
                0 <= j < shorter.len() && #[trigger] normalize_spec(profile, shorter[j]) == Some(
                    token,
                );
            assert(longer[j] == shorter[j]);
        }
        if normalize_spec(profile, words[i]) == Some(token) {
            assert(longer[i] == words[i]);
        }
    }
}

/// Every word of the reference list that has a canonical form is found under
/// that form in the index built from the list.
pub proof fn lemma_indexed_words_hold_list(
    profile: Profile,
    words: Seq<Seq<char>>,
    i: int,
    token: Seq<char>,
)
    requires
        0 <= i < words.len(),
        normalize_spec(profile, words[i]) == Some(token),
    ensures
        indexed_words(profile, words).contains(token),
        is_canonical(profile, token),
{
    lemma_normalize_idempotent(profile, words[i]);
}

/// Putting a canonical word at the end of the group of its first character
/// files that word and no other, and leaves the groups sound.
pub proof fn lemma_group_grows(
    profile: Profile,
    before: Map<u32, Vec<String>>,
    earlier: Seq<String>,
    group: Vec<String>,
    token: String,
)
    requires
        groups_are_sound(profile, before),
        is_canonical(profile, token@),
        before.contains_key(group_key(token@)) ==> earlier == before[group_key(token@)]@,
        !before.contains_key(group_key(token@)) ==> earlier.len() == 0,
        group@ == earlier.push(token),
    ensures
        groups_are_sound(profile, before.insert(group_key(token@), group)),
        forall|other: Seq<char>|
            filed(before.insert(group_key(token@), group), other) <==> (filed(before, other)
                || other == token@),
{
    let word = token@;
    let key = group_key(word);
    let after = before.insert(key, group);
    assert(texts(group@) =~= texts(earlier).push(word));
    assert forall|other: Seq<char>|
        filed(after, other) <==> (filed(before, other) || other == word) by {
        if other.len() > 0 && group_key(other) == key {
            let grown = texts(earlier).push(word);
            if grown.contains(other) {
                let j = choose|j: int| 0 <= j < grown.len() && grown[j] == other;
                if j < earlier.len() {
                    assert(texts(earlier)[j] == other);
                }
            }
            if texts(earlier).contains(other) {
                let j = choose|j: int| 0 <= j < texts(earlier).len() && texts(earlier)[j] == other;
                assert(grown[j] == other);
            }
            if other == word {
                assert(grown[earlier.len() as int] == other);
            }
        }
    }
    assert forall|k: u32, j: int| after.contains_key(k) && 0 <= j < after[k]@.len() implies {
        &&& is_canonical(profile, #[trigger] after[k]@[j]@)
        &&& group_key(after[k]@[j]@) == k
    } by {
        if k == key {
            if j < earlier.len() {
                assert(before[key]@[j] == earlier[j]);
            }
        } else {
            assert(before[k] == after[k]);
        }
    }
}

} // verus!
