use wordsearch::index::Tree;
use wordsearch::normalize::{Normalizer, Profile};

fn word_list(list: &[&str]) -> Vec<String> {
    list.iter().map(|w| w.to_string()).collect()
}

#[test]
fn every_listed_word_is_found_under_its_canonical_form() {
    let list = ["CAT", "dog", "Horse", "r2-d2", "it's", "ox", "", "Z\u{dc}RICH"];
    for profile in [Profile::strict(), Profile::alphanumeric()] {
        let tree = Tree::with_profile(word_list(&list), profile);
        let normalizer = Normalizer::new(profile);
        for word in list {
            if let Some(token) = normalizer.normalize(word) {
                assert!(tree.contains(&token));
            }
        }
    }
}

#[test]
fn words_are_indexed_in_canonical_form() {
    let tree = Tree::new(word_list(&["dog", "R2-D2"]));
    assert!(tree.contains(&"DOG".to_string()));
    assert!(tree.contains(&"R2D2".to_string()));
    assert!(!tree.contains(&"dog".to_string()));
    assert!(!tree.contains(&"R2-D2".to_string()));
}

#[test]
fn rejected_words_are_left_out() {
    let tree = Tree::new(word_list(&["it's", "ox", "", "--"]));
    assert!(!tree.contains(&"ITS".to_string()));
    assert!(!tree.contains(&"OX".to_string()));
    assert!(!tree.contains(&"".to_string()));
}

#[test]
fn unknown_first_character_is_not_found() {
    let tree = Tree::new(word_list(&["CAT", "COW"]));
    assert!(tree.contains(&"COW".to_string()));
    assert!(!tree.contains(&"DOG".to_string()));
    assert!(!tree.contains(&"CA".to_string()));
    assert!(!tree.contains(&"CATS".to_string()));
}

#[test]
fn empty_list_gives_an_index_that_holds_nothing() {
    let tree = Tree::new(Vec::new());
    assert!(!tree.contains(&"CAT".to_string()));
    assert!(!tree.contains(&"".to_string()));
}

#[test]
fn repeated_words_are_found() {
    let tree = Tree::new(word_list(&["CAT", "cat", "Cat"]));
    assert!(tree.contains(&"CAT".to_string()));
}

#[test]
fn index_remembers_its_profile() {
    assert_eq!(Tree::new(Vec::new()).normalizer().get_profile(), Profile::alphanumeric());
    let strict = Tree::with_profile(word_list(&["AB"]), Profile::strict());
    assert_eq!(strict.normalizer().get_profile(), Profile::strict());
    assert!(strict.contains(&"AB".to_string()));
    assert!(!Tree::new(word_list(&["AB"])).contains(&"AB".to_string()));
}
