use wordsearch::index::Tree;
use wordsearch::normalize::Profile;
use wordsearch::request::process;

fn reference(list: &[&str]) -> Vec<String> {
    list.iter().map(|w| w.to_string()).collect()
}

#[test]
fn known_words_and_duplicates_are_left_out() {
    let tree = Tree::new(reference(&["CAT", "DOG", "HORSE"]));
    assert_eq!(process("Cat Dog Zephyr zephyr", &tree), vec!["ZEPHYR".to_string()]);
}

#[test]
fn trailing_line_feed_is_no_part_of_a_token() {
    let tree = Tree::new(reference(&["CAT", "DOG", "HORSE"]));
    assert_eq!(process("Cat Dog Zephyr zephyr\n", &tree), vec!["ZEPHYR".to_string()]);
}

#[test]
fn apostrophes_are_rejected_under_the_strict_profile() {
    let tree = Tree::with_profile(reference(&["APPLE"]), Profile::strict());
    assert_eq!(process("it's don't APPLE", &tree), Vec::<String>::new());
}

#[test]
fn apostrophes_are_rejected_under_the_alphanumeric_profile() {
    let tree = Tree::new(reference(&["APPLE"]));
    assert_eq!(process("it's don't APPLE", &tree), Vec::<String>::new());
}

#[test]
fn mangled_apostrophe_rejects_the_token() {
    let tree = Tree::new(Vec::new());
    assert_eq!(
        process("Peter\u{e2}\u{20ac}\u{2122}s house", &tree),
        vec!["HOUSE".to_string()]
    );
}

#[test]
fn empty_line_gives_empty_answer() {
    let tree = Tree::new(reference(&["CAT"]));
    assert_eq!(process("", &tree), Vec::<String>::new());
}

#[test]
fn whitespace_only_line_gives_empty_answer() {
    let tree = Tree::new(reference(&["CAT"]));
    assert_eq!(process(" \t \r\n", &tree), Vec::<String>::new());
}

#[test]
fn line_of_known_words_gives_empty_answer() {
    let tree = Tree::new(reference(&["CAT", "DOG"]));
    assert_eq!(process("dog cat Dog CAT", &tree), Vec::<String>::new());
}

#[test]
fn empty_index_makes_every_valid_token_novel() {
    let tree = Tree::new(Vec::new());
    assert_eq!(
        process("Anything Goes", &tree),
        vec!["ANYTHING".to_string(), "GOES".to_string()]
    );
}

#[test]
fn requests_on_one_index_do_not_see_each_other() {
    let tree = Tree::new(reference(&["CAT", "DOG", "HORSE"]));
    let first = "alpha cat bravo";
    let second = "dog charlie delta";
    let a1 = process(first, &tree);
    let b1 = process(second, &tree);
    let b2 = process(second, &tree);
    let a2 = process(first, &tree);
    assert_eq!(a1, vec!["ALPHA".to_string(), "BRAVO".to_string()]);
    assert_eq!(b1, vec!["CHARLIE".to_string(), "DELTA".to_string()]);
    assert_eq!(a1, a2);
    assert_eq!(b1, b2);
    assert!(tree.contains(&"CAT".to_string()));
    assert!(!tree.contains(&"ALPHA".to_string()));
}

#[test]
fn answer_keeps_first_occurrence_order_without_duplicates() {
    let tree = Tree::new(reference(&["KNOWN"]));
    let answer = process("bbb aaa BBB known ccc A-A-A ccc bbb", &tree);
    assert_eq!(answer, vec!["BBB".to_string(), "AAA".to_string(), "CCC".to_string()]);
    for i in 0..answer.len() {
        for j in 0..answer.len() {
            if i != j {
                assert_ne!(answer[i], answer[j]);
            }
        }
    }
}

#[test]
fn token_is_in_answer_exactly_when_canonical_and_unknown() {
    let tree = Tree::new(reference(&["HORSE", "zebra"]));
    let answer = process("Horse zebra! mule ox 42 c3po", &tree);
    assert!(!answer.contains(&"HORSE".to_string()));
    assert!(!answer.contains(&"ZEBRA".to_string()));
    assert!(answer.contains(&"MULE".to_string()));
    assert!(answer.contains(&"C3PO".to_string()));
    assert!(!answer.contains(&"OX".to_string()));
    assert!(!answer.contains(&"42".to_string()));
    assert_eq!(answer.len(), 2);
}

#[test]
fn tokens_are_separated_by_any_ascii_whitespace() {
    let tree = Tree::new(Vec::new());
    assert_eq!(
        process("one\ttwo  three\r\nfour\x0cfive", &tree),
        vec![
            "ONE".to_string(),
            "TWO".to_string(),
            "THREE".to_string(),
            "FOUR".to_string(),
            "FIVE".to_string()
        ]
    );
}

#[test]
fn short_tokens_follow_the_profile() {
    let strict = Tree::with_profile(Vec::new(), Profile::strict());
    let alphanumeric = Tree::new(Vec::new());
    assert_eq!(process("a ab abc", &strict), vec!["AB".to_string(), "ABC".to_string()]);
    assert_eq!(process("a ab abc", &alphanumeric), vec!["ABC".to_string()]);
}

#[test]
fn digits_follow_the_profile() {
    let strict = Tree::with_profile(Vec::new(), Profile::strict());
    let alphanumeric = Tree::new(Vec::new());
    assert_eq!(process("r2d2 r2-d2", &strict), vec!["RD".to_string()]);
    assert_eq!(process("r2d2 r2-d2", &alphanumeric), vec!["R2D2".to_string()]);
}
