use wordsearch::text::{chars_of, holds, separates, split_lines, split_tokens};

fn strings(list: &[&str]) -> Vec<String> {
    list.iter().map(|w| w.to_string()).collect()
}

#[test]
fn characters_come_out_in_order() {
    assert_eq!(chars_of("a\u{e9}z"), vec!['a', '\u{e9}', 'z']);
    assert_eq!(chars_of(""), Vec::<char>::new());
}

#[test]
fn separators_are_the_ascii_whitespace() {
    for c in [' ', '\t', '\n', '\x0c', '\r'] {
        assert!(separates(c));
    }
    for c in ['a', '0', '-', '\x0b', '\u{a0}', '\u{2003}'] {
        assert!(!separates(c));
    }
}

#[test]
fn tokens_are_the_runs_between_separators() {
    assert_eq!(split_tokens("Cat Dog"), strings(&["Cat", "Dog"]));
    assert_eq!(split_tokens("  a  b\tc\n"), strings(&["a", "b", "c"]));
    assert_eq!(split_tokens("single"), strings(&["single"]));
    assert_eq!(split_tokens("x\u{a0}y z"), strings(&["x\u{a0}y", "z"]));
}

#[test]
fn no_token_in_empty_or_blank_text() {
    assert_eq!(split_tokens(""), Vec::<String>::new());
    assert_eq!(split_tokens(" \n\t"), Vec::<String>::new());
}

#[test]
fn lines_are_cut_at_every_line_feed() {
    assert_eq!(split_lines("CAT\nDOG\nHORSE"), strings(&["CAT", "DOG", "HORSE"]));
    assert_eq!(split_lines("CAT\nDOG\n"), strings(&["CAT", "DOG", ""]));
    assert_eq!(split_lines("\n\nx"), strings(&["", "", "x"]));
    assert_eq!(split_lines("a b\r\nc"), strings(&["a b\r", "c"]));
}

#[test]
fn text_without_line_feed_is_one_line() {
    assert_eq!(split_lines(""), strings(&[""]));
    assert_eq!(split_lines("CAT"), strings(&["CAT"]));
}

#[test]
fn lines_agree_with_the_standard_split() {
    for text in ["", "\n", "a\n", "a\nb", "\na\n\nb\n", "no feed"] {
        let expected: Vec<String> = text.split('\n').map(|l| l.to_string()).collect();
        assert_eq!(split_lines(text), expected);
    }
}

#[test]
fn tokens_agree_with_the_standard_split() {
    for text in ["", " ", "a", " a", "a ", "a  b", "\ta\nb\r\nc d\x0ce ", "x\x0by"] {
        let expected: Vec<String> =
            text.split_ascii_whitespace().map(|t| t.to_string()).collect();
        assert_eq!(split_tokens(text), expected);
    }
}

#[test]
fn list_holds_what_was_put_in() {
    let list = strings(&["AAA", "BBB"]);
    assert!(holds(&list, &"AAA".to_string()));
    assert!(holds(&list, &"BBB".to_string()));
    assert!(!holds(&list, &"AA".to_string()));
    assert!(!holds(&Vec::new(), &"AAA".to_string()));
}
