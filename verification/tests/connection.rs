use wordsearch::connection::{render, step, Action, Event, State};
use wordsearch::index::Tree;

fn listed(list: &[&str]) -> Vec<String> {
    list.iter().map(|w| w.to_string()).collect()
}

#[test]
fn response_is_a_bracketed_list_of_quoted_tokens() {
    assert_eq!(render(&listed(&["ZEPHYR"])), "[\"ZEPHYR\"]\n");
    assert_eq!(render(&listed(&["ANYTHING", "GOES"])), "[\"ANYTHING\", \"GOES\"]\n");
    assert_eq!(render(&listed(&["A", "B", "C"])), "[\"A\", \"B\", \"C\"]\n");
}

#[test]
fn empty_response_is_an_empty_list() {
    assert_eq!(render(&Vec::new()), "[]\n");
}

#[test]
fn response_reads_like_the_debug_form() {
    for list in [listed(&[]), listed(&["ONE"]), listed(&["ONE", "TWO2", "THREE"])] {
        assert_eq!(render(&list), format!("{:?}\n", list));
    }
}

#[test]
fn connection_reads_answers_and_closes() {
    let tree = Tree::new(listed(&["CAT", "DOG", "HORSE"]));
    let (state, action) = step(State::Accepted, Event::Ready, &tree);
    assert!(matches!(state, State::ReadingRequest));
    assert!(matches!(action, Action::ReadLine));
    let (state, action) = step(state, Event::Line("Cat Dog Zephyr zephyr\n".to_string()), &tree);
    match &state {
        State::Processing(line) => assert_eq!(line, "Cat Dog Zephyr zephyr\n"),
        other => panic!("unexpected state {:?}", other),
    }
    assert!(matches!(action, Action::Proceed));
    let (state, action) = step(state, Event::Ready, &tree);
    assert!(matches!(state, State::WritingResponse));
    match action {
        Action::Write(payload) => assert_eq!(payload, "[\"ZEPHYR\"]\n"),
        other => panic!("unexpected action {:?}", other),
    }
    let (state, action) = step(state, Event::Written, &tree);
    assert!(matches!(state, State::Closed));
    assert!(matches!(action, Action::Close));
}

#[test]
fn failed_read_is_answered_with_its_diagnostic() {
    let tree = Tree::new(Vec::new());
    let (state, action) =
        step(State::ReadingRequest, Event::ReadFailure("stream broke".to_string()), &tree);
    assert!(matches!(state, State::WritingResponse));
    match action {
        Action::Write(payload) => assert_eq!(payload, "stream broke\n"),
        other => panic!("unexpected action {:?}", other),
    }
}

#[test]
fn connection_closes_whether_or_not_the_write_succeeded() {
    let tree = Tree::new(Vec::new());
    for event in [Event::Written, Event::WriteFailure] {
        let (state, action) = step(State::WritingResponse, event, &tree);
        assert!(matches!(state, State::Closed));
        assert!(matches!(action, Action::Close));
    }
}

#[test]
fn unexpected_event_closes_the_connection() {
    let tree = Tree::new(Vec::new());
    let cases = [
        (State::Accepted, Event::Line("x".to_string())),
        (State::Accepted, Event::Written),
        (State::ReadingRequest, Event::Ready),
        (State::ReadingRequest, Event::WriteFailure),
        (State::Processing("x".to_string()), Event::Line("y".to_string())),
        (State::WritingResponse, Event::Ready),
        (State::Closed, Event::Ready),
        (State::Closed, Event::Line("x".to_string())),
    ];
    for (state, event) in cases {
        let (next, action) = step(state, event, &tree);
        assert!(matches!(next, State::Closed));
        assert!(matches!(action, Action::Close));
    }
}

#[test]
fn empty_request_line_is_answered_with_an_empty_list() {
    let tree = Tree::new(listed(&["CAT"]));
    let (_, action) = step(State::Processing("\n".to_string()), Event::Ready, &tree);
    match action {
        Action::Write(payload) => assert_eq!(payload, "[]\n"),
        other => panic!("unexpected action {:?}", other),
    }
}
