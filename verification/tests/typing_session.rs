use toipe::session::{
    handle_event, process_key, Key, KeyEffect, TestEvent, TestState, TestStatus,
};

fn flat(s: &str) -> Vec<char> {
    s.chars().collect()
}

#[test]
fn status_predicates() {
    assert!(TestStatus::NotDone.to_process_more_keys());
    assert!(!TestStatus::Done.to_process_more_keys());
    assert!(TestStatus::Done.to_display_results());
    assert!(!TestStatus::Quit.to_display_results());
    assert!(TestStatus::Restart.to_restart());
    assert!(!TestStatus::Quit.to_restart());
}

#[test]
fn typing_marks_hits_and_mistakes() {
    let text = flat("ab cd");
    let mut st = TestState::new();
    let (s, e) = process_key(Key::Char('a'), &mut st, &text, text.len());
    assert_eq!(s, TestStatus::NotDone);
    assert_eq!(e, vec![KeyEffect::Typed('a')]);
    let (s, e) = process_key(Key::Char('x'), &mut st, &text, text.len());
    assert_eq!(s, TestStatus::NotDone);
    assert_eq!(e, vec![KeyEffect::Mistyped('b')]);
    assert_eq!(st.input, flat("ax"));
    assert_eq!(st.num_errors, 1);
    assert_eq!(st.num_chars_typed, 2);
}

#[test]
fn backspace_undoes_a_char() {
    let text = flat("ab cd");
    let mut st = TestState::new();
    process_key(Key::Char('a'), &mut st, &text, text.len());
    process_key(Key::Char('q'), &mut st, &text, text.len());
    let (s, e) = process_key(Key::Backspace, &mut st, &text, text.len());
    assert_eq!(s, TestStatus::NotDone);
    assert_eq!(e, vec![KeyEffect::Erased('b')]);
    assert_eq!(st.input, flat("a"));
    assert_eq!(st.num_errors, 1);
    assert_eq!(st.num_chars_typed, 2);
    let (_, e) = process_key(Key::Ctrl('h'), &mut st, &text, text.len());
    assert_eq!(e, vec![KeyEffect::Erased('a')]);
    let (s, e) = process_key(Key::Backspace, &mut st, &text, text.len());
    assert_eq!((s, e), (TestStatus::NotDone, vec![]));
    assert!(st.input.is_empty());
}

#[test]
fn ctrl_w_deletes_the_last_word() {
    let text = flat("ab cd ef");
    let mut st = TestState::new();
    for c in "ab cx".chars() {
        process_key(Key::Char(c), &mut st, &text, text.len());
    }
    let (s, e) = process_key(Key::Ctrl('w'), &mut st, &text, text.len());
    assert_eq!(s, TestStatus::NotDone);
    assert_eq!(e, vec![KeyEffect::Erased('d'), KeyEffect::Erased('c')]);
    assert_eq!(st.input, flat("ab "));
    let (_, e) = process_key(Key::Ctrl('w'), &mut st, &text, text.len());
    assert!(e.is_empty());
    assert_eq!(st.input, flat("ab "));
}

#[test]
fn quit_and_restart_change_nothing() {
    let text = flat("ab");
    let mut st = TestState::new();
    process_key(Key::Char('a'), &mut st, &text, text.len());
    let (s, e) = process_key(Key::Ctrl('c'), &mut st, &text, text.len());
    assert_eq!((s, e.len()), (TestStatus::Quit, 0));
    let (s, e) = process_key(Key::Ctrl('r'), &mut st, &text, text.len());
    assert_eq!((s, e.len()), (TestStatus::Restart, 0));
    assert_eq!(st.input, flat("a"));
    assert_eq!(st.num_chars_typed, 1);
}

#[test]
fn last_char_ends_the_test() {
    let text = flat("ab");
    let mut st = TestState::new();
    process_key(Key::Char('a'), &mut st, &text, text.len());
    let (s, e) = process_key(Key::Char('z'), &mut st, &text, text.len());
    assert_eq!(s, TestStatus::Done);
    assert!(e.is_empty());
    assert_eq!(st.num_errors, 0);
    assert_eq!(st.num_chars_typed, 2);
}

#[test]
fn other_keys_do_nothing() {
    let text = flat("ab");
    let mut st = TestState::new();
    let (s, e) = process_key(Key::Other, &mut st, &text, text.len());
    assert_eq!((s, e.len()), (TestStatus::NotDone, 0));
    let (s, _) = process_key(Key::Ctrl('x'), &mut st, &text, text.len());
    assert_eq!(s, TestStatus::NotDone);
    assert!(st.input.is_empty());
}

#[test]
fn events_of_a_test() {
    let text = flat("ab");
    let mut st = TestState::new();
    let (s, _, more) = handle_event(TestEvent::Idle { time_up: false }, &mut st, &text, 2, true);
    assert_eq!((s, more), (TestStatus::NotDone, true));
    let (s, _, more) = handle_event(TestEvent::Idle { time_up: true }, &mut st, &text, 2, true);
    assert_eq!((s, more), (TestStatus::Done, false));
    let (s, _, more) = handle_event(TestEvent::Disconnected, &mut st, &text, 2, true);
    assert_eq!((s, more), (TestStatus::Quit, false));
    let (s, _, more) = handle_event(TestEvent::Disconnected, &mut st, &text, 2, false);
    assert_eq!((s, more), (TestStatus::NotDone, false));
    let (s, e, more) = handle_event(TestEvent::Pressed(Key::Char('a')), &mut st, &text, 2, false);
    assert_eq!((s, e, more), (TestStatus::NotDone, vec![KeyEffect::Typed('a')], true));
}
