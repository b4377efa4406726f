use toipe::layout::{take_words_for_lines, wrap_words};

fn words(s: &str) -> Vec<String> {
    s.split(' ').map(|w| w.to_string()).collect()
}

#[test]
fn words_break_into_lines() {
    // width 10: "aa bbb ccc" is 10 characters, "dddd" starts a new line
    assert_eq!(wrap_words(&words("aa bbb ccc dddd e"), 10, 5), vec![3, 2]);
    // the larger width counts
    assert_eq!(wrap_words(&words("aa bbb ccc dddd e"), 4, 10), vec![3, 2]);
    // a word longer than the line stands alone
    assert_eq!(wrap_words(&words("a abcdefghijkl b"), 5, 0), vec![1, 1, 1]);
    assert!(wrap_words(&[], 10, 10).is_empty());
}

#[test]
fn words_for_lines() {
    let ws = words("aa bbb ccc dddd e ff");
    assert_eq!(wrap_words(&ws, 10, 10), vec![3, 3]);
    assert_eq!(take_words_for_lines(&ws, 10, 10, 1), 3);
    assert_eq!(take_words_for_lines(&ws, 10, 10, 2), 6);
    assert_eq!(take_words_for_lines(&ws, 10, 10, 9), 6);
    assert_eq!(take_words_for_lines(&ws, 10, 10, 0), 0);
}
