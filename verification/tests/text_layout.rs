use toipe::text::{flatten_word_range, flatten_words, string_from_chars, word_offsets};

#[test]
fn offsets() {
    let words = vec!["ab".to_string(), "c".to_string(), "def".to_string()];
    let offs = word_offsets(&words);
    assert_eq!(offs, vec![0, 3, 5, 9]);
    let flat: Vec<char> = words.join(" ").chars().collect();
    assert_eq!(flat.len(), 8);
    assert_eq!(flat[offs[1]], 'c');
    assert_eq!(flat[offs[2]], 'd');
}

#[test]
fn offsets_of_no_words() {
    let words: Vec<String> = Vec::new();
    assert_eq!(word_offsets(&words), vec![0]);
    assert!(flatten_words(&words).is_empty());
}

#[test]
fn offsets_count_bytes() {
    let words = vec!["é".to_string(), "a".to_string()];
    assert_eq!(word_offsets(&words), vec![0, 3, 5]);
}

#[test]
fn flatten_joins_with_spaces() {
    let words = vec!["ab".to_string(), "c".to_string(), "def".to_string()];
    let flat = flatten_words(&words);
    let expected: Vec<char> = "ab c def".chars().collect();
    assert_eq!(flat, expected);
}

#[test]
fn offsets_locate_ascii_words() {
    let words = vec!["the".to_string(), "quick".to_string(), "fox".to_string()];
    let offs = word_offsets(&words);
    let flat = flatten_words(&words);
    assert_eq!(offs[3], flat.len() + 1);
    for (i, w) in words.iter().enumerate() {
        for (k, c) in w.chars().enumerate() {
            assert_eq!(flat[offs[i] + k], c);
        }
        if i > 0 {
            assert_eq!(flat[offs[i] - 1], ' ');
        }
    }
}

#[test]
fn flatten_a_range() {
    let words = vec!["ab".to_string(), "c".to_string(), "def".to_string()];
    let expected: Vec<char> = "c def".chars().collect();
    assert_eq!(flatten_word_range(&words, 1, 3), expected);
    assert!(flatten_word_range(&words, 2, 2).is_empty());
}

#[test]
fn string_from_chars_keeps_chars() {
    let s = string_from_chars(&['h', 'é', '!']);
    assert_eq!(s, "hé!");
}
