use toipe::results::{final_counts, heatmap, heatmap_line, results_key_decision};
use toipe::text::offsets_fit;
use toipe::session::Key;
use toipe::window::{
    ensure_window, line_budget, test_word_count, text_width, timed_window_size, window_marks, Mark,
    MarkedChar,
};

fn words(s: &str) -> Vec<String> {
    s.split(' ').map(|w| w.to_string()).collect()
}

fn chars(s: &str) -> Vec<char> {
    s.chars().collect()
}

#[test]
fn window_moves_forward_and_back() {
    let ws = words("ab cd ef gh");
    // offsets 0 3 6 9 12
    assert_eq!(ensure_window(&ws, 0, 2, 5, true), None);
    assert_eq!(ensure_window(&ws, 0, 2, 6, true), Some(2));
    assert_eq!(ensure_window(&ws, 2, 2, 5, true), Some(0));
    assert_eq!(ensure_window(&ws, 2, 2, 6, true), None);
    assert_eq!(ensure_window(&ws, 2, 2, 20, true), None);
    assert_eq!(ensure_window(&ws, 0, 2, 6, false), None);
    assert_eq!(ensure_window(&[], 0, 2, 6, true), None);
    assert_eq!(ensure_window(&ws, 1, 2, 0, true), Some(0));
}

#[test]
fn window_marks_cover_the_typed_part() {
    let ws = words("ab cd ef");
    let input = chars("ab cx e");
    let m = window_marks(&ws, 1, 2, &input);
    let expected = vec![
        MarkedChar { ch: 'c', mark: Mark::Correct },
        MarkedChar { ch: 'd', mark: Mark::Wrong },
        MarkedChar { ch: ' ', mark: Mark::Correct },
        MarkedChar { ch: 'e', mark: Mark::Correct },
    ];
    assert_eq!(m, expected);
    assert!(window_marks(&ws, 2, 1, &chars("ab")).is_empty());
}

#[test]
fn counts_of_a_finished_test() {
    assert_eq!(final_counts(&chars("abxd"), &chars("abcde")), (3, 1));
    assert_eq!(final_counts(&chars("abcdef"), &chars("abc")), (3, 0));
    assert_eq!(final_counts(&[], &chars("abc")), (0, 0));
}

#[test]
fn heatmap_of_a_line() {
    let line = words("ab c");
    let input = chars("xb");
    let (marks, idx) = heatmap_line(&line, 0, 0, 4, &input);
    let expected = vec![
        MarkedChar { ch: 'a', mark: Mark::Wrong },
        MarkedChar { ch: 'b', mark: Mark::Correct },
        MarkedChar { ch: ' ', mark: Mark::Pending },
        MarkedChar { ch: 'c', mark: Mark::Pending },
    ];
    assert_eq!(marks, expected);
    assert_eq!(idx, 4);
    let (marks, idx) = heatmap_line(&words("c"), 3, 2, 10, &chars("aaaaac"));
    assert_eq!(marks, vec![MarkedChar { ch: 'c', mark: Mark::Correct }, MarkedChar { ch: ' ', mark: Mark::Pending }]);
    assert_eq!(idx, 4);
}

#[test]
fn results_page_keys() {
    assert_eq!(results_key_decision(Some(Key::Ctrl('r'))), Some(true));
    assert_eq!(results_key_decision(Some(Key::Ctrl('c'))), Some(false));
    assert_eq!(results_key_decision(Some(Key::Char('r'))), None);
    assert_eq!(results_key_decision(None), Some(false));
}

#[test]
fn sizes_of_a_test() {
    assert_eq!(test_word_count(Some(5), 99), 30);
    assert_eq!(test_word_count(Some(60), 99), 180);
    assert_eq!(test_word_count(None, 99), 99);
    assert_eq!(line_budget(24, 3), 21);
    assert_eq!(line_budget(4, 3), 2);
    assert_eq!(line_budget(1, 8), 2);
    assert_eq!(text_width(80), 32);
    assert_eq!(timed_window_size(0, 10), 1);
    assert_eq!(timed_window_size(12, 10), 10);
    assert_eq!(timed_window_size(4, 10), 4);
}

#[test]
fn heatmap_of_the_shown_text() {
    let ws = words("ab cd ef");
    // input placed from offset 3: "cx e" covers "cd e"
    let input = chars("ab cx e");
    let lines = heatmap(&ws[1..], 5, 5, 3, &input);
    let expected = vec![
        vec![
            MarkedChar { ch: 'c', mark: Mark::Correct },
            MarkedChar { ch: 'd', mark: Mark::Wrong },
            MarkedChar { ch: ' ', mark: Mark::Correct },
            MarkedChar { ch: 'e', mark: Mark::Correct },
            MarkedChar { ch: 'f', mark: Mark::Pending },
        ],
    ];
    assert_eq!(lines, expected);
    let lines = heatmap(&ws, 2, 2, 0, &chars("ab"));
    assert_eq!(lines.len(), 3);
    assert_eq!(lines[0].len(), 3);
    assert_eq!(lines[2], vec![MarkedChar { ch: 'e', mark: Mark::Pending }, MarkedChar { ch: 'f', mark: Mark::Pending }]);
}

#[test]
fn offsets_fit_in_usize() {
    assert!(offsets_fit(&words("ab cd ef")));
    assert!(offsets_fit(&[]));
}
