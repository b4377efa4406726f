use vstd::prelude::*;
use crate::text::{flatten_word_range, joined, word_offsets, word_start, word_views};

verus! {

/// How a typed character compares with the text.
#[derive(Clone, Copy, Debug, PartialEq, Eq, Structural)]
pub enum Mark {
    /// Typed, and equal to the text's character.
    Correct,
    /// Typed, and different from the text's character.
    Wrong,
    /// Not typed yet.
    Pending,
}

/// A character of the text with how it was typed.
#[derive(Clone, Copy, Debug, PartialEq, Eq, Structural)]
pub struct MarkedChar {
    pub ch: char,
    pub mark: Mark,
}

/// The text's character `c` with mark `m`.
pub open spec fn marked(c: char, m: Mark) -> MarkedChar {
    MarkedChar { ch: c, mark: m }
}

/// How the text's character `c` at position `g` stands against the input.
pub open spec fn mark_at(input: Seq<char>, g: int, c: char) -> Mark {
    if g < input.len() {
        if input[g] == c {
            Mark::Correct
        } else {
            Mark::Wrong
        }
    } else {
        Mark::Pending
    }
}

/// The smaller of two integers.
pub open spec fn min_int(a: int, b: int) -> int {
    if a <= b {
        a
    } else {
        b
    }
}

/// The end of the window of `size` words that starts at word `start`, in a
/// text of `n` words.
pub open spec fn window_end(start: int, size: int, n: int) -> int {
    min_int(start + size, n)
}

/// Where the window of a timed test starts after the input has reached
/// `input_len` characters, if it moves: to the end of the window once the
/// input has passed it, or one window size back (not below the first word)
/// once the input is back before its start. Words are laid out as in
/// `word_start`.
pub open spec fn window_move(
    ws: Seq<Seq<char>>,
    start: int,
    size: int,
    input_len: int,
    timed: bool,
) -> Option<int> {
    let n = ws.len() as int;
    let end = window_end(start, size, n);
    if !timed || n == 0 {
        None
    } else if input_len >= word_start(ws, end) && end < n {
        Some(end)
    } else if input_len < word_start(ws, start) && start > 0 {
        Some(if start >= size {
            start - size
        } else {
            0
        })
    } else {
        None
    }
}

/// Decides whether the shown window of words moves after the input changed:
/// the new first word, or `None` where the window stays.
pub fn ensure_window(
    words: &[String],
    window_start: usize,
    window_size: usize,
    input_len: usize,
    timed: bool,
) -> (res: Option<usize>)
    requires
        window_start <= words@.len(),
        window_start + window_size <= usize::MAX,
        word_start(word_views(words@), words@.len() as int) <= usize::MAX,
    ensures
        match window_move(
            word_views(words@),
            window_start as int,
            window_size as int,
            input_len as int,
            timed,
        ) {
            Some(s) => res == Some(s as usize),
            None => res is None,
        },
{
    if !timed || words.len() == 0 {
        return None;
    }
    let offs = word_offsets(words);
    let n = words.len();
    let chunk_end_idx = if window_start + window_size < n {
        window_start + window_size
    } else {
        n
    };
    if input_len >= offs[chunk_end_idx] && chunk_end_idx < n {
        Some(chunk_end_idx)
    } else if input_len < offs[window_start] && window_start > 0 {
        Some(window_start.saturating_sub(window_size))
    } else {
        None
    }
}

/// The marks of the characters of the shown window that the input has
/// reached: the words of the window are joined by single spaces, the window's
/// text starts in the input at the offset of its first word, and each of its
/// characters that the input covers is marked correct or wrong.
pub open spec fn window_marks_spec(
    ws: Seq<Seq<char>>,
    start: int,
    size: int,
    input: Seq<char>,
) -> Seq<MarkedChar> {
    let flat = joined(ws.subrange(start, window_end(start, size, ws.len() as int)));
    let off = word_start(ws, start);
    let n = min_int(if input.len() >= off { input.len() - off } else { 0 }, flat.len() as int);
    window_marks_prefix(flat, off, input, n)
}

/// The marks of the first `n` characters of `flat`, placed in the input at
/// `off`.
pub open spec fn window_marks_prefix(
    flat: Seq<char>,
    off: int,
    input: Seq<char>,
    n: int,
) -> Seq<MarkedChar>
    decreases n,
{
    if n <= 0 {
        seq![]
    } else {
        window_marks_prefix(flat, off, input, n - 1).push(
            marked(flat[n - 1], mark_at(input, off + n - 1, flat[n - 1])),
        )
    }
}

/// What the screen shows of the window when it is drawn: the marks of the
/// window's characters that the input covers; the cursor then stands after
/// the last of them.
pub fn window_marks(
    words: &[String],
    window_start: usize,
    window_size: usize,
    input: &[char],
) -> (marks: Vec<MarkedChar>)
    requires
        window_start <= words@.len(),
        window_start + window_size <= usize::MAX,
        word_start(word_views(words@), words@.len() as int) <= usize::MAX,
    ensures
        marks@ == window_marks_spec(
            word_views(words@),
            window_start as int,
            window_size as int,
            input@,
        ),
{
    let n_words = words.len();
    let end = if window_start + window_size < n_words {
        window_start + window_size
    } else {
        n_words
    };
    let flat = flatten_word_range(words, window_start, end);
    let offs = word_offsets(words);
    let off = offs[window_start];
    let typed = input.len().saturating_sub(off);
    let n = if typed < flat.len() {
        typed
    } else {
        flat.len()
    };
    let mut marks: Vec<MarkedChar> = Vec::new();
    assert(n == 0 || off + n <= input@.len());
    for k in 0..n
        invariant
            n <= flat@.len(),
            n == 0 || off + n <= input@.len(),
            marks@ == window_marks_prefix(flat@, off as int, input@, k as int),
    {
        assert(off + k < input.len());
        let c = flat[k];
        let m = if input[off + k] == c {
            Mark::Correct
        } else {
            Mark::Wrong
        };
        marks.push(MarkedChar { ch: c, mark: m });
    }
    marks
}

/// How many words a test has: three per second of a timed test, but at least
/// thirty, or the chosen number of words.
pub fn test_word_count(time: Option<u64>, num_words: usize) -> (n: usize)
    requires
        time matches Some(t) ==> t * 3 <= u64::MAX,
    ensures
        n == match time {
            Some(t) => (if t * 3 >= 30 {
                t * 3
            } else {
                30
            }) as usize,
            None => num_words,
        },
{
    match time {
        Some(t) => {
            let w = t * 3;
            let w = if w >= 30 {
                w
            } else {
                30
            };
            w as usize
        },
        None => num_words,
    }
}

/// How many lines of the terminal's `height` the words may take when
/// `reserved` lines are kept for other things: at least two.
pub fn line_budget(height: u16, reserved: u16) -> (n: usize)
    ensures
        n == (if height >= reserved + 2 {
            height - reserved
        } else {
            2
        }),
{
    let h = height.saturating_sub(reserved);
    let h = if h >= 2 {
        h
    } else {
        2
    };
    h as usize
}

/// The width of the text column on a terminal `width` columns wide: two
/// fifths of it, rounded down.
pub fn text_width(width: u16) -> (w: u16)
    requires
        width * 2 <= u16::MAX,
    ensures
        w == width * 2 / 5,
{
    width * 2 / 5
}

/// How many words a timed test shows at once, where `fit` words fit the
/// lines: at least one, and no more than there are words.
pub fn timed_window_size(fit: usize, n_words: usize) -> (size: usize)
    ensures
        size == min_int(if fit >= 1 { fit as int } else { 1 }, n_words as int),
{
    let m = if fit >= 1 {
        fit
    } else {
        1
    };
    if m < n_words {
        m
    } else {
        n_words
    }
}

/// The window of a timed test stays within the text. A backward move, which
/// comes only when the input is back before the window's first word, goes
/// exactly one window size back, not below the first word. A new first word is a
/// word of the text (where the old first word was one, or the window has at
/// least one word), so a first word that is a word of the text stays one
/// across every move. The window moves forward, to its end, exactly when the
/// input has passed that end and words follow it; any other move goes back,
/// not past the first word. With a window of at least one word, a forward move
/// goes past the old first word and a backward move to an earlier word.
pub proof fn lemma_window_stays_in_text(
    ws: Seq<Seq<char>>,
    start: int,
    size: int,
    input_len: int,
    timed: bool,
)
    requires
        0 <= start <= ws.len(),
        0 <= size,
    ensures
        ({
            let n = ws.len() as int;
            let end = window_end(start, size, n);
            let forward = input_len >= word_start(ws, end) && end < n;
            let moved = window_move(ws, start, size, input_len, timed);
            &&& moved matches Some(s) ==> 0 <= s <= n
            &&& moved matches Some(s) ==> (start < n || 1 <= size ==> s < n)
            &&& start < n ==> (match moved {
                Some(s) => s,
                None => start,
            }) < n
            &&& moved matches Some(s) ==> (forward ==> s == end && s >= start)
            &&& moved matches Some(s) ==> (!forward ==> s <= start)
            &&& moved matches Some(s) ==> (!forward ==> s == (if start >= size {
                start - size
            } else {
                0
            }) && input_len < word_start(ws, start))
            &&& moved matches Some(s) ==> (1 <= size ==> (s > start <==> forward))
            &&& moved matches Some(s) ==> (1 <= size ==> s != start)
        }),
{
}

/// A character of the text at position `g` of the input is marked correct
/// exactly when the input reaches `g` and holds that character there, wrong
/// when the input reaches `g` and holds another character, and not yet typed
/// when the input does not reach `g`. Spaces are marked like any character.
pub proof fn lemma_mark_meaning(input: Seq<char>, g: int, c: char)
    requires
        0 <= g,
    ensures
        mark_at(input, g, c) == Mark::Correct <==> g < input.len() && input[g] == c,
        mark_at(input, g, c) == Mark::Wrong <==> g < input.len() && input[g] != c,
        mark_at(input, g, c) == Mark::Pending <==> g >= input.len(),
{
}

/// When the window is drawn, each of its marked characters is the window
/// text's character at that place, marked against the input at the window's
/// offset plus that place, spaces included.
pub proof fn lemma_window_marks_meaning(flat: Seq<char>, off: int, input: Seq<char>, n: int)
    requires
        0 <= off,
        0 <= n,
    ensures
        window_marks_prefix(flat, off, input, n).len() == n,
        forall|j: int|
            0 <= j < n ==> {
                let m = #[trigger] window_marks_prefix(flat, off, input, n)[j];
                &&& m.ch == flat[j]
                &&& (m.mark == Mark::Correct <==> off + j < input.len() && input[off + j] == flat[j])
                &&& (m.mark == Mark::Wrong <==> off + j < input.len() && input[off + j] != flat[j])
                &&& (m.mark == Mark::Pending <==> off + j >= input.len())
            },
    decreases n,
{
    if n > 0 {
        lemma_window_marks_meaning(flat, off, input, n - 1);
        let prev = window_marks_prefix(flat, off, input, n - 1);
        let cur = window_marks_prefix(flat, off, input, n);
        assert forall|j: int| 0 <= j < n implies {
            let m = #[trigger] cur[j];
            &&& m.ch == flat[j]
            &&& (m.mark == Mark::Correct <==> off + j < input.len() && input[off + j] == flat[j])
            &&& (m.mark == Mark::Wrong <==> off + j < input.len() && input[off + j] != flat[j])
            &&& (m.mark == Mark::Pending <==> off + j >= input.len())
        } by {
            if j < n - 1 {
                assert(cur[j] == prev[j]);
            }
        }
    }
}

} // verus!
