use vstd::prelude::*;
use crate::session::Key;
use crate::layout::{
    count_sum, lemma_wrap_keeps_words, line_width_of, wrap_counts, wrap_words,
};
use crate::text::{
    chars_of, char_start, flatten_words, joined, lemma_char_start_monotone, lemma_joined_positions,
    word_views,
};
use crate::window::{mark_at, marked, MarkedChar, Mark, min_int};

verus! {

/// How many of the first `n` places hold the same character in `a` and `b`.
pub open spec fn count_matches(a: Seq<char>, b: Seq<char>, n: int) -> nat
    decreases n,
{
    if n <= 0 {
        0
    } else {
        count_matches(a, b, n - 1) + if a[n - 1] == b[n - 1] {
            1nat
        } else {
            0nat
        }
    }
}

proof fn lemma_count_matches_bound(a: Seq<char>, b: Seq<char>, n: int)
    requires
        0 <= n,
    ensures
        count_matches(a, b, n) <= n,
    decreases n,
{
    if n > 0 {
        lemma_count_matches_bound(a, b, n - 1);
    }
}

/// Compares the input with the text place by place, as far as both go: how
/// many places were typed correctly, and how many hold a mistake that was not
/// corrected.
pub fn final_counts(input: &[char], flat: &[char]) -> (res: (usize, usize))
    ensures
        res.0 == count_matches(input@, flat@, min_int(input@.len() as int, flat@.len() as int)),
        res.0 + res.1 == min_int(input@.len() as int, flat@.len() as int),
{
    let n = if input.len() < flat.len() {
        input.len()
    } else {
        flat.len()
    };
    let mut correct: usize = 0;
    let mut wrong: usize = 0;
    for i in 0..n
        invariant
            n <= input@.len(),
            n <= flat@.len(),
            correct == count_matches(input@, flat@, i as int),
            correct + wrong == i,
    {
        if input[i] == flat[i] {
            correct = correct + 1;
        } else {
            wrong = wrong + 1;
        }
    }
    (correct, wrong)
}

/// The marks of the characters of `w`, the first of them at position `g` of
/// the input.
pub open spec fn word_marks(w: Seq<char>, g: int, input: Seq<char>) -> Seq<MarkedChar>
    decreases w.len(),
{
    if w.len() == 0 {
        seq![]
    } else {
        word_marks(w.drop_last(), g, input).push(
            marked(w.last(), mark_at(input, g + w.len() - 1, w.last())),
        )
    }
}

/// Where the count of characters stands after a line of words, starting
/// from `idx`: each word counts its characters, and the space after it
/// counts while the count is below `flat_len`.
pub open spec fn line_end(ws: Seq<Seq<char>>, idx: int, flat_len: int) -> int
    decreases ws.len(),
{
    if ws.len() == 0 {
        idx
    } else {
        let e = line_end(ws.drop_last(), idx, flat_len) + ws.last().len();
        if e < flat_len {
            e + 1
        } else {
            e
        }
    }
}

/// The marks of a line of the results page: each word's characters, then a
/// space where the text goes on, each placed in the input at `off` plus its
/// count from `idx`.
pub open spec fn line_marks(
    ws: Seq<Seq<char>>,
    off: int,
    idx: int,
    flat_len: int,
    input: Seq<char>,
) -> Seq<MarkedChar>
    decreases ws.len(),
{
    if ws.len() == 0 {
        seq![]
    } else {
        let init = ws.drop_last();
        let start = line_end(init, idx, flat_len);
        let e = start + ws.last().len();
        line_marks(init, off, idx, flat_len, input) + word_marks(ws.last(), off + start, input) + (
        if e < flat_len {
            seq![marked(' ', mark_at(input, off + e, ' '))]
        } else {
            seq![]
        })
    }
}

/// The characters of a line of words with their spaces, counted one more
/// each.
pub open spec fn line_width(ws: Seq<Seq<char>>) -> int
    decreases ws.len(),
{
    if ws.len() == 0 {
        0
    } else {
        line_width(ws.drop_last()) + ws.last().len() + 1
    }
}

proof fn lemma_line_end_bound(ws: Seq<Seq<char>>, idx: int, flat_len: int)
    ensures
        idx <= line_end(ws, idx, flat_len) <= idx + line_width(ws),
    decreases ws.len(),
{
    if ws.len() > 0 {
        lemma_line_end_bound(ws.drop_last(), idx, flat_len);
    }
}

proof fn lemma_line_width_prefix(ws: Seq<Seq<char>>, i: int)
    requires
        0 <= i <= ws.len(),
    ensures
        line_width(ws.take(i)) <= line_width(ws),
        i < ws.len() ==> line_width(ws.take(i + 1)) == line_width(ws.take(i)) + ws[i].len() + 1,
    decreases ws.len() - i,
{
    if i < ws.len() {
        assert(ws.take(i + 1).drop_last() =~= ws.take(i));
        lemma_line_width_prefix(ws, i + 1);
    } else {
        assert(ws.take(i) =~= ws);
    }
}

/// One line of the results page: every character of the line's words, and a
/// space after each word while the text goes on, marked against the input.
/// Characters are counted from `idx`; the count is placed in the input at
/// `off`. Gives back the marks and the count after the line.
pub fn heatmap_line(
    line: &[String],
    off: usize,
    idx: usize,
    flat_len: usize,
    input: &[char],
) -> (res: (Vec<MarkedChar>, usize))
    requires
        off + idx + line_width(word_views(line@)) <= usize::MAX,
    ensures
        res.0@ == line_marks(word_views(line@), off as int, idx as int, flat_len as int, input@),
        res.1 == line_end(word_views(line@), idx as int, flat_len as int),
{
    let ghost ws = word_views(line@);
    let mut marks: Vec<MarkedChar> = Vec::new();
    let mut count: usize = idx;
    let n = line.len();
    for i in 0..n
        invariant
            n == line@.len(),
            ws == word_views(line@),
            off + idx + line_width(ws) <= usize::MAX,
            count == line_end(ws.take(i as int), idx as int, flat_len as int),
            marks@ == line_marks(ws.take(i as int), off as int, idx as int, flat_len as int, input@),
    {
        proof {
            assert(ws.take(i + 1).drop_last() =~= ws.take(i as int));
            lemma_line_width_prefix(ws, i as int);
            lemma_line_width_prefix(ws, i + 1);
            lemma_line_end_bound(ws.take(i as int), idx as int, flat_len as int);
        }
        let cs = chars_of(line[i].as_str());
        assert(cs@ == ws[i as int]);
        assert(count + cs@.len() + off <= usize::MAX);
        let ghost start = count;
        let ghost before = marks@;
        let m = cs.len();
        for j in 0..m
            invariant
                m == cs@.len(),
                count == start + j,
                start + m + off <= usize::MAX,
                marks@ == before + word_marks(cs@.take(j as int), off + start, input@),
        {
            let c = cs[j];
            let g = off + count;
            let mk = if g < input.len() {
                if input[g] == c {
                    Mark::Correct
                } else {
                    Mark::Wrong
                }
            } else {
                Mark::Pending
            };
            marks.push(MarkedChar { ch: c, mark: mk });
            count = count + 1;
            proof {
                assert(cs@.take(j + 1).drop_last() =~= cs@.take(j as int));
                assert(marks@ =~= before + word_marks(cs@.take(j + 1), off + start, input@));
            }
        }
        proof {
            assert(cs@.take(m as int) =~= cs@);
        }
        let ghost mid = marks@;
        if count < flat_len {
            let g = off + count;
            let mk = if g < input.len() {
                if input[g] == ' ' {
                    Mark::Correct
                } else {
                    Mark::Wrong
                }
            } else {
                Mark::Pending
            };
            marks.push(MarkedChar { ch: ' ', mark: mk });
            count = count + 1;
            assert(marks@ =~= mid + seq![marked(' ', mark_at(input@, off + count - 1, ' '))]);
        } else {
            assert(marks@ =~= mid + Seq::<MarkedChar>::empty());
        }
        proof {
            assert(ws.take(i + 1).last() == ws[i as int]);
        }
    }
    proof {
        assert(ws.take(n as int) =~= ws);
    }
    (marks, count)
}

/// The answer on the results page: restart on ctrl-r, quit on ctrl-c or when
/// no more keys come (`None`), and keep waiting on any other key.
pub fn results_key_decision(key: Option<Key>) -> (res: Option<bool>)
    ensures
        res == match key {
            Some(Key::Ctrl('r')) => Some(true),
            Some(Key::Ctrl('c')) => Some(false),
            Some(_) => None,
            None => Some(false),
        },
{
    match key {
        Some(Key::Ctrl('r')) => Some(true),
        Some(Key::Ctrl('c')) => Some(false),
        Some(_) => None,
        None => Some(false),
    }
}

/// The places typed correctly in a finished test are never more than the
/// places that both the input and the text reach.
pub proof fn lemma_correct_within_compared(input: Seq<char>, flat: Seq<char>)
    ensures
        count_matches(input, flat, min_int(input.len() as int, flat.len() as int)) <= min_int(
            input.len() as int,
            flat.len() as int,
        ),
{
    lemma_count_matches_bound(input, flat, min_int(input.len() as int, flat.len() as int));
}

/// The marks of the characters of `flat` from position `from` up to `to` (not
/// included), each placed in the input at `off` plus its position.
pub open spec fn marks_range(
    flat: Seq<char>,
    off: int,
    input: Seq<char>,
    from: int,
    to: int,
) -> Seq<MarkedChar>
    decreases to - from,
{
    if to <= from {
        seq![]
    } else {
        marks_range(flat, off, input, from, to - 1).push(
            marked(flat[to - 1], mark_at(input, off + to - 1, flat[to - 1])),
        )
    }
}

proof fn lemma_marks_range_concat(
    flat: Seq<char>,
    off: int,
    input: Seq<char>,
    a: int,
    b: int,
    c: int,
)
    requires
        a <= b <= c,
    ensures
        marks_range(flat, off, input, a, b) + marks_range(flat, off, input, b, c) == marks_range(
            flat,
            off,
            input,
            a,
            c,
        ),
    decreases c - b,
{
    if b < c {
        lemma_marks_range_concat(flat, off, input, a, b, c - 1);
        assert(marks_range(flat, off, input, a, b) + marks_range(flat, off, input, b, c)
            =~= (marks_range(flat, off, input, a, b) + marks_range(flat, off, input, b, c - 1)).push(
            marked(flat[c - 1], mark_at(input, off + c - 1, flat[c - 1])),
        ));
    } else {
        assert(marks_range(flat, off, input, a, b) + marks_range(flat, off, input, b, c)
            =~= marks_range(flat, off, input, a, b));
    }
}

proof fn lemma_word_marks_range(w: Seq<char>, flat: Seq<char>, off: int, s: int, input: Seq<char>)
    requires
        forall|k: int| 0 <= k < w.len() ==> flat[s + k] == w[k],
    ensures
        word_marks(w, off + s, input) == marks_range(flat, off, input, s, s + w.len()),
    decreases w.len(),
{
    if w.len() > 0 {
        let w2 = w.drop_last();
        assert forall|k: int| 0 <= k < w2.len() implies flat[s + k] == w2[k] by {
            assert(flat[s + k] == w[k]);
        }
        lemma_word_marks_range(w2, flat, off, s, input);
        assert(flat[s + w.len() - 1] == w[w.len() - 1]);
    }
}

proof fn lemma_line_width_range(ws: Seq<Seq<char>>, a: int, b: int)
    requires
        0 <= a <= b <= ws.len(),
    ensures
        line_width(ws.subrange(a, b)) == char_start(ws, b) - char_start(ws, a),
    decreases b - a,
{
    if a < b {
        lemma_line_width_range(ws, a, b - 1);
        assert(ws.subrange(a, b).drop_last() =~= ws.subrange(a, b - 1));
    } else {
        assert(ws.subrange(a, b) =~= Seq::<Seq<char>>::empty());
    }
}

/// A group of consecutive words `a` to `b` of the text, laid out as a line of
/// the results page from the character start of word `a`, marks exactly the
/// characters of the joined text from that start to the start of word `b` (or
/// the end of the text).
pub proof fn lemma_line_marks_group(ws: Seq<Seq<char>>, a: int, b: int, off: int, input: Seq<char>)
    requires
        0 <= a <= b <= ws.len(),
    ensures
        ({
            let fl = joined(ws).len() as int;
            let g = ws.subrange(a, b);
            &&& line_marks(g, off, char_start(ws, a), fl, input) == marks_range(
                joined(ws),
                off,
                input,
                char_start(ws, a),
                min_int(char_start(ws, b), fl),
            )
            &&& line_end(g, char_start(ws, a), fl) == (if a < b {
                min_int(char_start(ws, b), fl)
            } else {
                char_start(ws, a)
            })
        }),
    decreases b - a,
{
    let n = ws.len() as int;
    let flat = joined(ws);
    let fl = flat.len() as int;
    let g = ws.subrange(a, b);
    lemma_joined_positions(ws);
    if a == b {
        assert(g =~= Seq::<Seq<char>>::empty());
        lemma_char_start_monotone(ws, a, b);
    } else {
        lemma_line_marks_group(ws, a, b - 1, off, input);
        let g2 = ws.subrange(a, b - 1);
        assert(g.drop_last() =~= g2);
        assert(g.last() == ws[b - 1]);
        let w = ws[b - 1];
        lemma_char_start_monotone(ws, b, n);
        lemma_char_start_monotone(ws, a, b - 1);
        assert(char_start(ws, b) == char_start(ws, b - 1) + w.len() + 1);
        let start = char_start(ws, b - 1);
        assert(line_end(g2, char_start(ws, a), fl) == start);
        assert(line_marks(g2, off, char_start(ws, a), fl, input) == marks_range(
            flat,
            off,
            input,
            char_start(ws, a),
            start,
        ));
        lemma_word_marks_range(w, flat, off, start, input);
        let e = start + w.len();
        lemma_marks_range_concat(flat, off, input, char_start(ws, a), start, e);
        if b < n {
            assert(flat[char_start(ws, b) - 1] == ' ');
            lemma_char_start_monotone(ws, b + 1, n);
            assert(char_start(ws, b + 1) == char_start(ws, b) + ws[b].len() + 1);
            assert(e < fl);
            assert(flat[e] == ' ');
            assert(marks_range(flat, off, input, e, e) =~= Seq::<MarkedChar>::empty());
            lemma_marks_range_concat(flat, off, input, char_start(ws, a), e, e + 1);
            assert(marks_range(flat, off, input, e, e + 1) =~= seq![
                marked(' ', mark_at(input, off + e, ' ')),
            ]);
        } else {
            assert(e == fl);
        }
        assert(line_marks(g, off, char_start(ws, a), fl, input) =~= marks_range(
            flat,
            off,
            input,
            char_start(ws, a),
            min_int(char_start(ws, b), fl),
        ));
    }
}

/// Where line `k` of the results page starts in the shown text, when the words
/// are broken into lines of `c` words each.
pub open spec fn heat_from(ws: Seq<Seq<char>>, c: Seq<nat>, k: int) -> int {
    char_start(ws, count_sum(c.take(k)) as int)
}

/// Where line `k` of the results page ends in the shown text.
pub open spec fn heat_to(ws: Seq<Seq<char>>, c: Seq<nat>, k: int) -> int {
    min_int(char_start(ws, count_sum(c.take(k + 1)) as int), joined(ws).len() as int)
}

proof fn lemma_count_sum_prefix(s: Seq<nat>, k: int)
    requires
        0 <= k <= s.len(),
    ensures
        count_sum(s.take(k)) <= count_sum(s),
        k < s.len() ==> count_sum(s.take(k + 1)) == count_sum(s.take(k)) + s[k],
    decreases s.len() - k,
{
    if k < s.len() {
        assert(s.take(k + 1).drop_last() =~= s.take(k));
        lemma_count_sum_prefix(s, k + 1);
    } else {
        assert(s.take(k) =~= s);
    }
}

/// The lines of the results page: the words are broken into lines as
/// `wrap_words` does, and each line holds the marks of its part of the words
/// joined by single spaces: each character `j` of that text is marked against
/// the input at `off + j`. Line `k` covers the text from `heat_from` to
/// `heat_to`.
pub fn heatmap(
    words: &[String],
    max_width: u16,
    min_width: u16,
    off: usize,
    input: &[char],
) -> (lines: Vec<Vec<MarkedChar>>)
    requires
        off + char_start(word_views(words@), words@.len() as int) <= usize::MAX,
    ensures
        ({
            let ws = word_views(words@);
            let c = wrap_counts(ws, line_width_of(max_width, min_width));
            &&& lines@.len() == c.len()
            &&& forall|k: int|
                0 <= k < lines@.len() ==> #[trigger] lines@[k]@ == marks_range(
                    joined(ws),
                    off as int,
                    input@,
                    heat_from(ws, c, k),
                    heat_to(ws, c, k),
                )
        }),
{
    let ghost ws = word_views(words@);
    let ghost c = wrap_counts(ws, line_width_of(max_width, min_width));
    let ghost nw = words.len() as int;
    let counts = wrap_words(words, max_width, min_width);
    let flat_len = flatten_words(words).len();
    proof {
        lemma_wrap_keeps_words(ws, line_width_of(max_width, min_width));
        lemma_joined_positions(ws);
        lemma_char_start_monotone(ws, 0, nw);
    }
    let mut lines: Vec<Vec<MarkedChar>> = Vec::new();
    let mut at: usize = 0;
    let mut idx: usize = 0;
    let nl = counts.len();
    for k in 0..nl
        invariant
            nl == counts@.len() == c.len(),
            forall|j: int| 0 <= j < counts@.len() ==> counts@[j] as nat == #[trigger] c[j],
            forall|j: int| 0 <= j < c.len() ==> #[trigger] c[j] > 0,
            count_sum(c) == nw,
            nw == words.len(),
            ws == word_views(words@),
            flat_len == joined(ws).len(),
            nw > 0 ==> flat_len + 1 == char_start(ws, nw),
            off + char_start(ws, nw) <= usize::MAX,
            at == count_sum(c.take(k as int)),
            at < nw ==> idx == char_start(ws, at as int),
            lines@.len() == k,
            forall|j: int|
                0 <= j < k ==> #[trigger] lines@[j]@ == marks_range(
                    joined(ws),
                    off as int,
                    input@,
                    heat_from(ws, c, j),
                    heat_to(ws, c, j),
                ),
    {
        proof {
            lemma_count_sum_prefix(c, k as int);
            lemma_count_sum_prefix(c, k + 1);
        }
        let cnt = counts[k];
        assert(at + cnt <= nw);
        assert(at < nw);
        let mut line: Vec<String> = Vec::new();
        for j in 0..cnt
            invariant
                at + cnt <= nw,
                nw == words.len(),
                ws == word_views(words@),
                line@.len() == j,
                forall|q: int| 0 <= q < j ==> #[trigger] line@[q]@ == ws[at + q],
        {
            line.push(words[at + j].clone());
        }
        proof {
            assert(word_views(line@) =~= ws.subrange(at as int, at + cnt));
            lemma_line_marks_group(ws, at as int, at + cnt, off as int, input@);
            lemma_line_width_range(ws, at as int, at + cnt);
            lemma_char_start_monotone(ws, at + cnt, nw);
        }
        let (marks, next) = heatmap_line(&line, off, idx, flat_len, input);
        proof {
            assert(next == min_int(char_start(ws, at + cnt), flat_len as int));
            if at + cnt < nw {
                lemma_char_start_monotone(ws, at + cnt + 1, nw);
                assert(char_start(ws, at + cnt + 1) == char_start(ws, at + cnt) + ws[at + cnt].len()
                    + 1);
                assert(next == char_start(ws, at + cnt));
            }
        }
        let ghost prev = lines@;
        lines.push(marks);
        proof {
            assert(lines@[k as int]@ == marks_range(
                joined(ws),
                off as int,
                input@,
                heat_from(ws, c, k as int),
                heat_to(ws, c, k as int),
            ));
            assert forall|j: int| 0 <= j < k implies #[trigger] lines@[j]@ == marks_range(
                joined(ws),
                off as int,
                input@,
                heat_from(ws, c, j),
                heat_to(ws, c, j),
            ) by {
                assert(lines@[j] == prev[j]);
            }
        }
        at = at + cnt;
        idx = next;
    }
    lines
}

/// The lines of the results page cover the shown text once, in order: the
/// first starts at its beginning, each starts where the one before ends, and
/// the last ends at its end.
pub proof fn lemma_heatmap_covers_text(ws: Seq<Seq<char>>, width: int)
    ensures
        ({
            let c = wrap_counts(ws, width);
            let fl = joined(ws).len() as int;
            &&& c.len() > 0 ==> heat_from(ws, c, 0) == 0
            &&& forall|k: int| 0 <= k < c.len() - 1 ==> #[trigger] heat_to(ws, c, k) == heat_from(ws, c, k + 1)
            &&& c.len() > 0 ==> heat_to(ws, c, c.len() - 1) == fl
            &&& c.len() == 0 ==> fl == 0
        }),
{
    let c = wrap_counts(ws, width);
    let n = ws.len() as int;
    lemma_wrap_keeps_words(ws, width);
    lemma_joined_positions(ws);
    assert(c.take(0) =~= Seq::<nat>::empty());
    assert forall|k: int| 0 <= k < c.len() - 1 implies #[trigger] heat_to(ws, c, k) == heat_from(ws, c, k + 1) by {
        lemma_count_sum_prefix(c, k + 1);
        lemma_count_sum_prefix(c, k + 2);
        let b = count_sum(c.take(k + 1)) as int;
        assert(b < n);
        lemma_char_start_monotone(ws, b + 1, n);
        assert(char_start(ws, b + 1) == char_start(ws, b) + ws[b].len() + 1);
    }
    if c.len() > 0 {
        assert(c.take(c.len() as int) =~= c);
    } else {
        if n > 0 {
            assert(count_sum(c) == 0);
        }
    }
}

/// Each character of the results page is the shown text's character at its
/// place `j`, marked against the input at `off + j`: correct exactly when the
/// input there holds the same character, wrong when it holds another, and not
/// yet typed when the input does not reach it. Spaces are marked like any
/// character.
pub proof fn lemma_marks_range_meaning(flat: Seq<char>, off: int, input: Seq<char>, from: int, to: int)
    requires
        0 <= off,
        0 <= from <= to,
    ensures
        marks_range(flat, off, input, from, to).len() == to - from,
        forall|j: int|
            from <= j < to ==> {
                let m = #[trigger] marks_range(flat, off, input, from, to)[j - from];
                &&& m.ch == flat[j]
                &&& (m.mark == Mark::Correct <==> off + j < input.len() && input[off + j] == flat[j])
                &&& (m.mark == Mark::Wrong <==> off + j < input.len() && input[off + j] != flat[j])
                &&& (m.mark == Mark::Pending <==> off + j >= input.len())
            },
    decreases to - from,
{
    if from < to {
        lemma_marks_range_meaning(flat, off, input, from, to - 1);
        let prev = marks_range(flat, off, input, from, to - 1);
        let cur = marks_range(flat, off, input, from, to);
        assert forall|j: int| from <= j < to implies {
            let m = #[trigger] cur[j - from];
            &&& m.ch == flat[j]
            &&& (m.mark == Mark::Correct <==> off + j < input.len() && input[off + j] == flat[j])
            &&& (m.mark == Mark::Wrong <==> off + j < input.len() && input[off + j] != flat[j])
            &&& (m.mark == Mark::Pending <==> off + j >= input.len())
        } by {
            if j < to - 1 {
                assert(cur[j - from] == prev[j - from]);
            }
        }
    }
}

/// The correct count of a finished test is the number of places, among those
/// that both the input and the text reach, where the input holds the text's
/// character, spaces included; the uncorrected mistakes are the other places.
pub proof fn lemma_count_matches_counts_places(a: Seq<char>, b: Seq<char>, n: int)
    requires
        0 <= n,
    ensures
        Set::new(|i: int| 0 <= i < n && a[i] == b[i]).finite(),
        count_matches(a, b, n) == Set::new(|i: int| 0 <= i < n && a[i] == b[i]).len(),
    decreases n,
{
    let s = Set::new(|i: int| 0 <= i < n && a[i] == b[i]);
    if n == 0 {
        assert(s =~= Set::<int>::empty());
    } else {
        lemma_count_matches_counts_places(a, b, n - 1);
        let p = Set::new(|i: int| 0 <= i < n - 1 && a[i] == b[i]);
        if a[n - 1] == b[n - 1] {
            assert(s =~= p.insert(n - 1));
            assert(!p.contains(n - 1));
        } else {
            assert(s =~= p);
        }
    }
}

/// A text typed without a mistake counts every place as correct.
pub proof fn lemma_count_matches_same_text(a: Seq<char>, b: Seq<char>, n: int)
    requires
        0 <= n,
        forall|i: int| 0 <= i < n ==> a[i] == b[i],
    ensures
        count_matches(a, b, n) == n,
    decreases n,
{
    if n > 0 {
        lemma_count_matches_same_text(a, b, n - 1);
    }
}

} // verus!
