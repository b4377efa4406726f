use vstd::prelude::*;
use crate::text::{chars_of, joined, word_views};

verus! {

/// The state of breaking words into lines, after the words `ws`: the word
/// counts of the finished lines, the number of words on the current line, and
/// the current line's length in characters. A word joins the current line,
/// after a space, while the line stays within `width`; otherwise it starts a
/// new line. A word longer than `width` stands on a line of its own.
pub open spec fn wrap_state(ws: Seq<Seq<char>>, width: int) -> (Seq<nat>, nat, int)
    decreases ws.len(),
{
    if ws.len() == 0 {
        (seq![], 0, 0)
    } else {
        let st = wrap_state(ws.drop_last(), width);
        let wl = ws.last().len() as int;
        if st.1 > 0 && st.2 + 1 + wl > width {
            (st.0.push(st.1), 1, wl)
        } else {
            (
                st.0,
                st.1 + 1,
                if st.1 == 0 {
                    wl
                } else {
                    st.2 + 1 + wl
                },
            )
        }
    }
}

/// The number of words on each line when `ws` is broken into lines of
/// `width` characters.
pub open spec fn wrap_counts(ws: Seq<Seq<char>>, width: int) -> Seq<nat> {
    let st = wrap_state(ws, width);
    if st.1 > 0 {
        st.0.push(st.1)
    } else {
        st.0
    }
}

/// The sum of a sequence of counts.
pub open spec fn count_sum(s: Seq<nat>) -> nat
    decreases s.len(),
{
    if s.len() == 0 {
        0
    } else {
        count_sum(s.drop_last()) + s.last()
    }
}

/// The width of lines: the larger of the two widths.
pub open spec fn line_width_of(max_width: u16, min_width: u16) -> int {
    if max_width >= min_width {
        max_width as int
    } else {
        min_width as int
    }
}

proof fn lemma_wrap_state_sum(ws: Seq<Seq<char>>, width: int)
    ensures
        count_sum(wrap_state(ws, width).0) + wrap_state(ws, width).1 == ws.len(),
        wrap_state(ws, width).1 <= ws.len(),
        wrap_state(ws, width).1 == 0 <==> ws.len() == 0,
    decreases ws.len(),
{
    if ws.len() > 0 {
        lemma_wrap_state_sum(ws.drop_last(), width);
        let st = wrap_state(ws.drop_last(), width);
        assert(st.0.push(st.1).drop_last() =~= st.0);
    }
}

proof fn lemma_count_sum_prefix(s: Seq<nat>, k: int)
    requires
        0 <= k <= s.len(),
    ensures
        count_sum(s.take(k)) <= count_sum(s),
        k < s.len() ==> count_sum(s.take(k + 1)) == count_sum(s.take(k)) + s[k],
    decreases s.len() - k,
{
    if k < s.len() {
        assert(s.take(k + 1).drop_last() =~= s.take(k));
        lemma_count_sum_prefix(s, k + 1);
    } else {
        assert(s.take(k) =~= s);
    }
}

/// Breaks the words into lines of at most the larger of `max_width` and
/// `min_width` characters, a space between words, and gives the number of
/// words on each line.
pub fn wrap_words(words: &[String], max_width: u16, min_width: u16) -> (counts: Vec<usize>)
    ensures
        counts@.len() == wrap_counts(word_views(words@), line_width_of(max_width, min_width)).len(),
        forall|k: int|
            0 <= k < counts@.len() ==> counts@[k] as nat == #[trigger] wrap_counts(
                word_views(words@),
                line_width_of(max_width, min_width),
            )[k],
{
    let ghost ws = word_views(words@);
    let ghost w = line_width_of(max_width, min_width);
    let width: usize = if max_width >= min_width {
        max_width as usize
    } else {
        min_width as usize
    };
    let mut done: Vec<usize> = Vec::new();
    let mut cnt: usize = 0;
    let mut len: usize = 0;
    let n = words.len();
    for i in 0..n
        invariant
            n == words@.len(),
            ws == word_views(words@),
            w == width as int,
            cnt <= i,
            ({
                let st = wrap_state(ws.take(i as int), w);
                &&& done@.len() == st.0.len()
                &&& forall|k: int| 0 <= k < done@.len() ==> done@[k] as nat == st.0[k]
                &&& cnt as nat == st.1
                &&& len as int == st.2
            }),
    {
        let wl = chars_of(words[i].as_str()).len();
        proof {
            assert(ws.take(i + 1).drop_last() =~= ws.take(i as int));
            assert(ws.take(i + 1).last() == words@[i as int]@);
        }
        if cnt > 0 && (len >= width || wl >= width - len) {
            done.push(cnt);
            cnt = 1;
            len = wl;
        } else {
            if cnt == 0 {
                len = wl;
            } else {
                len = len + 1 + wl;
            }
            cnt = cnt + 1;
        }
    }
    proof {
        assert(ws.take(n as int) =~= ws);
    }
    if cnt > 0 {
        done.push(cnt);
    }
    done
}

/// How many words fit in the first `max_lines` lines when the words are
/// broken into lines as `wrap_words` does.
pub fn take_words_for_lines(words: &[String], max_width: u16, min_width: u16, max_lines: usize) -> (n: usize)
    ensures
        ({
            let c = wrap_counts(word_views(words@), line_width_of(max_width, min_width));
            n == count_sum(c.take(if max_lines < c.len() { max_lines as int } else { c.len() as int }))
        }),
{
    let ghost ws = word_views(words@);
    let ghost c = wrap_counts(ws, line_width_of(max_width, min_width));
    let counts = wrap_words(words, max_width, min_width);
    proof {
        lemma_wrap_state_sum(ws, line_width_of(max_width, min_width));
        let st = wrap_state(ws, line_width_of(max_width, min_width));
        if st.1 > 0 {
            assert(st.0.push(st.1).drop_last() =~= st.0);
        }
        assert(count_sum(c) == ws.len());
        assert(counts@.len() == c.len());
    }
    let lines = if max_lines < counts.len() {
        max_lines
    } else {
        counts.len()
    };
    let mut total: usize = 0;
    for k in 0..lines
        invariant
            lines <= counts@.len() == c.len(),
            forall|j: int| 0 <= j < counts@.len() ==> counts@[j] as nat == #[trigger] c[j],
            count_sum(c) == words.len(),
            total as nat == count_sum(c.take(k as int)),
    {
        proof {
            lemma_count_sum_prefix(c, k as int);
            lemma_count_sum_prefix(c, k + 1);
            assert(counts@[k as int] as nat == c[k as int]);
        }
        total = total + counts[k];
    }
    total
}

/// Breaking words into lines keeps every word: the line counts add up to the
/// number of words, and no line is empty.
pub proof fn lemma_wrap_keeps_words(ws: Seq<Seq<char>>, width: int)
    ensures
        count_sum(wrap_counts(ws, width)) == ws.len(),
        forall|k: int| 0 <= k < wrap_counts(ws, width).len() ==> #[trigger] wrap_counts(ws, width)[k] > 0,
    decreases ws.len(),
{
    lemma_wrap_state_sum(ws, width);
    let st = wrap_state(ws, width);
    if st.1 > 0 {
        assert(st.0.push(st.1).drop_last() =~= st.0);
    }
    lemma_wrap_state_positive(ws, width);
}

proof fn lemma_wrap_state_positive(ws: Seq<Seq<char>>, width: int)
    ensures
        forall|k: int| 0 <= k < wrap_state(ws, width).0.len() ==> #[trigger] wrap_state(ws, width).0[k] > 0,
    decreases ws.len(),
{
    if ws.len() > 0 {
        lemma_wrap_state_positive(ws.drop_last(), width);
        let st = wrap_state(ws.drop_last(), width);
        let now = wrap_state(ws, width);
        assert forall|k: int| 0 <= k < now.0.len() implies #[trigger] now.0[k] > 0 by {
            if k < st.0.len() {
                assert(now.0[k] == st.0[k]);
            }
        }
    }
}

/// Line `k` of a breaking into lines of `c` words each, and the word after it
/// when `extra` is 1.
pub open spec fn line_words(ws: Seq<Seq<char>>, c: Seq<nat>, k: int, extra: int) -> Seq<Seq<char>> {
    ws.subrange(count_sum(c.take(k)) as int, count_sum(c.take(k)) + c[k] + extra)
}

proof fn lemma_joined_push(g: Seq<Seq<char>>, x: Seq<char>)
    ensures
        g.len() > 0 ==> joined(g.push(x)).len() == joined(g).len() + 1 + x.len(),
        g.len() == 0 ==> joined(g.push(x)) == x,
{
    assert(g.push(x).drop_last() =~= g);
    if g.len() == 0 {
        assert(g.push(x) =~= seq![x]);
    }
}

proof fn lemma_take_push(d: Seq<nat>, x: nat, k: int)
    requires
        0 <= k <= d.len(),
    ensures
        d.push(x).take(k) == d.take(k),
{
    assert(d.push(x).take(k) =~= d.take(k));
}

/// The invariant of breaking words into lines, after all of `ws`.
spec fn wrap_inv(ws: Seq<Seq<char>>, width: int) -> bool {
    let st = wrap_state(ws, width);
    let n = ws.len() as int;
    &&& count_sum(st.0) + st.1 == n
    &&& st.2 == joined(ws.subrange(n - st.1, n)).len()
    &&& (st.1 > 1 ==> st.2 <= width)
    &&& forall|k: int| 0 <= k < st.0.len() ==> {
        &&& #[trigger] st.0[k] > 0
        &&& count_sum(st.0.take(k)) + st.0[k] < n
        &&& (st.0[k] > 1 ==> joined(line_words(ws, st.0, k, 0)).len() <= width)
        &&& joined(line_words(ws, st.0, k, 1)).len() > width
    }
}

#[verifier::spinoff_prover]
#[verifier::rlimit(80)]
proof fn lemma_wrap_inv(ws: Seq<Seq<char>>, width: int)
    ensures
        wrap_inv(ws, width),
    decreases ws.len(),
{
    let n = ws.len() as int;
    let st = wrap_state(ws, width);
    if n == 0 {
        assert(ws.subrange(0, 0) =~= Seq::<Seq<char>>::empty());
    } else {
        let init = ws.drop_last();
        lemma_wrap_inv(init, width);
        let p = wrap_state(init, width);
        let m = n - 1;
        let x = ws[m];
        let wl = x.len() as int;
        assert(ws.subrange(m - p.1, m) =~= init.subrange(m - p.1, m));
        assert(ws.subrange(m - p.1, n) =~= ws.subrange(m - p.1, m).push(x));
        lemma_joined_push(ws.subrange(m - p.1, m), x);
        // lines finished before the last word read the same in `ws`
        assert forall|k: int| 0 <= k < p.0.len() implies {
            &&& line_words(ws, p.0, k, 0) == line_words(init, p.0, k, 0)
            &&& line_words(ws, p.0, k, 1) == line_words(init, p.0, k, 1)
        } by {
            let a = count_sum(p.0.take(k)) as int;
            assert(p.0[k] > 0);
            assert(line_words(ws, p.0, k, 0) =~= line_words(init, p.0, k, 0));
            assert(line_words(ws, p.0, k, 1) =~= line_words(init, p.0, k, 1));
        }
        if p.1 > 0 && p.2 + 1 + wl > width {
            let d = p.0.push(p.1);
            assert(st == (d, 1nat, wl));
            assert(p.0.push(p.1).drop_last() =~= p.0);
            assert(ws.subrange(n - 1, n) =~= seq![x]);
            assert(joined(seq![x]) == x);
            assert forall|k: int| 0 <= k < d.len() implies {
                &&& #[trigger] d[k] > 0
                &&& count_sum(d.take(k)) + d[k] < n
                &&& (d[k] > 1 ==> joined(line_words(ws, d, k, 0)).len() <= width)
                &&& joined(line_words(ws, d, k, 1)).len() > width
            } by {
                lemma_take_push(p.0, p.1, k);
                if k < p.0.len() {
                    assert(d[k] == p.0[k]);
                    assert(line_words(ws, d, k, 0) == line_words(ws, p.0, k, 0));
                    assert(line_words(ws, d, k, 1) == line_words(ws, p.0, k, 1));
                } else {
                    assert(d.take(k) == p.0.take(p.0.len() as int));
                    assert(p.0.take(p.0.len() as int) =~= p.0);
                    assert(d[k] == p.1);
                    assert(line_words(ws, d, k, 0) =~= ws.subrange(m - p.1, m));
                    assert(line_words(ws, d, k, 1) =~= ws.subrange(m - p.1, m).push(x));
                }
            }
        } else {
            assert(st == (p.0, p.1 + 1, if p.1 == 0 { wl } else { p.2 + 1 + wl }));
            if p.1 == 0 {
                assert(ws.subrange(m - p.1, m) =~= Seq::<Seq<char>>::empty());
            }
            assert forall|k: int| 0 <= k < p.0.len() implies {
                &&& #[trigger] p.0[k] > 0
                &&& count_sum(p.0.take(k)) + p.0[k] < n
                &&& (p.0[k] > 1 ==> joined(line_words(ws, p.0, k, 0)).len() <= width)
                &&& joined(line_words(ws, p.0, k, 1)).len() > width
            } by {
                assert(line_words(ws, p.0, k, 0) == line_words(init, p.0, k, 0));
                assert(line_words(ws, p.0, k, 1) == line_words(init, p.0, k, 1));
            }
        }
    }
}

/// Broken into lines, no line of two or more words is wider than the line
/// width: its words joined by single spaces take at most `width` characters.
/// Each line but the last is full: its words and the next word, joined by
/// single spaces, would take more than `width` characters. No line is empty,
/// and the lines take the words in order, each once.
pub proof fn lemma_wrap_lines_fit(ws: Seq<Seq<char>>, width: int)
    ensures
        ({
            let c = wrap_counts(ws, width);
            &&& count_sum(c) == ws.len()
            &&& forall|k: int| 0 <= k < c.len() ==> {
                let a = count_sum(c.take(k)) as int;
                &&& #[trigger] c[k] > 0
                &&& (c[k] > 1 ==> joined(ws.subrange(a, a + c[k])).len() <= width)
                &&& (k + 1 < c.len() ==> joined(ws.subrange(a, a + c[k] + 1)).len() > width)
            }
        }),
{
    lemma_wrap_inv(ws, width);
    lemma_wrap_keeps_words(ws, width);
    let st = wrap_state(ws, width);
    let c = wrap_counts(ws, width);
    let n = ws.len() as int;
    if st.1 > 0 {
        assert(c == st.0.push(st.1));
        assert forall|k: int| 0 <= k < c.len() implies {
            let a = count_sum(c.take(k)) as int;
            &&& #[trigger] c[k] > 0
            &&& (c[k] > 1 ==> joined(ws.subrange(a, a + c[k])).len() <= width)
            &&& (k + 1 < c.len() ==> joined(ws.subrange(a, a + c[k] + 1)).len() > width)
        } by {
            lemma_take_push(st.0, st.1, k);
            if k < st.0.len() {
                assert(c[k] == st.0[k]);
                assert(line_words(ws, st.0, k, 0) == ws.subrange(count_sum(c.take(k)) as int, count_sum(c.take(k)) + c[k] + 0int));
                assert(line_words(ws, st.0, k, 1) == ws.subrange(count_sum(c.take(k)) as int, count_sum(c.take(k)) + c[k] + 1int));
            } else {
                assert(st.0.take(st.0.len() as int) =~= st.0);
                assert(c[k] == st.1);
                assert(count_sum(c.take(k)) == n - st.1);
            }
        }
    } else {
        assert forall|k: int| 0 <= k < c.len() implies {
            let a = count_sum(c.take(k)) as int;
            &&& #[trigger] c[k] > 0
            &&& (c[k] > 1 ==> joined(ws.subrange(a, a + c[k])).len() <= width)
            &&& (k + 1 < c.len() ==> joined(ws.subrange(a, a + c[k] + 1)).len() > width)
        } by {
            assert(line_words(ws, st.0, k, 0) == ws.subrange(count_sum(c.take(k)) as int, count_sum(c.take(k)) + c[k] + 0int));
            assert(line_words(ws, st.0, k, 1) == ws.subrange(count_sum(c.take(k)) as int, count_sum(c.take(k)) + c[k] + 1int));
        }
    }
}

} // verus!
