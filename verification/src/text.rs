use vstd::prelude::*;
use vstd::utf8::{encode_utf8, is_ascii_chars, is_ascii_chars_encode_utf8};

verus! {

/// The characters of each word, in order.
pub open spec fn word_views(words: Seq<String>) -> Seq<Seq<char>> {
    words.map_values(|w: String| w@)
}

/// The number of bytes that a word takes in UTF-8.
pub open spec fn byte_len(w: Seq<char>) -> nat {
    encode_utf8(w).len()
}

/// Where word `i` starts when the words are laid out with one separator after
/// each word, every word counted by its length in bytes.
pub open spec fn word_start(ws: Seq<Seq<char>>, i: int) -> int
    decreases i,
{
    if i <= 0 {
        0
    } else {
        word_start(ws, i - 1) + byte_len(ws[i - 1]) + 1
    }
}

/// The words joined by single spaces.
pub open spec fn joined(ws: Seq<Seq<char>>) -> Seq<char>
    decreases ws.len(),
{
    if ws.len() == 0 {
        seq![]
    } else if ws.len() == 1 {
        ws[0]
    } else {
        joined(ws.drop_last()) + seq![' '] + ws.last()
    }
}

proof fn lemma_word_start_monotone(ws: Seq<Seq<char>>, i: int, j: int)
    requires
        i <= j,
    ensures
        word_start(ws, i) <= word_start(ws, j),
    decreases j - i,
{
    if i < j {
        lemma_word_start_monotone(ws, i, j - 1);
    }
}

/// The characters of `s`, in order.
pub fn chars_of(s: &str) -> (v: Vec<char>)
    ensures
        v@ == s@,
{
    let mut v: Vec<char> = Vec::new();
    for c in it: s.chars()
        invariant
            v@ == it.seq().take(it.index() as int),
    {
        v.push(c);
    }
    v
}

/// Appends `c` to `s`: std's `String::push`, which adds one character at the
/// end of the string.
#[verifier::external_body]
fn push_char(s: &mut String, c: char)
    ensures
        final(s)@ == old(s)@.push(c),
{
    s.push(c);
}

/// A string of the given characters.
pub fn string_from_chars(cs: &[char]) -> (s: String)
    ensures
        s@ == cs@,
{
    let mut s = String::new();
    let n = cs.len();
    for i in 0..n
        invariant
            n == cs@.len(),
            s@ == cs@.take(i as int),
    {
        push_char(&mut s, cs[i]);
        assert(cs@.take(i + 1) =~= cs@.take(i as int).push(cs@[i as int]));
    }
    assert(cs@.take(n as int) =~= cs@);
    s
}

/// The start of every word in the text where the words are joined by single
/// spaces, and at the end the length of that text plus one. Words are
/// measured in bytes.
pub fn word_offsets(words: &[String]) -> (offs: Vec<usize>)
    requires
        word_start(word_views(words@), words@.len() as int) <= usize::MAX,
    ensures
        offs@.len() == words@.len() + 1,
        forall|i: int| 0 <= i <= words@.len() ==> offs@[i] == word_start(word_views(words@), i),
{
    let ghost ws = word_views(words@);
    let mut offs: Vec<usize> = Vec::new();
    let mut acc: usize = 0;
    offs.push(0);
    let n = words.len();
    for i in 0..n
        invariant
            n == words@.len(),
            ws == word_views(words@),
            word_start(ws, n as int) <= usize::MAX,
            offs@.len() == i + 1,
            acc == word_start(ws, i as int),
            forall|k: int| 0 <= k <= i ==> offs@[k] == word_start(ws, k),
    {
        let w = words[i].as_str();
        proof {
            lemma_word_start_monotone(ws, i + 1, n as int);
            assert(ws[i as int] == words@[i as int]@);
        }
        acc = acc + w.len() + 1;
        offs.push(acc);
    }
    offs
}

/// Whether the offsets of the words, as `word_offsets` gives them, fit in a
/// `usize`.
pub fn offsets_fit(words: &[String]) -> (fits: bool)
    ensures
        fits == (word_start(word_views(words@), words@.len() as int) <= usize::MAX),
{
    let ghost ws = word_views(words@);
    let mut acc: usize = 0;
    let n = words.len();
    for i in 0..n
        invariant
            n == words@.len(),
            ws == word_views(words@),
            acc == word_start(ws, i as int),
    {
        let bytes = words[i].as_str().as_bytes();
        assert(ws[i as int] == words@[i as int]@);
        let next = match acc.checked_add(bytes.len()) {
            Some(a) => a.checked_add(1),
            None => None,
        };
        match next {
            Some(a) => {
                acc = a;
            },
            None => {
                proof {
                    lemma_word_start_monotone(ws, i + 1, n as int);
                }
                return false;
            },
        }
    }
    true
}

/// The characters of the words `from` to `to` (not included) joined by single
/// spaces.
pub fn flatten_word_range(words: &[String], from: usize, to: usize) -> (flat: Vec<char>)
    requires
        from <= to <= words@.len(),
    ensures
        flat@ == joined(word_views(words@).subrange(from as int, to as int)),
{
    let ghost ws = word_views(words@).subrange(from as int, to as int);
    let mut flat: Vec<char> = Vec::new();
    let n = to - from;
    for i in 0..n
        invariant
            n == to - from,
            from <= to <= words@.len(),
            ws == word_views(words@).subrange(from as int, to as int),
            flat@ == joined(ws.take(i as int)),
    {
        let cs = chars_of(words[from + i].as_str());
        proof {
            assert(ws.take(i + 1).drop_last() =~= ws.take(i as int));
            assert(ws.take(i + 1).last() == words@[from + i]@);
        }
        if i > 0 {
            flat.push(' ');
        }
        let ghost before = flat@;
        let m = cs.len();
        for j in 0..m
            invariant
                m == cs@.len(),
                flat@ == before + cs@.take(j as int),
        {
            flat.push(cs[j]);
            proof {
                assert(cs@.take(j + 1) =~= cs@.take(j as int).push(cs@[j as int]));
            }
        }
        proof {
            assert(cs@.take(m as int) =~= cs@);
            if i == 0 {
                assert(before =~= seq![]);
            }
            assert(joined(ws.take(i + 1)) =~= flat@);
        }
    }
    proof {
        assert(ws.take(n as int) =~= ws);
    }
    flat
}

/// The characters of the words joined by single spaces.
pub fn flatten_words(words: &[String]) -> (flat: Vec<char>)
    ensures
        flat@ == joined(word_views(words@)),
{
    let flat = flatten_word_range(words, 0, words.len());
    assert(word_views(words@).subrange(0, words@.len() as int) =~= word_views(words@));
    flat
}

/// Where word `i` starts in the words joined by single spaces, counted in
/// characters.
pub open spec fn char_start(ws: Seq<Seq<char>>, i: int) -> int
    decreases i,
{
    if i <= 0 {
        0
    } else {
        char_start(ws, i - 1) + ws[i - 1].len() + 1
    }
}

pub proof fn lemma_char_start_monotone(ws: Seq<Seq<char>>, i: int, j: int)
    requires
        i <= j,
    ensures
        char_start(ws, i) <= char_start(ws, j),
    decreases j - i,
{
    if i < j {
        lemma_char_start_monotone(ws, i, j - 1);
    }
}

proof fn lemma_char_start_prefix(ws: Seq<Seq<char>>, init: Seq<Seq<char>>, i: int)
    requires
        0 <= i <= init.len(),
        init.len() <= ws.len(),
        forall|k: int| 0 <= k < init.len() ==> init[k] == ws[k],
    ensures
        char_start(init, i) == char_start(ws, i),
    decreases i,
{
    if i > 0 {
        lemma_char_start_prefix(ws, init, i - 1);
    }
}

/// In the words joined by single spaces, word `i` stands at its character
/// start, a space precedes each word after the first, and the start after the
/// last word is one past the end of the text.
pub proof fn lemma_joined_positions(ws: Seq<Seq<char>>)
    ensures
        ws.len() > 0 ==> joined(ws).len() + 1 == char_start(ws, ws.len() as int),
        forall|i: int, k: int|
            0 <= i < ws.len() && 0 <= k < ws[i].len() ==> joined(ws)[char_start(ws, i) + k]
                == #[trigger] ws[i][k],
        forall|i: int|
            0 < i < ws.len() ==> joined(ws)[#[trigger] char_start(ws, i) - 1] == ' ',
    decreases ws.len(),
{
    if ws.len() > 0 {
        let init = ws.drop_last();
        let n = ws.len() as int;
        lemma_joined_positions(init);
        assert forall|i: int| 0 <= i <= n - 1 implies char_start(init, i) == char_start(ws, i) by {
            lemma_char_start_prefix(ws, init, i);
        }
        if n == 1 {
            assert(joined(ws) == ws[0]);
        } else {
            let j = joined(ws);
            let ji = joined(init);
            let a = ji + seq![' '];
            assert(j == a + ws[n - 1]);
            assert(a.len() == ji.len() + 1);
            assert(ji.len() + 1 == char_start(ws, n - 1));
            assert forall|i: int, k: int|
                0 <= i < ws.len() && 0 <= k < ws[i].len() implies j[char_start(ws, i) + k]
                == #[trigger] ws[i][k] by {
                let idx = char_start(ws, i) + k;
                lemma_char_start_monotone(ws, 0, i);
                if i < n - 1 {
                    lemma_char_start_monotone(ws, i + 1, n - 1);
                    assert(char_start(ws, i + 1) == char_start(ws, i) + ws[i].len() + 1);
                    assert(init[i] == ws[i]);
                    assert(ji[char_start(init, i) + k] == init[i][k]);
                    assert(idx < ji.len());
                    assert(a[idx] == ji[idx]);
                    assert(j[idx] == a[idx]);
                } else {
                    assert(idx == ji.len() + 1 + k);
                    assert(j[idx] == ws[n - 1][k]);
                }
            }
            assert forall|i: int| 0 < i < ws.len() implies j[#[trigger] char_start(ws, i) - 1] == ' ' by {
                if i < n - 1 {
                    lemma_char_start_monotone(ws, i, n - 1);
                    lemma_char_start_monotone(ws, 0, i - 1);
                    assert(char_start(ws, i) == char_start(ws, i - 1) + ws[i - 1].len() + 1);
                    assert(char_start(ws, i) <= char_start(ws, n - 1));
                    assert(init.len() == n - 1);
                    assert(ji[char_start(init, i) - 1] == ' ');
                    if char_start(ws, i) == char_start(ws, n - 1) {
                        lemma_char_start_monotone(ws, i + 1, n - 1);
                        assert(char_start(ws, i + 1) == char_start(ws, i) + ws[i].len() + 1);
                    }
                    assert(char_start(ws, i) - 1 < ji.len());
                    assert(a[char_start(ws, i) - 1] == ji[char_start(ws, i) - 1]);
                    assert(j[char_start(ws, i) - 1] == a[char_start(ws, i) - 1]);
                } else {
                    assert(j[ji.len() as int] == ' ');
                }
            }
        }
    }
}


proof fn lemma_ascii_starts_agree(ws: Seq<Seq<char>>, i: int)
    requires
        0 <= i <= ws.len(),
        forall|j: int| 0 <= j < ws.len() ==> is_ascii_chars(#[trigger] ws[j]),
    ensures
        word_start(ws, i) == char_start(ws, i),
    decreases i,
{
    if i > 0 {
        lemma_ascii_starts_agree(ws, i - 1);
        is_ascii_chars_encode_utf8(ws[i - 1]);
    }
}

/// For words written in ASCII, the offsets index the text of the joined words:
/// word `i` stands at its offset, a space follows each word but the last, and
/// the last offset is one past the end of the text.
pub proof fn lemma_offsets_locate_words(ws: Seq<Seq<char>>)
    requires
        forall|i: int| 0 <= i < ws.len() ==> is_ascii_chars(#[trigger] ws[i]),
    ensures
        ws.len() > 0 ==> joined(ws).len() + 1 == word_start(ws, ws.len() as int),
        forall|i: int, k: int|
            0 <= i < ws.len() && 0 <= k < ws[i].len() ==> joined(ws)[word_start(ws, i) + k]
                == #[trigger] ws[i][k],
        forall|i: int|
            0 < i < ws.len() ==> joined(ws)[#[trigger] word_start(ws, i) - 1] == ' ',
{
    lemma_joined_positions(ws);
    assert forall|i: int| 0 <= i <= ws.len() implies word_start(ws, i) == char_start(ws, i) by {
        lemma_ascii_starts_agree(ws, i);
    }
}

} // verus!
