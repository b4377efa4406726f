use vstd::prelude::*;

verus! {

/// Whether `c` is one of the ASCII digits `0` to `9`.
pub open spec fn is_digit(c: char) -> bool {
    '0' <= c && c <= '9'
}

/// The value of an ASCII digit.
pub open spec fn digit_value(c: char) -> nat {
    (c as int - '0' as int) as nat
}

/// The ASCII digit of a value below ten.
pub open spec fn digit_char(d: nat) -> char {
    (d + '0' as nat) as char
}

/// Whether every character of `s` is an ASCII digit.
pub open spec fn all_digits(s: Seq<char>) -> bool {
    forall|i: int| 0 <= i < s.len() ==> is_digit(#[trigger] s[i])
}

/// The value of a run of decimal digits, most significant first.
pub open spec fn digits_value(s: Seq<char>) -> nat
    decreases s.len(),
{
    if s.len() == 0 {
        0
    } else {
        digits_value(s.drop_last()) * 10 + digit_value(s.last())
    }
}

/// What reading `s` as an unsigned base-10 integer of largest value `max`
/// gives: an optional `+` sign, then one or more ASCII digits, whose value is
/// at most `max`. This is the text that std's `FromStr` accepts for the
/// unsigned integer types.
pub open spec fn unsigned_text_value(s: Seq<char>, max: nat) -> Option<nat> {
    let body = if s.len() > 0 && s[0] == '+' {
        s.drop_first()
    } else {
        s
    };
    if body.len() > 0 && all_digits(body) && digits_value(body) <= max {
        Some(digits_value(body))
    } else {
        None
    }
}

/// The shortest decimal text of `n`.
pub open spec fn decimal_digits(n: nat) -> Seq<char>
    decreases n,
{
    if n < 10 {
        seq![digit_char(n)]
    } else {
        decimal_digits(n / 10).push(digit_char(n % 10))
    }
}

proof fn lemma_digits_value_grows(p: Seq<char>, t: Seq<char>)
    requires
        p.len() <= t.len(),
        p == t.subrange(0, p.len() as int),
        all_digits(t),
    ensures
        digits_value(p) <= digits_value(t),
    decreases t.len() - p.len(),
{
    if p.len() == t.len() {
        assert(p =~= t);
    } else {
        let t2 = t.drop_last();
        assert(p == t2.subrange(0, p.len() as int));
        assert(all_digits(t2)) by {
            assert forall|i: int| 0 <= i < t2.len() implies is_digit(#[trigger] t2[i]) by {
                assert(t2[i] == t[i]);
            }
        }
        lemma_digits_value_grows(p, t2);
        let a = digits_value(t2);
        let d = digit_value(t.last());
        assert(digits_value(t) == a * 10 + d);
        assert(a <= a * 10 + d) by (nonlinear_arith);
    }
}

proof fn lemma_step_bound(v: nat, d: nat, max: nat)
    requires
        d <= 9,
        d <= max,
    ensures
        v * 10 + d <= max <==> v <= (max - d) / 10,
{
    assert(v * 10 + d <= max <==> v <= (max - d) / 10) by (nonlinear_arith)
        requires
            d <= max,
    ;
}

/// Reads `s` as an unsigned base-10 integer of largest value `max`, as std's
/// `FromStr` for the unsigned integer types does.
pub fn parse_unsigned(s: &[char], max: u64) -> (r: Option<u64>)
    ensures
        match unsigned_text_value(s@, max as nat) {
            Some(v) => r == Some(v as u64),
            None => r is None,
        },
{
    let n = s.len();
    let start: usize = if n > 0 && s[0] == '+' {
        1
    } else {
        0
    };
    let ghost body = if s@.len() > 0 && s@[0] == '+' {
        s@.drop_first()
    } else {
        s@
    };
    assert(body =~= s@.subrange(start as int, n as int));
    if start == n {
        return None;
    }
    let mut v: u64 = 0;
    let mut i: usize = start;
    while i < n
        invariant
            start <= i <= n,
            n == s@.len(),
            start == (if s@.len() > 0 && s@[0] == '+' { 1usize } else { 0usize }),
            body == (if s@.len() > 0 && s@[0] == '+' { s@.drop_first() } else { s@ }),
            body == s@.subrange(start as int, n as int),
            all_digits(s@.subrange(start as int, i as int)),
            v as nat == digits_value(s@.subrange(start as int, i as int)),
            v <= max,
        decreases n - i,
    {
        let c = s[i];
        let ghost pre = s@.subrange(start as int, i as int);
        let ghost cur = s@.subrange(start as int, i + 1);
        assert(cur.drop_last() =~= pre);
        if !('0' <= c && c <= '9') {
            assert(body[i - start] == c);
            assert(!is_digit(body[i - start]));
            assert(!all_digits(body));
            assert(unsigned_text_value(s@, max as nat) is None);
            return None;
        }
        let d: u64 = ((c as u32) - ('0' as u32)) as u64;
        assert(all_digits(cur)) by {
            assert forall|k: int| 0 <= k < cur.len() implies is_digit(#[trigger] cur[k]) by {
                if k < pre.len() {
                    assert(cur[k] == pre[k]);
                }
            }
        }
        assert(digits_value(cur) == v * 10 + d);
        if d > max || v > (max - d) / 10 {
            proof {
                if d <= max {
                    lemma_step_bound(v as nat, d as nat, max as nat);
                } else {
                    assert(v * 10 + d > max) by (nonlinear_arith)
                        requires
                            d > max,
                    ;
                }
                assert(digits_value(cur) > max);
                if all_digits(body) {
                    assert(cur == body.subrange(0, cur.len() as int));
                    lemma_digits_value_grows(cur, body);
                }
            }
            return None;
        }
        proof {
            lemma_step_bound(v as nat, d as nat, max as nat);
        }
        v = v * 10 + d;
        i = i + 1;
    }
    assert(s@.subrange(start as int, i as int) == body);
    Some(v)
}

/// Appends the shortest decimal text of `n` to `out`.
pub fn push_decimal(out: &mut Vec<char>, n: u64)
    ensures
        final(out)@ == old(out)@ + decimal_digits(n as nat),
    decreases n,
{
    if n >= 10 {
        push_decimal(out, n / 10);
    }
    let d: u8 = (n % 10) as u8;
    let c: char = (d + 48) as char;
    assert(c == digit_char((n % 10) as nat));
    out.push(c);
    assert(out@ =~= old(out)@ + decimal_digits(n as nat));
}

proof fn lemma_decimal_digits_shape(n: nat)
    ensures
        decimal_digits(n).len() > 0,
        all_digits(decimal_digits(n)),
        digits_value(decimal_digits(n)) == n,
    decreases n,
{
    if n >= 10 {
        lemma_decimal_digits_shape(n / 10);
        let s = decimal_digits(n);
        assert(s.drop_last() =~= decimal_digits(n / 10));
        assert(digit_value(digit_char(n % 10)) == n % 10);
        assert(s.last() == digit_char(n % 10));
        assert(digits_value(s) == digits_value(s.drop_last()) * 10 + digit_value(s.last()));
        assert(digits_value(s.drop_last()) == n / 10);
        assert(digits_value(s) == (n / 10) * 10 + n % 10);
        assert((n / 10) * 10 + n % 10 == n) by (nonlinear_arith);
        assert(all_digits(s)) by {
            assert forall|i: int| 0 <= i < s.len() implies is_digit(#[trigger] s[i]) by {
                if i < s.len() - 1 {
                    assert(s[i] == decimal_digits(n / 10)[i]);
                }
            }
        }
    } else {
        let s = decimal_digits(n);
        assert(s.drop_last() =~= seq![]);
        assert(digits_value(s.drop_last()) == 0);
        assert(digit_value(digit_char(n)) == n);
        assert(digits_value(s) == digits_value(s.drop_last()) * 10 + digit_value(s.last()));
    }
}

/// The decimal text of a number reads back as that number.
pub proof fn lemma_decimal_roundtrip(n: nat, max: nat)
    requires
        n <= max,
    ensures
        unsigned_text_value(decimal_digits(n), max) == Some(n),
        !decimal_digits(n).contains(','),
{
    lemma_decimal_digits_shape(n);
    let s = decimal_digits(n);
    assert(is_digit(s[0]));
    if s.contains(',') {
        let i = choose|i: int| 0 <= i < s.len() && s[i] == ',';
        assert(is_digit(s[i]));
    }
}

} // verus!
