use vstd::prelude::*;
use std::time::{Duration, SystemTime, SystemTimeError, UNIX_EPOCH};
use crate::decimal::{
    decimal_digits, lemma_decimal_roundtrip, parse_unsigned, push_decimal, unsigned_text_value,
};
use crate::text::{chars_of, string_from_chars};

verus! {

/// The fields of `s` between the separators `sep`, as `str::split` gives them:
/// one field more than there are separators, empty fields included.
pub open spec fn split_on(s: Seq<char>, sep: char) -> Seq<Seq<char>>
    decreases s.len(),
{
    if s.len() == 0 {
        seq![seq![]]
    } else {
        let init = split_on(s.drop_last(), sep);
        if s.last() == sep {
            init.push(seq![])
        } else {
            init.update(init.len() - 1, init.last().push(s.last()))
        }
    }
}

/// One line of the test history: the numbers of a finished test, with the
/// speed and the accuracy kept as the text that stands for them in the line.
pub struct RecordFields {
    /// Seconds since the Unix epoch when the test was recorded.
    pub ts: u64,
    /// The speed in words per minute, as text.
    pub wpm_text: String,
    /// The accuracy as a fraction, as text.
    pub accuracy_text: String,
    pub duration_ms: u64,
    pub words: usize,
    pub chars: usize,
    pub errors: usize,
    /// Whether the test had punctuation.
    pub punct: bool,
}

/// The text of a history line for `r`: the fields in order, separated by
/// commas, the integers in decimal and the punctuation flag as `1` or `0`.
pub open spec fn record_line(r: RecordFields) -> Seq<char> {
    decimal_digits(r.ts as nat) + seq![','] + r.wpm_text@ + seq![','] + r.accuracy_text@ + seq![
        ',',
    ] + decimal_digits(r.duration_ms as nat) + seq![','] + decimal_digits(r.words as nat)
        + seq![','] + decimal_digits(r.chars as nat) + seq![','] + decimal_digits(
        r.errors as nat,
    ) + seq![','] + (if r.punct {
        seq!['1']
    } else {
        seq!['0']
    })
}

/// Whether a history line has the shape of a record: eight comma-separated
/// fields, where the timestamp and the duration read as `u64`, the counts of
/// words, characters and errors as `usize`, and the punctuation flag as `u8`.
pub open spec fn line_is_record(line: Seq<char>) -> bool {
    let f = split_on(line, ',');
    &&& f.len() == 8
    &&& unsigned_text_value(f[0], u64::MAX as nat) is Some
    &&& unsigned_text_value(f[3], u64::MAX as nat) is Some
    &&& unsigned_text_value(f[4], usize::MAX as nat) is Some
    &&& unsigned_text_value(f[5], usize::MAX as nat) is Some
    &&& unsigned_text_value(f[6], usize::MAX as nat) is Some
    &&& unsigned_text_value(f[7], u8::MAX as nat) is Some
}

/// Whether `r` holds what the fields of a record line say.
pub open spec fn record_matches(r: RecordFields, line: Seq<char>) -> bool {
    let f = split_on(line, ',');
    &&& r.ts as nat == unsigned_text_value(f[0], u64::MAX as nat)->0
    &&& r.wpm_text@ == f[1]
    &&& r.accuracy_text@ == f[2]
    &&& r.duration_ms as nat == unsigned_text_value(f[3], u64::MAX as nat)->0
    &&& r.words as nat == unsigned_text_value(f[4], usize::MAX as nat)->0
    &&& r.chars as nat == unsigned_text_value(f[5], usize::MAX as nat)->0
    &&& r.errors as nat == unsigned_text_value(f[6], usize::MAX as nat)->0
    &&& r.punct == (unsigned_text_value(f[7], u8::MAX as nat)->0 != 0)
}

/// Splits `s` at every `sep`.
pub fn split_fields(s: &[char], sep: char) -> (fields: Vec<Vec<char>>)
    ensures
        fields@.len() == split_on(s@, sep).len(),
        forall|k: int| 0 <= k < fields@.len() ==> #[trigger] fields@[k]@ == split_on(s@, sep)[k],
{
    let mut fields: Vec<Vec<char>> = Vec::new();
    let mut cur: Vec<char> = Vec::new();
    let n = s.len();
    for i in 0..n
        invariant
            n == s@.len(),
            fields@.len() + 1 == split_on(s@.take(i as int), sep).len(),
            forall|k: int|
                0 <= k < fields@.len() ==> #[trigger] fields@[k]@ == split_on(
                    s@.take(i as int),
                    sep,
                )[k],
            cur@ == split_on(s@.take(i as int), sep).last(),
    {
        let ghost pre = s@.take(i as int);
        let ghost next = s@.take(i + 1);
        assert(next.drop_last() =~= pre);
        assert(next.last() == s@[i as int]);
        let c = s[i];
        if c == sep {
            let done = cur;
            fields.push(done);
            cur = Vec::new();
            assert(cur@ =~= seq![]);
        } else {
            cur.push(c);
        }
    }
    assert(s@.take(n as int) =~= s@);
    fields.push(cur);
    fields
}

/// Reads one line of the test history. A line is a record when it has eight
/// comma-separated fields whose integer fields read as unsigned integers of
/// their types; the speed and accuracy fields are handed back as text.
pub fn parse_record_fields(line: &str) -> (res: Option<RecordFields>)
    ensures
        res is Some <==> line_is_record(line@),
        res matches Some(r) ==> record_matches(r, line@),
{
    let cs = chars_of(line);
    let f = split_fields(cs.as_slice(), ',');
    if f.len() != 8 {
        return None;
    }
    let ts = match parse_unsigned(f[0].as_slice(), u64::MAX) {
        Some(v) => v,
        None => return None,
    };
    let duration_ms = match parse_unsigned(f[3].as_slice(), u64::MAX) {
        Some(v) => v,
        None => return None,
    };
    let words = match parse_unsigned(f[4].as_slice(), usize::MAX as u64) {
        Some(v) => v as usize,
        None => return None,
    };
    let chars = match parse_unsigned(f[5].as_slice(), usize::MAX as u64) {
        Some(v) => v as usize,
        None => return None,
    };
    let errors = match parse_unsigned(f[6].as_slice(), usize::MAX as u64) {
        Some(v) => v as usize,
        None => return None,
    };
    let punct = match parse_unsigned(f[7].as_slice(), 255) {
        Some(v) => v != 0,
        None => return None,
    };
    let wpm_text = string_from_chars(f[1].as_slice());
    let accuracy_text = string_from_chars(f[2].as_slice());
    Some(
        RecordFields { ts, wpm_text, accuracy_text, duration_ms, words, chars, errors, punct },
    )
}

/// Writes `r` as one line of the test history.
pub fn format_record_line(r: &RecordFields) -> (line: String)
    ensures
        line@ == record_line(*r),
{
    let mut out: Vec<char> = Vec::new();
    push_decimal(&mut out, r.ts);
    out.push(',');
    let w = chars_of(r.wpm_text.as_str());
    out.extend_from_slice(w.as_slice());
    out.push(',');
    let a = chars_of(r.accuracy_text.as_str());
    out.extend_from_slice(a.as_slice());
    out.push(',');
    push_decimal(&mut out, r.duration_ms);
    out.push(',');
    push_decimal(&mut out, r.words as u64);
    out.push(',');
    push_decimal(&mut out, r.chars as u64);
    out.push(',');
    push_decimal(&mut out, r.errors as u64);
    out.push(',');
    if r.punct {
        out.push('1');
    } else {
        out.push('0');
    }
    assert(out@ =~= record_line(*r));
    string_from_chars(out.as_slice())
}

proof fn lemma_split_on_nonempty(s: Seq<char>, sep: char)
    ensures
        split_on(s, sep).len() >= 1,
    decreases s.len(),
{
    if s.len() > 0 {
        lemma_split_on_nonempty(s.drop_last(), sep);
    }
}

proof fn lemma_split_on_concat(a: Seq<char>, b: Seq<char>, sep: char)
    ensures
        split_on(a + seq![sep] + b, sep) == split_on(a, sep) + split_on(b, sep),
    decreases b.len(),
{
    let x = a + seq![sep] + b;
    if b.len() == 0 {
        assert(x.drop_last() =~= a);
        assert(split_on(x, sep) =~= split_on(a, sep) + split_on(b, sep));
    } else {
        let b2 = b.drop_last();
        assert(x.drop_last() =~= a + seq![sep] + b2);
        lemma_split_on_concat(a, b2, sep);
        lemma_split_on_nonempty(b2, sep);
        lemma_split_on_nonempty(a, sep);
        assert(split_on(x, sep) =~= split_on(a, sep) + split_on(b, sep));
    }
}

proof fn lemma_split_on_single(a: Seq<char>, sep: char)
    requires
        !a.contains(sep),
    ensures
        split_on(a, sep) == seq![a],
    decreases a.len(),
{
    if a.len() > 0 {
        let a2 = a.drop_last();
        assert(!a2.contains(sep)) by {
            if a2.contains(sep) {
                let i = choose|i: int| 0 <= i < a2.len() && a2[i] == sep;
                assert(a[i] == sep);
            }
        }
        lemma_split_on_single(a2, sep);
        assert(a.last() != sep) by {
            assert(a[a.len() - 1] == a.last());
        }
        assert(a2.push(a.last()) =~= a);
        assert(split_on(a, sep) =~= seq![a]);
    } else {
        assert(a =~= seq![]);
    }
}

/// A history line written for a record reads back as that record, provided
/// the speed and accuracy texts hold no comma.
pub proof fn lemma_record_line_roundtrip(r: RecordFields)
    requires
        !r.wpm_text@.contains(','),
        !r.accuracy_text@.contains(','),
    ensures
        line_is_record(record_line(r)),
        record_matches(r, record_line(r)),
{
    let s0 = decimal_digits(r.ts as nat);
    let s1 = r.wpm_text@;
    let s2 = r.accuracy_text@;
    let s3 = decimal_digits(r.duration_ms as nat);
    let s4 = decimal_digits(r.words as nat);
    let s5 = decimal_digits(r.chars as nat);
    let s6 = decimal_digits(r.errors as nat);
    let s7: Seq<char> = if r.punct {
        seq!['1']
    } else {
        seq!['0']
    };
    lemma_decimal_roundtrip(r.ts as nat, u64::MAX as nat);
    lemma_decimal_roundtrip(r.duration_ms as nat, u64::MAX as nat);
    lemma_decimal_roundtrip(r.words as nat, usize::MAX as nat);
    lemma_decimal_roundtrip(r.chars as nat, usize::MAX as nat);
    lemma_decimal_roundtrip(r.errors as nat, usize::MAX as nat);
    lemma_decimal_roundtrip(1, u8::MAX as nat);
    lemma_decimal_roundtrip(0, u8::MAX as nat);
    assert(decimal_digits(1) =~= seq!['1']);
    assert(decimal_digits(0) =~= seq!['0']);
    let l1 = s0;
    let l2 = l1 + seq![','] + s1;
    let l3 = l2 + seq![','] + s2;
    let l4 = l3 + seq![','] + s3;
    let l5 = l4 + seq![','] + s4;
    let l6 = l5 + seq![','] + s5;
    let l7 = l6 + seq![','] + s6;
    let l8 = l7 + seq![','] + s7;
    assert(l8 == record_line(r));
    lemma_split_on_single(s0, ',');
    lemma_split_on_single(s1, ',');
    lemma_split_on_single(s2, ',');
    lemma_split_on_single(s3, ',');
    lemma_split_on_single(s4, ',');
    lemma_split_on_single(s5, ',');
    lemma_split_on_single(s6, ',');
    lemma_split_on_single(s7, ',');
    lemma_split_on_concat(l1, s1, ',');
    lemma_split_on_concat(l2, s2, ',');
    lemma_split_on_concat(l3, s3, ',');
    lemma_split_on_concat(l4, s4, ',');
    lemma_split_on_concat(l5, s5, ',');
    lemma_split_on_concat(l6, s6, ',');
    lemma_split_on_concat(l7, s7, ',');
    assert(split_on(l8, ',') =~= seq![s0, s1, s2, s3, s4, s5, s6, s7]);
}

/// std's `SystemTime`, a reading of the system clock.
#[verifier::external_type_specification]
#[verifier::external_body]
pub struct ExSystemTime(SystemTime);

/// std's `SystemTimeError`: a time lay before the one it was measured from.
#[verifier::external_type_specification]
#[verifier::external_body]
pub struct ExSystemTimeError(SystemTimeError);

/// std's `SystemTime::now`: the current reading of the system clock. Nothing is
/// stated of it; it depends on the clock.
#[verifier::external_body]
fn system_time_now() -> SystemTime {
    SystemTime::now()
}

/// std's `SystemTime::duration_since` with the Unix epoch: the time elapsed
/// since the epoch, or an error where the reading lies before it. Nothing is
/// stated of which comes back; it depends on the reading.
#[verifier::external_body]
fn since_unix_epoch(t: &SystemTime) -> Result<Duration, SystemTimeError> {
    t.duration_since(UNIX_EPOCH)
}

/// std's `Duration::as_secs`: the whole seconds of a duration. Nothing is
/// stated of the value; a `Duration` is opaque here.
#[verifier::external_body]
fn whole_seconds(d: &Duration) -> u64 {
    d.as_secs()
}

/// The timestamp of a clock reading, given as the whole seconds since the Unix
/// epoch, or `None` where the reading lies before the epoch: those seconds,
/// or 0.
pub fn timestamp_from(since_epoch: Option<u64>) -> (ts: u64)
    ensures
        ts == match since_epoch {
            Some(secs) => secs,
            None => 0,
        },
{
    match since_epoch {
        Some(secs) => secs,
        None => 0,
    }
}

/// Seconds since the Unix epoch by the system clock, or 0 where the clock
/// reads a time before the epoch. The reading is handed to `timestamp_from`;
/// nothing is stated of the value, which depends on the clock.
pub fn now_ts() -> u64 {
    let now = system_time_now();
    let since_epoch = match since_unix_epoch(&now) {
        Ok(d) => Some(whole_seconds(&d)),
        Err(_) => None,
    };
    timestamp_from(since_epoch)
}

} // verus!
