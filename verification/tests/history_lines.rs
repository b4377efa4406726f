use toipe::stats::{format_record_line, parse_record_fields, RecordFields};

fn rec(wpm: f64, acc: f64) -> RecordFields {
    RecordFields {
        ts: 1234,
        wpm_text: format!("{:.3}", wpm),
        accuracy_text: format!("{:.3}", acc),
        duration_ms: 1000,
        words: 20,
        chars: 100,
        errors: 2,
        punct: false,
    }
}

#[test]
fn roundtrip() {
    for (wpm, acc) in [(84.25, 0.984), (0.0, 0.5)] {
        let r = rec(wpm, acc);
        let parsed = parse_record_fields(&format_record_line(&r)).unwrap();
        assert_eq!(parsed.ts, r.ts);
        let parsed_wpm: f64 = parsed.wpm_text.parse().unwrap();
        let parsed_acc: f64 = parsed.accuracy_text.parse().unwrap();
        assert!((parsed_wpm - wpm).abs() < 1e-6);
        assert!((parsed_acc - acc).abs() < 1e-6);
        assert_eq!(parsed.duration_ms, r.duration_ms);
        assert_eq!(parsed.words, r.words);
        assert_eq!(parsed.chars, r.chars);
        assert_eq!(parsed.errors, r.errors);
        assert_eq!(parsed.punct, r.punct);
    }
}

#[test]
fn bad_lines_skipped() {
    assert!(parse_record_fields("not,a,record").is_none());
    assert!(parse_record_fields("").is_none());
    assert!(parse_record_fields("1,2,3,4,5,6,7").is_none());
}

#[test]
fn record_line_text() {
    let mut r = rec(84.25, 0.984);
    r.punct = true;
    assert_eq!(format_record_line(&r), "1234,84.250,0.984,1000,20,100,2,1");
}

#[test]
fn record_fields_read_back() {
    let r = parse_record_fields("+7,1.5,x,0,3,4,5,0").unwrap();
    assert_eq!(r.ts, 7);
    assert_eq!(r.wpm_text, "1.5");
    assert_eq!(r.accuracy_text, "x");
    assert_eq!(r.duration_ms, 0);
    assert_eq!((r.words, r.chars, r.errors), (3, 4, 5));
    assert!(!r.punct);
    let r = parse_record_fields("1,2,3,4,5,6,7,255").unwrap();
    assert!(r.punct);
}

#[test]
fn record_fields_rejected() {
    // a ninth field
    assert!(parse_record_fields("1,2,3,4,5,6,7,0,9").is_none());
    // a sign that std does not accept for unsigned integers
    assert!(parse_record_fields("-1,2,3,4,5,6,7,0").is_none());
    // punctuation flag beyond u8
    assert!(parse_record_fields("1,2,3,4,5,6,7,256").is_none());
    // an empty integer field
    assert!(parse_record_fields("1,2,3,,5,6,7,0").is_none());
    // timestamp beyond u64
    assert!(parse_record_fields("18446744073709551616,2,3,4,5,6,7,0").is_none());
    assert!(parse_record_fields("18446744073709551615,2,3,4,5,6,7,0").is_some());
}
