use toipe::decimal::{parse_unsigned, push_decimal};

fn chars(s: &str) -> Vec<char> {
    s.chars().collect()
}

#[test]
fn parse_unsigned_like_std() {
    for s in ["0", "42", "+42", "007", "", "+", "-", "-0", "4 2", "18446744073709551615", "18446744073709551616", "99999999999999999999"] {
        assert_eq!(parse_unsigned(&chars(s), u64::MAX), s.parse::<u64>().ok(), "{:?}", s);
    }
    for s in ["255", "256", "+255", "1000"] {
        assert_eq!(parse_unsigned(&chars(s), 255), s.parse::<u8>().ok().map(|v| v as u64), "{:?}", s);
    }
}

#[test]
fn decimal_text_round_trips() {
    for n in [0u64, 7, 10, 1234, u64::MAX] {
        let mut out = vec!['x'];
        push_decimal(&mut out, n);
        let text: String = out[1..].iter().collect();
        assert_eq!(text, n.to_string());
        assert_eq!(parse_unsigned(&out[1..], u64::MAX), Some(n));
    }
}
