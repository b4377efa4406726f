use toipe::stats::{now_ts, timestamp_from};
use toipe::error::ToipeError;

#[test]
fn error_context_prefixes_message() {
    let e = ToipeError::from("no words".to_string()).with_context("reading the word list: ");
    assert_eq!(e.msg, "reading the word list: no words");
    assert_eq!(e.display_text(), "ToipeError: reading the word list: no words");
}

#[test]
fn clock_reads_after_epoch() {
    assert!(now_ts() > 1_600_000_000);
}

#[test]
fn timestamp_of_a_reading() {
    assert_eq!(timestamp_from(Some(1_700_000_000)), 1_700_000_000);
    assert_eq!(timestamp_from(None), 0);
}
