use winnow::emit::distinct_fns;
use winnow::ingest::{hex_u64, HexError};

/// The census JSON writes addresses as quoted hexadecimal strings.
fn json_text(json: &str) -> String {
    serde_json::from_str::<String>(json).unwrap()
}

#[test]
fn hex_u64_parses_0x_prefixed_values() {
    let s = json_text(r#""0x1a2b""#);
    assert_eq!(hex_u64(&s), Ok(0x1a2b));
}

#[test]
fn hex_u64_parses_values_without_prefix() {
    let s = json_text(r#""ff""#);
    assert_eq!(hex_u64(&s), Ok(0xff));
}

#[test]
fn hex_u64_accepts_upper_case_and_full_width() {
    assert_eq!(hex_u64("0xFFFFFFFFFFFFFFFF"), Ok(u64::MAX));
    assert_eq!(hex_u64("DeadBeef"), Ok(0xdead_beef));
}

#[test]
fn hex_u64_reports_empty_input() {
    assert_eq!(hex_u64(""), Err(HexError::Empty));
    assert_eq!(hex_u64("0x"), Err(HexError::Empty));
}

#[test]
fn hex_u64_reports_an_invalid_digit() {
    assert_eq!(hex_u64("0x12g4"), Err(HexError::InvalidDigit));
    assert_eq!(hex_u64("-1"), Err(HexError::InvalidDigit));
}

#[test]
fn hex_u64_reports_overflow() {
    assert_eq!(hex_u64("0x10000000000000000"), Err(HexError::Overflow));
}

#[test]
fn hex_u64_strips_every_leading_0x() {
    assert_eq!(hex_u64("0x0x10"), Ok(0x10));
}

#[test]
fn addresses_written_in_rules_read_back_as_the_same_address() {
    for v in [0u64, 0x9, 0x1a2b, 0xdc434, u64::MAX] {
        let written = distinct_fns(&[v]);
        let inner = written.trim_start_matches('{').trim_end_matches('}');
        assert_eq!(hex_u64(inner), Ok(v));
    }
}
