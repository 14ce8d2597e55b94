//! End-to-end tests of the codec: the concrete wire scenarios, one per
//! frame kind and error kind, plus round trips through encode and decode.

use resp_codec::parse::{parse_int, parse_message, read_until_crlf, RespError};
use resp_codec::stream::{read_step, ReadOutcome};
use resp_codec::value::{check_wf, Value};

fn simple(s: &str) -> Value {
    Value::SimpleString(s.to_string())
}

fn bulk(s: &str) -> Value {
    Value::BulkString(s.to_string())
}

#[test]
fn decodes_simple_string() {
    let (v, consumed) = parse_message(b"+OK\r\n").unwrap();
    assert_eq!(v, simple("OK"));
    assert_eq!(consumed, 5);
}

#[test]
fn decodes_bulk_string() {
    let (v, consumed) = parse_message(b"$5\r\nhello\r\n").unwrap();
    assert_eq!(v, bulk("hello"));
    assert_eq!(consumed, 11);
}

#[test]
fn decodes_empty_bulk_string() {
    let (v, consumed) = parse_message(b"$0\r\n\r\n").unwrap();
    assert_eq!(v, bulk(""));
    assert_eq!(consumed, 6);
}

#[test]
fn decodes_array_of_bulk_strings() {
    let (v, consumed) = parse_message(b"*2\r\n$3\r\nfoo\r\n$3\r\nbar\r\n").unwrap();
    assert_eq!(v, Value::Array(vec![bulk("foo"), bulk("bar")]));
    assert_eq!(consumed, 22);
    assert_eq!(consumed, b"*2\r\n$3\r\nfoo\r\n$3\r\nbar\r\n".len());
}

#[test]
fn decodes_nested_array() {
    let (v, consumed) = parse_message(b"*1\r\n*1\r\n+ok\r\n").unwrap();
    assert_eq!(v, Value::Array(vec![Value::Array(vec![simple("ok")])]));
    assert_eq!(consumed, 13);
    assert_eq!(consumed, b"*1\r\n*1\r\n+ok\r\n".len());
}

#[test]
fn encodes_simple_string() {
    assert_eq!(simple("PONG").serialise(), "+PONG\r\n");
}

#[test]
fn encodes_bulk_string() {
    assert_eq!(bulk("hello").serialise(), "$5\r\nhello\r\n");
    assert_eq!(bulk("").serialise(), "$0\r\n\r\n");
}

#[test]
fn encodes_array() {
    let v = Value::Array(vec![bulk("foo"), bulk("bar")]);
    assert_eq!(v.serialise(), "*2\r\n$3\r\nfoo\r\n$3\r\nbar\r\n");
    let nested = Value::Array(vec![Value::Array(vec![simple("ok")])]);
    assert_eq!(nested.serialise(), "*1\r\n*1\r\n+ok\r\n");
    assert_eq!(Value::Array(vec![]).serialise(), "*0\r\n");
}

#[test]
fn unknown_prefix_is_unknown_type() {
    assert_eq!(parse_message(b"%bad\r\n"), Err(RespError::UnknownType));
}

#[test]
fn missing_delimiter_is_malformed_header() {
    assert_eq!(parse_message(b"+OK"), Err(RespError::MalformedHeader));
    assert_eq!(parse_message(b""), Err(RespError::MalformedHeader));
    assert_eq!(parse_message(b"$5"), Err(RespError::MalformedHeader));
}

#[test]
fn wrong_trailing_delimiter_is_rejected_for_good() {
    assert_eq!(parse_message(b"$3\r\nfooXY"), Err(RespError::DelimiterMismatch));
    assert_eq!(parse_message(b"$3\r\nfooXY\r\n"), Err(RespError::DelimiterMismatch));
}

#[test]
fn non_numeric_length_is_invalid_length() {
    assert_eq!(parse_message(b"$abc\r\nxyz\r\n"), Err(RespError::InvalidLength));
    assert_eq!(parse_message(b"*x\r\n"), Err(RespError::InvalidLength));
    assert_eq!(parse_message(b"$\r\n\r\n"), Err(RespError::InvalidLength));
}

#[test]
fn negative_length_is_invalid_length() {
    assert_eq!(parse_message(b"$-1\r\n\r\n"), Err(RespError::InvalidLength));
    assert_eq!(parse_message(b"*-1\r\n"), Err(RespError::InvalidLength));
}

#[test]
fn overlong_length_is_truncated_frame() {
    assert_eq!(parse_message(b"$10\r\nabc\r\n"), Err(RespError::TruncatedFrame));
}

#[test]
fn invalid_utf8_payload_is_invalid_encoding() {
    assert_eq!(parse_message(b"+\x80\r\n"), Err(RespError::InvalidEncoding));
    assert_eq!(parse_message(b"$1\r\n\xff\r\n"), Err(RespError::InvalidEncoding));
    assert_eq!(parse_message(b"$2\r\n\xc0\x80\r\n"), Err(RespError::InvalidEncoding));
}

#[test]
fn decodes_multi_byte_utf8_text() {
    let (v, consumed) = parse_message(b"+\xc3\xa9\r\n").unwrap();
    assert_eq!(v, simple("\u{e9}"));
    assert_eq!(consumed, 5);
    let (v, consumed) = parse_message(b"$2\r\n\xc3\xa9\r\n").unwrap();
    assert_eq!(v, bulk("\u{e9}"));
    assert_eq!(consumed, 8);
}

#[test]
fn bulk_length_counts_bytes_not_characters() {
    assert_eq!(bulk("\u{e9}").serialise(), "$2\r\n\u{e9}\r\n");
    assert_eq!(bulk("h\u{e9}llo").serialise(), "$6\r\nh\u{e9}llo\r\n");
}

#[test]
fn too_deep_nesting_is_depth_exceeded() {
    let mut input = Vec::new();
    for _ in 0..65 {
        input.extend_from_slice(b"*1\r\n");
    }
    input.extend_from_slice(b"+x\r\n");
    assert_eq!(parse_message(&input), Err(RespError::DepthExceeded));
}

#[test]
fn deep_but_allowed_nesting_decodes() {
    let mut input = Vec::new();
    for _ in 0..63 {
        input.extend_from_slice(b"*1\r\n");
    }
    input.extend_from_slice(b"+x\r\n");
    let (_, consumed) = parse_message(&input).unwrap();
    assert_eq!(consumed, input.len());
}

#[test]
fn round_trips_nested_values() {
    let values = vec![
        simple("OK"),
        bulk("hello world"),
        bulk(""),
        Value::Array(vec![]),
        Value::Array(vec![simple("a"), bulk("b"), Value::Array(vec![bulk("c")])]),
        simple("caf\u{e9}"),
        bulk("na\u{ef}ve \u{2764} text"),
        Value::Array(vec![bulk("\u{e9}"), simple("\u{3b1}\u{3b2}")]),
    ];
    for v in values {
        let text = v.clone().serialise();
        let bytes = text.as_bytes();
        let (decoded, consumed) = parse_message(bytes).unwrap();
        assert_eq!(decoded, v);
        assert_eq!(consumed, bytes.len());
    }
}

#[test]
fn consumed_equals_literal_length_for_supported_literals() {
    let literals: [&[u8]; 5] = [
        b"+OK\r\n",
        b"$5\r\nhello\r\n",
        b"$0\r\n\r\n",
        b"*2\r\n$3\r\nfoo\r\n$3\r\nbar\r\n",
        b"*1\r\n*1\r\n+ok\r\n",
    ];
    for lit in literals {
        let (_, consumed) = parse_message(lit).unwrap();
        assert_eq!(consumed, lit.len());
    }
}

#[test]
fn array_consumption_is_header_plus_elements() {
    let elems: [&[u8]; 2] = [b"$3\r\nfoo\r\n", b"*1\r\n+ok\r\n"];
    let mut input = b"*2\r\n".to_vec();
    for e in elems {
        input.extend_from_slice(e);
    }
    let (_, consumed) = parse_message(&input).unwrap();
    let elem_sum: usize = elems
        .iter()
        .map(|e| parse_message(e).unwrap().1)
        .sum();
    assert_eq!(consumed, 4 + elem_sum);
}

#[test]
fn decode_ignores_trailing_bytes() {
    let (v, consumed) = parse_message(b"+OK\r\n+NEXT\r\n").unwrap();
    assert_eq!(v, simple("OK"));
    assert_eq!(consumed, 5);
}

#[test]
fn read_until_crlf_finds_first_delimiter() {
    let (line, n) = read_until_crlf(b"abc\r\ndef\r\n").unwrap();
    assert_eq!(line, b"abc");
    assert_eq!(n, 5);
    assert_eq!(read_until_crlf(b"abc"), None);
    let (line, n) = read_until_crlf(b"\r\n").unwrap();
    assert_eq!(line, b"");
    assert_eq!(n, 2);
    let (line, n) = read_until_crlf(b"a\r\r\nb").unwrap();
    assert_eq!(line, b"a\r");
    assert_eq!(n, 4);
}

#[test]
fn parse_int_accepts_signed_decimals() {
    assert_eq!(parse_int(b"123"), Ok(123));
    assert_eq!(parse_int(b"+12"), Ok(12));
    assert_eq!(parse_int(b"-123"), Ok(-123));
    assert_eq!(parse_int(b"0"), Ok(0));
    assert_eq!(parse_int(b"007"), Ok(7));
    assert_eq!(parse_int(b"9223372036854775807"), Ok(i64::MAX));
    assert_eq!(parse_int(b"-9223372036854775808"), Ok(i64::MIN));
}

#[test]
fn parse_int_rejects_bad_literals() {
    assert_eq!(parse_int(b""), Err(RespError::InvalidLength));
    assert_eq!(parse_int(b"-"), Err(RespError::InvalidLength));
    assert_eq!(parse_int(b"+"), Err(RespError::InvalidLength));
    assert_eq!(parse_int(b"12a"), Err(RespError::InvalidLength));
    assert_eq!(parse_int(b" 1"), Err(RespError::InvalidLength));
    assert_eq!(parse_int(b"9223372036854775808"), Err(RespError::InvalidLength));
    assert_eq!(parse_int(b"-9223372036854775809"), Err(RespError::InvalidLength));
    assert_eq!(parse_int(b"99999999999999999999999"), Err(RespError::InvalidLength));
}

#[test]
fn zero_byte_read_signals_closed_connection() {
    assert_eq!(read_step(b"", 0), ReadOutcome::Closed);
    assert_eq!(read_step(b"+OK\r\n", 0), ReadOutcome::Closed);
}

#[test]
fn partial_frame_needs_more_data() {
    assert_eq!(read_step(b"+OK", 3), ReadOutcome::NeedMore);
    assert_eq!(read_step(b"$10\r\nabc", 8), ReadOutcome::NeedMore);
    assert_eq!(read_step(b"*2\r\n$3\r\nfoo\r\n", 13), ReadOutcome::NeedMore);
}

#[test]
fn complete_frame_is_delivered_with_consumed_count() {
    assert_eq!(
        read_step(b"+OK\r\n", 5),
        ReadOutcome::Complete(simple("OK"), 5)
    );
}

#[test]
fn invalid_frame_fails_the_connection() {
    assert_eq!(read_step(b"%bad\r\n", 6), ReadOutcome::Failed(RespError::UnknownType));
    assert_eq!(read_step(b"$-1\r\n\r\n", 7), ReadOutcome::Failed(RespError::InvalidLength));
    assert_eq!(
        read_step(b"$3\r\nfooXY\r\n", 11),
        ReadOutcome::Failed(RespError::DelimiterMismatch)
    );
}

#[test]
fn check_wf_accepts_representable_values() {
    assert!(check_wf(&simple("OK")));
    assert!(check_wf(&simple("caf\u{e9}")));
    assert!(check_wf(&bulk("any\r\nbytes")));
    assert!(check_wf(&bulk("caf\u{e9}")));
    assert!(check_wf(&Value::Array(vec![simple("a"), Value::Array(vec![])])));
}

#[test]
fn check_wf_rejects_unrepresentable_values() {
    assert!(!check_wf(&simple("bad\r\nline")));
    assert!(!check_wf(&Value::Array(vec![simple("ok"), simple("bad\r\n")])));
}

#[test]
fn clone_is_deep_and_equal() {
    let v = Value::Array(vec![simple("a"), Value::Array(vec![bulk("b")])]);
    let c = v.clone();
    assert_eq!(c, v);
}

#[test]
fn bulk_string_payload_may_contain_delimiters() {
    let v = bulk("a\r\nb");
    let text = v.clone().serialise();
    assert_eq!(text, "$4\r\na\r\nb\r\n");
    let (decoded, consumed) = parse_message(text.as_bytes()).unwrap();
    assert_eq!(decoded, v);
    assert_eq!(consumed, 10);
}
