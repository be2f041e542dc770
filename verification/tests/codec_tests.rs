//! Wire-format round trips, exact encodings, and decode failures.

use account_demo::codec::{
    decode_amount_payload, decode_cmd_payload, decode_opened_payload, decode_recorded_payload,
    encode_amount_payload, encode_cmd_payload, encode_opened_payload, encode_recorded_payload,
};
use account_demo::text::{parse_i64, parse_u64, push_i64, push_u64, text};

fn chars(s: &str) -> Vec<char> {
    text(s)
}

fn string_of(v: &[char]) -> String {
    v.iter().collect()
}

#[test]
fn cmd_payload_exact_encoding() {
    let p = encode_cmd_payload(&chars("A1"));
    assert_eq!(string_of(&p), "{\"account_id\":\"A1\"}");
}

#[test]
fn amount_payload_exact_encoding() {
    let p = encode_amount_payload(&chars("A1"), 250);
    assert_eq!(string_of(&p), "{\"account_id\":\"A1\",\"amount\":250}");
}

#[test]
fn opened_payload_exact_encoding() {
    let p = encode_opened_payload(&chars("A1"), Some(1700000000000001));
    assert_eq!(
        string_of(&p),
        "{\"account_id\":\"A1\",\"processed_time\":1700000000000001}"
    );
    let p = encode_opened_payload(&chars("A1"), None);
    assert_eq!(string_of(&p), "{\"account_id\":\"A1\",\"processed_time\":null}");
}

#[test]
fn recorded_payload_exact_encoding() {
    let p = encode_recorded_payload(10, Some(-3));
    assert_eq!(string_of(&p), "{\"recorded_position\":10,\"processed_time\":-3}");
}

#[test]
fn cmd_payload_round_trip() {
    let id = chars("account 42/x.y~z");
    let p = encode_cmd_payload(&id);
    let back = decode_cmd_payload(&p).unwrap();
    assert_eq!(back, id);
}

#[test]
fn cmd_payload_round_trip_with_escapes() {
    // Quotes, backslashes, control characters and non-ASCII all survive.
    for id in ["say \"hi\"", "a\\b", "line\nbreak\ttab", "caf\u{e9}-\u{1F600}", ""] {
        let idv = chars(id);
        let p = encode_cmd_payload(&idv);
        assert_eq!(decode_cmd_payload(&p).unwrap(), idv);
        let q = encode_opened_payload(&idv, Some(5));
        let (back, t) = decode_opened_payload(&q).unwrap();
        assert_eq!(back, idv);
        assert_eq!(t, Some(5));
    }
    assert_eq!(
        string_of(&encode_cmd_payload(&chars("a\"b\\c\n"))),
        "{\"account_id\":\"a\\\"b\\\\c\\u000a\"}"
    );
}

#[test]
fn decode_accepts_lexical_latitude() {
    // Whitespace everywhere.
    let id = decode_cmd_payload(&chars(" {\n\t\"account_id\" :  \"A1\"  } ")).unwrap();
    assert_eq!(id, chars("A1"));
    // Another field order.
    let (id, amount) =
        decode_amount_payload(&chars("{\"amount\": 250, \"account_id\": \"A1\"}")).unwrap();
    assert_eq!(id, chars("A1"));
    assert_eq!(amount, 250);
    // Extra fields, including nested ones, are skipped.
    let (id, amount) = decode_amount_payload(&chars(
        "{\"meta\": {\"tags\": [1, 2.5, true, null]}, \"account_id\": \"A1\", \"amount\": 7, \"note\": \"x\"}",
    ))
    .unwrap();
    assert_eq!(id, chars("A1"));
    assert_eq!(amount, 7);
    // String escapes in values.
    let id = decode_cmd_payload(&chars("{\"account_id\": \"A\\u0031\"}")).unwrap();
    assert_eq!(id, chars("A1"));
    // A surrogate pair denotes one character beyond the basic plane.
    let id = decode_cmd_payload(&chars("{\"account_id\": \"\\uD83D\\uDE00\"}")).unwrap();
    assert_eq!(id, chars("\u{1F600}"));
    // With a repeated field the last occurrence counts.
    let id =
        decode_cmd_payload(&chars("{\"account_id\": \"A1\", \"account_id\": \"A2\"}")).unwrap();
    assert_eq!(id, chars("A2"));
    // A missing processed_time counts as no timestamp.
    let (id, t) = decode_opened_payload(&chars("{\"account_id\": \"A1\"}")).unwrap();
    assert_eq!(id, chars("A1"));
    assert_eq!(t, None);
    let (p, t) =
        decode_recorded_payload(&chars(" { \"recorded_position\" : 12 } ")).unwrap();
    assert_eq!(p, 12);
    assert_eq!(t, None);
}

#[test]
fn amount_payload_round_trip() {
    for amount in [0u64, 1, 5, 999, u64::MAX] {
        let p = encode_amount_payload(&chars("B-7"), amount);
        let (id, a) = decode_amount_payload(&p).unwrap();
        assert_eq!(id, chars("B-7"));
        assert_eq!(a, amount);
    }
}

#[test]
fn opened_payload_round_trip() {
    for t in [None, Some(0i64), Some(123), Some(-9), Some(i64::MAX), Some(i64::MIN)] {
        let p = encode_opened_payload(&chars("A1"), t);
        let (id, back) = decode_opened_payload(&p).unwrap();
        assert_eq!(id, chars("A1"));
        assert_eq!(back, t);
    }
}

#[test]
fn recorded_payload_round_trip() {
    for (pos, t) in [(0i64, None), (5, Some(77i64)), (i64::MAX, Some(-1))] {
        let p = encode_recorded_payload(pos, t);
        let (back_pos, back_t) = decode_recorded_payload(&p).unwrap();
        assert_eq!(back_pos, pos);
        assert_eq!(back_t, t);
    }
}

#[test]
fn decode_rejects_malformed_payloads() {
    assert!(decode_cmd_payload(&chars("")).is_err());
    assert!(decode_cmd_payload(&chars("{}")).is_err());
    assert!(decode_cmd_payload(&chars("not json")).is_err());
    assert!(decode_cmd_payload(&chars("{\"account\":\"A1\"}")).is_err());
    // Trailing content after the object.
    assert!(decode_cmd_payload(&chars("{\"account_id\":\"A1\"} x")).is_err());
    // An unterminated string.
    assert!(decode_cmd_payload(&chars("{\"account_id\":\"A1}")).is_err());
    // The id must be a string.
    assert!(decode_cmd_payload(&chars("{\"account_id\":7}")).is_err());
    // Missing amount.
    assert!(decode_amount_payload(&chars("{\"account_id\":\"A1\"}")).is_err());
    // Amounts that no u64 holds: too large, negative, fractional,
    // exponent-shaped (nothing here may carry a floating-point number).
    assert!(
        decode_amount_payload(&chars("{\"account_id\":\"A1\",\"amount\":99999999999999999999}"))
            .is_err()
    );
    assert!(decode_amount_payload(&chars("{\"account_id\":\"A1\",\"amount\":-5}")).is_err());
    assert!(decode_amount_payload(&chars("{\"account_id\":\"A1\",\"amount\":2.5}")).is_err());
    assert!(decode_amount_payload(&chars("{\"account_id\":\"A1\",\"amount\":1e3}")).is_err());
    // Missing recorded position, and one out of range.
    assert!(decode_recorded_payload(&chars("{\"processed_time\":null}")).is_err());
    assert!(
        decode_recorded_payload(&chars("{\"recorded_position\":99999999999999999999}")).is_err()
    );
}

#[test]
fn non_integer_times_count_as_none() {
    let (_, t) =
        decode_opened_payload(&chars("{\"account_id\":\"A1\",\"processed_time\":\"x\"}")).unwrap();
    assert_eq!(t, None);
    let (_, t) =
        decode_opened_payload(&chars("{\"account_id\":\"A1\",\"processed_time\":null}")).unwrap();
    assert_eq!(t, None);
}

#[test]
fn number_encodings() {
    let mut v: Vec<char> = Vec::new();
    push_u64(&mut v, 0);
    assert_eq!(string_of(&v), "0");
    let mut v: Vec<char> = Vec::new();
    push_u64(&mut v, 1234567890);
    assert_eq!(string_of(&v), "1234567890");
    let mut v: Vec<char> = Vec::new();
    push_u64(&mut v, u64::MAX);
    assert_eq!(string_of(&v), "18446744073709551615");
    let mut v: Vec<char> = Vec::new();
    push_i64(&mut v, -42);
    assert_eq!(string_of(&v), "-42");
    let mut v: Vec<char> = Vec::new();
    push_i64(&mut v, i64::MIN);
    assert_eq!(string_of(&v), "-9223372036854775808");
}

#[test]
fn number_parsing() {
    assert_eq!(parse_u64(&chars("250x"), 0), Some((250, 3)));
    assert_eq!(parse_u64(&chars("x250"), 0), None);
    assert_eq!(parse_u64(&chars("18446744073709551615"), 0), Some((u64::MAX, 20)));
    assert_eq!(parse_u64(&chars("18446744073709551616"), 0), None);
    assert_eq!(parse_i64(&chars("-42,"), 0), Some((-42, 3)));
    assert_eq!(parse_i64(&chars("-9223372036854775808"), 0), Some((i64::MIN, 20)));
    assert_eq!(parse_i64(&chars("-9223372036854775809"), 0), None);
    assert_eq!(parse_i64(&chars("9223372036854775808"), 0), None);
    assert_eq!(parse_i64(&chars("-"), 0), None);
}
