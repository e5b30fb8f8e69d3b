use sse_gateway::codec::{decode, encode, DecodeError, RetryHint, SseMessage};

fn msg(
    id: Option<&str>,
    data: Option<&str>,
    event: Option<&str>,
    retry: Option<(u64, u32)>,
) -> SseMessage {
    SseMessage {
        id: id.map(|s| s.as_bytes().to_vec()),
        data: data.map(|s| s.as_bytes().to_vec()),
        event: event.map(|s| s.as_bytes().to_vec()),
        retry: retry.map(|(secs, nanos)| RetryHint { secs, nanos }),
    }
}

#[test]
fn encode_all_fields_canonical() {
    let e = msg(Some("42"), Some("hello"), Some("greeting"), Some((5, 250000000)));
    let wire = encode(&e);
    assert_eq!(
        wire,
        br#"{"id":"42","data":"hello","event":"greeting","retry":{"secs":5,"nanos":250000000}}"#
            .to_vec()
    );
}

#[test]
fn encode_empty_is_bare_record() {
    let e = msg(None, None, None, None);
    assert_eq!(encode(&e), b"{}".to_vec());
}

#[test]
fn round_trip_all_fields() {
    let e = msg(Some("a"), Some("payload"), Some("kind"), Some((1, 2)));
    let back = decode(&encode(&e)).unwrap();
    assert_eq!(back, e);
}

#[test]
fn round_trip_single_fields() {
    for e in [
        msg(Some("only-id"), None, None, None),
        msg(None, Some("only data"), None, None),
        msg(None, None, Some("only-event"), None),
        msg(None, None, None, Some((0, 0))),
        msg(None, None, None, Some((u64::MAX, 999999999))),
    ] {
        let back = decode(&encode(&e)).unwrap();
        assert_eq!(back, e);
    }
}

#[test]
fn round_trip_empty_event_emits_no_frame() {
    let e = msg(None, None, None, None);
    let back = decode(&encode(&e)).unwrap();
    assert_eq!(back, e);
    assert!(!back.emits_frame());
}

#[test]
fn emits_frame_iff_any_field_present() {
    assert!(msg(Some("x"), None, None, None).emits_frame());
    assert!(msg(None, Some("x"), None, None).emits_frame());
    assert!(msg(None, None, Some("x"), None).emits_frame());
    assert!(msg(None, None, None, Some((1, 0))).emits_frame());
    assert!(!msg(None, None, None, None).emits_frame());
}

#[test]
fn round_trip_escapes() {
    let e = msg(None, Some("a\"b\\c\nd\te\rf\u{0008}g\u{000c}h\u{0001}i"), None, None);
    let wire = encode(&e);
    let back = decode(&wire).unwrap();
    assert_eq!(back, e);
}

#[test]
fn encode_escapes_exactly() {
    let e = msg(None, Some("\"\\\n\u{0001}"), None, None);
    let wire = encode(&e);
    assert_eq!(wire, br#"{"data":"\"\\\n\u0001"}"#.to_vec());
}

#[test]
fn round_trip_non_ascii_payload() {
    let e = msg(None, Some("héllo — ✓"), None, None);
    let back = decode(&encode(&e)).unwrap();
    assert_eq!(back, e);
}

#[test]
fn decode_accepts_any_member_order() {
    let wire = br#"{"retry":{"secs":3,"nanos":0},"id":"7","data":"x"}"#.to_vec();
    let e = decode(&wire).unwrap();
    assert_eq!(e, msg(Some("7"), Some("x"), None, Some((3, 0))));
}

#[test]
fn decode_accepts_short_and_hex_escapes() {
    let wire = br#"{"data":"\u00e9\u00E9\/\b\f\t"}"#.to_vec();
    let e = decode(&wire).unwrap();
    assert_eq!(e.data.unwrap(), b"\xe9\xe9/\x08\x0c\t".to_vec());
}

#[test]
fn decode_rejects_malformed_structure() {
    for wire in [
        &b""[..],
        b"{",
        b"}",
        b"{}x",
        b"[]",
        b"nonsense",
        br#"{"data":"x""#,
        br#"{"data":x}"#,
        br#"{"data":"a",}"#,
        br#"{"unknown":"a"}"#,
        br#"{" data":"a"}"#,
        br#"{"data":"a","data":"b"}"#,
        br#"{"data":"\x"}"#,
        br#"{"data":"\u004"}"#,
        br#"{"data":"\u0141"}"#,
        b"{\"data\":\"a\x01b\"}",
    ] {
        assert_eq!(decode(&wire.to_vec()), Err(DecodeError::Malformed), "input: {:?}", wire);
    }
}

#[test]
fn decode_rejects_bad_numbers() {
    for wire in [
        &br#"{"retry":{"secs":01,"nanos":0}}"#[..],
        br#"{"retry":{"secs":18446744073709551616,"nanos":0}}"#,
        br#"{"retry":{"secs":1,"nanos":1000000000}}"#,
        br#"{"retry":{"secs":-1,"nanos":0}}"#,
        br#"{"retry":{"secs":1}}"#,
        br#"{"retry":1}"#,
    ] {
        assert_eq!(decode(&wire.to_vec()), Err(DecodeError::Malformed), "input: {:?}", wire);
    }
}

#[test]
fn decode_accepts_whitespace_between_tokens() {
    let wire = b" { \"data\" : \"hello\" ,\t\"id\":\n\"7\" }\n".to_vec();
    let e = decode(&wire).unwrap();
    assert_eq!(e, msg(Some("7"), Some("hello"), None, None));
    let e = decode(&b"{ }".to_vec()).unwrap();
    assert!(!e.emits_frame());
    let e = decode(&br#"{"data": "hello"}"#.to_vec()).unwrap();
    assert_eq!(e.data, Some(b"hello".to_vec()));
}

#[test]
fn decode_accepts_retry_members_in_either_order() {
    let e = decode(&br#"{"retry":{"nanos":5,"secs":1}}"#.to_vec()).unwrap();
    assert_eq!(e.retry, Some(RetryHint { secs: 1, nanos: 5 }));
    let e = decode(&br#"{"retry":{ "secs" : 1 , "nanos" : 5 }}"#.to_vec()).unwrap();
    assert_eq!(e.retry, Some(RetryHint { secs: 1, nanos: 5 }));
}

#[test]
fn decode_number_boundaries() {
    let e = decode(&br#"{"retry":{"secs":18446744073709551615,"nanos":999999999}}"#.to_vec())
        .unwrap();
    assert_eq!(e.retry, Some(RetryHint { secs: u64::MAX, nanos: 999999999 }));
    let e = decode(&br#"{"retry":{"secs":0,"nanos":0}}"#.to_vec()).unwrap();
    assert_eq!(e.retry, Some(RetryHint { secs: 0, nanos: 0 }));
}
