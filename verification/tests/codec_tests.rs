use ping_core::codec::encode_ping;
use ping_core::codec::encode_pong;
use ping_core::codec::parse_ping;
use ping_core::codec::parse_pong;
use ping_core::msg::Ping;
use ping_core::msg::Pong;

#[test]
fn ping_round_trip_simple() {
    let p = Ping { message: b"hi".to_vec(), sequence: 42 };
    let bytes = encode_ping(&p);
    let back = parse_ping(&bytes).expect("canonical frame must parse");
    assert_eq!(back.message, b"hi".to_vec());
    assert_eq!(back.sequence, 42);
}

#[test]
fn pong_round_trip_simple() {
    let p = Pong { message: b"Pong! Responding to: hi".to_vec(), sequence: 42, total_pings: 1 };
    let bytes = encode_pong(&p);
    let back = parse_pong(&bytes).expect("canonical frame must parse");
    assert_eq!(back.message, b"Pong! Responding to: hi".to_vec());
    assert_eq!(back.sequence, 42);
    assert_eq!(back.total_pings, 1);
}

#[test]
fn ping_round_trip_with_escapes() {
    let msg = b"a \"quoted\" \\ back\nslash\ttab\rcr\x01ctl".to_vec();
    let p = Ping { message: msg.clone(), sequence: 7 };
    let bytes = encode_ping(&p);
    let back = parse_ping(&bytes).expect("escaped frame must parse");
    assert_eq!(back.message, msg);
    assert_eq!(back.sequence, 7);
}

#[test]
fn pong_canonical_frame_exact() {
    let p = Pong { message: b"Pong! Responding to: hi".to_vec(), sequence: 42, total_pings: 1 };
    let bytes = encode_pong(&p);
    let expected: &[u8] =
        br#"{"message":"Pong! Responding to: hi","sequence":42,"total_pings":1}"#;
    assert_eq!(bytes, expected.to_vec());
}

#[test]
fn ping_canonical_frame_exact() {
    let p = Ping { message: b"hi".to_vec(), sequence: 42 };
    let bytes = encode_ping(&p);
    let expected: &[u8] = br#"{"message":"hi","sequence":42}"#;
    assert_eq!(bytes, expected.to_vec());
}

#[test]
fn ping_parse_accepts_whitespace_and_field_order() {
    let frame = b" { \"sequence\" : 5 , \"message\" : \"x\" } ".to_vec();
    let back = parse_ping(&frame).expect("reordered frame must parse");
    assert_eq!(back.message, b"x".to_vec());
    assert_eq!(back.sequence, 5);
}

#[test]
fn pong_parse_accepts_field_order() {
    let frame = b"{\"total_pings\":9,\"sequence\":5,\"message\":\"x\"}".to_vec();
    let back = parse_pong(&frame).expect("reordered frame must parse");
    assert_eq!(back.message, b"x".to_vec());
    assert_eq!(back.sequence, 5);
    assert_eq!(back.total_pings, 9);
}

#[test]
fn ping_parse_rejects_non_json() {
    assert!(parse_ping(&b"this is not json".to_vec()).is_none());
    assert!(parse_ping(&b"".to_vec()).is_none());
    assert!(parse_ping(&b"{".to_vec()).is_none());
}

#[test]
fn ping_parse_rejects_missing_field() {
    assert!(parse_ping(&b"{\"message\":\"hi\"}".to_vec()).is_none());
    assert!(parse_ping(&b"{\"sequence\":1}".to_vec()).is_none());
}

#[test]
fn ping_parse_rejects_duplicate_field() {
    assert!(parse_ping(&b"{\"message\":\"a\",\"message\":\"b\"}".to_vec()).is_none());
}

#[test]
fn ping_parse_rejects_unknown_key() {
    assert!(parse_ping(&b"{\"message\":\"a\",\"extra\":1}".to_vec()).is_none());
}

#[test]
fn ping_parse_rejects_trailing_garbage() {
    assert!(parse_ping(&b"{\"message\":\"a\",\"sequence\":1}x".to_vec()).is_none());
}

#[test]
fn ping_parse_rejects_bad_numbers() {
    assert!(parse_ping(&b"{\"message\":\"a\",\"sequence\":01}".to_vec()).is_none());
    assert!(parse_ping(&b"{\"message\":\"a\",\"sequence\":-1}".to_vec()).is_none());
    // one above u64::MAX
    assert!(
        parse_ping(&b"{\"message\":\"a\",\"sequence\":18446744073709551616}".to_vec()).is_none()
    );
}

#[test]
fn sequence_zero_and_max_round_trip() {
    for seq in [0u64, u64::MAX] {
        let p = Ping { message: b"edge".to_vec(), sequence: seq };
        let back = parse_ping(&encode_ping(&p)).expect("edge sequence must parse");
        assert_eq!(back.sequence, seq);
        let q = Pong { message: b"edge".to_vec(), sequence: seq, total_pings: seq };
        let backq = parse_pong(&encode_pong(&q)).expect("edge sequence must parse");
        assert_eq!(backq.sequence, seq);
        assert_eq!(backq.total_pings, seq);
    }
}

#[test]
fn encoded_ping_is_valid_json_for_serde() {
    let p = Ping { message: b"he\"llo\n".to_vec(), sequence: 7 };
    let bytes = encode_ping(&p);
    let v: serde_json::Value = serde_json::from_slice(&bytes).expect("serde_json must accept");
    assert_eq!(v["message"], serde_json::Value::String("he\"llo\n".to_string()));
    assert_eq!(v["sequence"], serde_json::Value::from(7u64));
}

#[test]
fn serde_encoded_frame_parses_here() {
    let mut m = serde_json::Map::new();
    m.insert(
        "message".to_string(),
        serde_json::Value::String("hi there".to_string()),
    );
    m.insert("sequence".to_string(), serde_json::Value::from(3u64));
    let s = serde_json::to_string(&serde_json::Value::Object(m)).unwrap();
    let ping = parse_ping(&s.into_bytes()).expect("serde_json output must parse");
    assert_eq!(ping.message, b"hi there".to_vec());
    assert_eq!(ping.sequence, 3);
}
