use eventbus_client::json;
use eventbus_client::json::JsonValue;
use eventbus_client::message::{
    DecodeFailure, ErrorMessage, InMessage, Message, OutMessage, SendMessage,
};
use eventbus_client::message::{decode_in, encode_in, encode_out};

const JSON_PING: &str = r#"{"type":"ping"}"#;
const JSON_PONG: &str = r#"{"type":"pong"}"#;
const JSON_SEND: &str =
    r#"{"type":"send","address":"the-address","replyAddress":"the-reply-address","body":{}}"#;
const JSON_RECEIVED: &str = r#"{"type":"message","address":"the-address","body":{}}"#;

#[test]
fn unmarshall_messages() {
    assert_eq!(InMessage::Pong, decode_in(JSON_PONG.as_bytes()).unwrap());

    match decode_in(JSON_RECEIVED.as_bytes()).unwrap() {
        InMessage::Message(msg) => assert_eq!(
            Message {
                address: "the-address".to_string(),
                body: Some(JsonValue::Obj(Vec::new())),
                headers: None
            },
            msg
        ),
        other => panic!("Expecting a message, not {:?}", other),
    };
}

#[test]
fn marshall_messages() {
    let msg = encode_out(OutMessage::Ping);
    assert_eq!(JSON_PING.as_bytes(), msg.as_slice());

    let msg = encode_out(OutMessage::Send(SendMessage {
        address: "the-address".to_string(),
        body: Some(JsonValue::Obj(Vec::new())),
        reply_address: Some("the-reply-address".to_string()),
        headers: None,
    }));
    assert_eq!(JSON_SEND.as_bytes(), msg.as_slice());
}

#[test]
fn marshall_register_and_publish() {
    let msg = encode_out(OutMessage::Register(eventbus_client::message::RegisterMessage {
        address: "out".to_string(),
    }));
    assert_eq!(br#"{"type":"register","address":"out"}"#, msg.as_slice());

    let msg = encode_out(OutMessage::Publish(Message {
        address: "in".to_string(),
        body: Some(JsonValue::Int(7)),
        headers: Some(vec![("k".to_string(), "v".to_string())]),
    }));
    assert_eq!(
        br#"{"type":"publish","address":"in","body":7,"headers":{"k":"v"}}"#,
        msg.as_slice()
    );
}

#[test]
fn decode_err_envelope() {
    let m = decode_in(br#"{"type":"err","message":"FORBIDDEN"}"#).unwrap();
    assert_eq!(
        InMessage::Error(ErrorMessage { message: "FORBIDDEN".to_string() }),
        m
    );
}

#[test]
fn decode_accepts_any_member_order() {
    let m = decode_in(br#"{"address":"a","type":"message"}"#).unwrap();
    match m {
        InMessage::Message(msg) => {
            assert_eq!("a", msg.address);
            assert_eq!(None, msg.body);
            assert_eq!(None, msg.headers);
        }
        other => panic!("Expecting a message, not {:?}", other),
    }
}

#[test]
fn decode_unknown_discriminator_is_an_envelope_error() {
    let e = decode_in(br#"{"type":"nonsense"}"#).unwrap_err();
    assert_eq!(DecodeFailure::BadEnvelope, e.reason);
    assert_eq!(br#"{"type":"nonsense"}"#.to_vec(), e.raw);
}

#[test]
fn decode_malformed_json_is_a_parse_error() {
    let e = decode_in(b"{\"type\":").unwrap_err();
    assert_eq!(DecodeFailure::MalformedJson, e.reason);
    let e = decode_in(b"").unwrap_err();
    assert_eq!(DecodeFailure::MalformedJson, e.reason);
}

#[test]
fn decode_never_panics_on_junk() {
    assert!(decode_in(&[0xff, 0xfe, 0x00]).is_err());
    assert!(decode_in(b"[1,2,3]").is_err());
    assert!(decode_in(b"null").is_err());
    assert!(decode_in(br#"{"type":42}"#).is_err());
    assert!(decode_in(br#"{"type":"message"}"#).is_err());
    assert!(decode_in(br#"{"type":"message","address":"a","headers":3}"#).is_err());
}

#[test]
fn roundtrip_message_with_body_and_headers() {
    let original = InMessage::Message(Message {
        address: "reply-1".to_string(),
        body: Some(JsonValue::Obj(vec![(
            "test".to_string(),
            JsonValue::Str("value".to_string()),
        )])),
        headers: Some(vec![
            ("h1".to_string(), "v1".to_string()),
            ("h2".to_string(), "v2".to_string()),
        ]),
    });
    let bytes = encode_in(original);
    let again = decode_in(&bytes).unwrap();
    let expected = InMessage::Message(Message {
        address: "reply-1".to_string(),
        body: Some(JsonValue::Obj(vec![(
            "test".to_string(),
            JsonValue::Str("value".to_string()),
        )])),
        headers: Some(vec![
            ("h1".to_string(), "v1".to_string()),
            ("h2".to_string(), "v2".to_string()),
        ]),
    });
    assert_eq!(expected, again);
}

#[test]
fn roundtrip_pong_and_err() {
    assert_eq!(
        InMessage::Pong,
        decode_in(&encode_in(InMessage::Pong)).unwrap()
    );
    let e = InMessage::Error(ErrorMessage { message: "access denied".to_string() });
    let bytes = encode_in(e);
    assert_eq!(
        InMessage::Error(ErrorMessage { message: "access denied".to_string() }),
        decode_in(&bytes).unwrap()
    );
}

#[test]
fn json_prints_canonically() {
    let v = JsonValue::Arr(vec![
        JsonValue::Null,
        JsonValue::Bool(true),
        JsonValue::Bool(false),
        JsonValue::Int(-42),
        JsonValue::Str("a\"b\\c\nd".to_string()),
        JsonValue::Obj(Vec::new()),
    ]);
    let bytes = json::to_bytes(&v);
    assert_eq!(
        br#"[null,true,false,-42,"a\"b\\c\nd",{}]"#.to_vec(),
        bytes
    );
}

#[test]
fn json_parses_what_it_prints() {
    let v = JsonValue::Obj(vec![
        ("n".to_string(), JsonValue::Int(i64::MIN)),
        ("m".to_string(), JsonValue::Int(i64::MAX)),
        ("s".to_string(), JsonValue::Str("caf\u{e9} \u{1f600}".to_string())),
        ("a".to_string(), JsonValue::Arr(vec![JsonValue::Int(0)])),
    ]);
    let bytes = json::to_bytes(&v);
    let parsed = json::from_bytes(&bytes).unwrap();
    let expected = JsonValue::Obj(vec![
        ("n".to_string(), JsonValue::Int(i64::MIN)),
        ("m".to_string(), JsonValue::Int(i64::MAX)),
        ("s".to_string(), JsonValue::Str("caf\u{e9} \u{1f600}".to_string())),
        ("a".to_string(), JsonValue::Arr(vec![JsonValue::Int(0)])),
    ]);
    assert_eq!(expected, parsed);
}

#[test]
fn json_accepts_unicode_escapes() {
    let parsed = json::from_bytes(b"\"A\\u00e9\\t\"").unwrap();
    assert_eq!(JsonValue::Str("A\u{e9}\t".to_string()), parsed);
}

#[test]
fn json_rejects_what_it_cannot_hold() {
    assert_eq!(None, json::from_bytes(b"1.5"));
    assert_eq!(None, json::from_bytes(b"1e3"));
    assert_eq!(None, json::from_bytes(b"9223372036854775808"));
    assert_eq!(None, json::from_bytes(b"[1,]"));
    assert_eq!(None, json::from_bytes(b"{\"a\":}"));
    assert_eq!(None, json::from_bytes(b"\"unterminated"));
    assert_eq!(None, json::from_bytes(b"true false"));
    assert_eq!(None, json::from_bytes(br#""\ud800""#));
    assert_eq!(None, json::from_bytes(b""));
}

#[test]
fn json_tolerates_whitespace() {
    let parsed = json::from_bytes(b" { \"a\" : [ 1 , 2 ] , \"b\" : null } \r\n").unwrap();
    let expected = JsonValue::Obj(vec![
        (
            "a".to_string(),
            JsonValue::Arr(vec![JsonValue::Int(1), JsonValue::Int(2)]),
        ),
        ("b".to_string(), JsonValue::Null),
    ]);
    assert_eq!(expected, parsed);
}

#[test]
fn decode_tolerates_whitespace() {
    let m = decode_in(b"{ \"type\": \"message\", \"address\": \"a\" }").unwrap();
    match m {
        InMessage::Message(msg) => assert_eq!("a", msg.address),
        other => panic!("Expecting a message, not {:?}", other),
    }
}

#[test]
fn json_parses_minimum_integer() {
    assert_eq!(
        JsonValue::Int(i64::MIN),
        json::from_bytes(b"-9223372036854775808").unwrap()
    );
    assert_eq!(None, json::from_bytes(b"-9223372036854775809"));
}
