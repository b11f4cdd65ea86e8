//! Wire codec behaviour on concrete values.

use message_pool::codec::{
    decode_message, decode_state, decode_string_array, encode_message, encode_state,
    encode_string_array, ConvertVecToStruct,
};
use message_pool::structs::{Message, MessageKind, StateType};

fn msg(id: u128, sender: &str, kind: MessageKind, payload: Vec<u8>) -> Message {
    Message { id, sender: sender.to_string(), kind, payload }
}

#[test]
fn encode_message_exact_json() {
    let m = msg(5, "n1", MessageKind::Okay, vec![1, 2]);
    let out = encode_message(&m);
    assert_eq!(out, b"{\"id\":5,\"sender\":\"n1\",\"kind\":\"Ok\",\"payload\":[1,2]}".to_vec());
}

#[test]
fn encode_state_exact_json() {
    assert_eq!(encode_state(&StateType::Unknown()), b"\"Unknown\"".to_vec());
    assert_eq!(
        encode_state(&StateType::Ping("ab".to_string())),
        b"{\"Ping\":\"ab\"}".to_vec()
    );
    assert_eq!(
        encode_state(&StateType::ControlNodeStatus("x:1".to_string())),
        b"{\"ControlNodeStatus\":\"x:1\"}".to_vec()
    );
    assert_eq!(
        encode_state(&StateType::NodeList(vec!["a".to_string(), "b".to_string()])),
        b"{\"NodeList\":[\"a\",\"b\"]}".to_vec()
    );
}

#[test]
fn message_round_trip_plain() {
    let m = msg(
        340282366920938463463374607431768211455,
        "127.0.0.1:7001",
        MessageKind::State,
        vec![0, 255, 17],
    );
    let out = encode_message(&m);
    assert_eq!(decode_message(&out), m);
}

#[test]
fn message_round_trip_escapes_and_unicode() {
    let m = msg(
        42,
        "a\"b\\c\u{e9}\u{1f600}\n\u{7f}",
        MessageKind::Distribute,
        vec![104, 101, 108, 108, 111],
    );
    let out = encode_message(&m);
    // the frame is pure ASCII
    assert!(out.iter().all(|b| *b < 0x80));
    assert_eq!(decode_message(&out), m);
}

#[test]
fn message_round_trip_empty_fields() {
    let m = msg(0, "", MessageKind::Error, Vec::new());
    let out = encode_message(&m);
    assert_eq!(decode_message(&out), m);
}

#[test]
fn malformed_bytes_decode_to_error() {
    let bad = b"{\"id\":12,tru".to_vec();
    let m = bad.to_message_struct();
    assert_eq!(m.kind, MessageKind::Error);
    assert_eq!(m.id, 0);
    assert_eq!(m.sender, "");
    assert!(m.payload.is_empty());
    let not_json = vec![0xffu8, 0x01, 0x02];
    assert_eq!(not_json.to_message_struct().kind, MessageKind::Error);
    assert_eq!(Vec::<u8>::new().to_message_struct().kind, MessageKind::Error);
}

#[test]
fn truncated_frame_decodes_to_error() {
    let m = msg(7, "n", MessageKind::Okay, vec![9; 40]);
    let mut out = encode_message(&m);
    out.truncate(out.len() - 3);
    assert_eq!(decode_message(&out).kind, MessageKind::Error);
}

#[test]
fn state_round_trips() {
    for st in [
        StateType::Unknown(),
        StateType::Ping("12ab3:9cd00".to_string()),
        StateType::ControlNodeStatus("127.0.0.1:7002".to_string()),
        StateType::NodeList(vec![]),
        StateType::NodeList(vec!["a:1".to_string(), "b:2".to_string(), "c:3".to_string()]),
    ] {
        let out = encode_state(&st);
        assert_eq!(decode_state(&out), st);
    }
}

#[test]
fn malformed_state_decodes_to_unknown() {
    assert_eq!(b"{\"Ping\":12}".to_vec().to_state_struct(), StateType::Unknown());
    assert_eq!(b"".to_vec().to_state_struct(), StateType::Unknown());
    assert_eq!(b"{\"NodeList\":[\"a\"".to_vec().to_state_struct(), StateType::Unknown());
}

#[test]
fn string_array_round_trip() {
    let v = vec!["x".to_string(), "y:9".to_string()];
    let out = encode_string_array(&v);
    assert_eq!(out, b"[\"x\",\"y:9\"]".to_vec());
    assert_eq!(decode_string_array(&out), Some(v));
    assert_eq!(decode_string_array(&b"[\"x\"".to_vec()), None);
    assert_eq!(decode_string_array(&b"[]".to_vec()), Some(Vec::new()));
}
