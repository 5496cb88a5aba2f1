use rust_ssh::protocol::{decode, encode, encode_frame, frame_end, AuthMethod, DecodeError, TypedMessage};

fn round_trip(m: TypedMessage) {
    let text = encode(&m);
    assert_eq!(decode(&text), Ok(m));
}

#[test]
fn encodes_command_as_tagged_json() {
    let m = TypedMessage::Command { command: "ls".to_string() };
    assert_eq!(encode(&m), "{\"Command\":{\"command\":\"ls\"}}");
}

#[test]
fn encodes_every_field_in_order() {
    let m = TypedMessage::Auth {
        auth_method: AuthMethod::Password,
        username: "alice".to_string(),
        secret: "s3cret".to_string(),
    };
    assert_eq!(
        encode(&m),
        "{\"Auth\":{\"auth_method\":\"Password\",\"username\":\"alice\",\"secret\":\"s3cret\"}}"
    );
    let r = TypedMessage::CommandResponse { response: "/dir1".to_string(), success: true };
    assert_eq!(encode(&r), "{\"CommandResponse\":{\"response\":\"/dir1\",\"success\":true}}");
    let c = TypedMessage::TabCompleteResponse {
        completions: vec!["dir1".to_string(), "dir2".to_string()],
    };
    assert_eq!(encode(&c), "{\"TabCompleteResponse\":{\"completions\":[\"dir1\",\"dir2\"]}}");
    let e = TypedMessage::TabCompleteResponse { completions: vec![] };
    assert_eq!(encode(&e), "{\"TabCompleteResponse\":{\"completions\":[]}}");
    let a = TypedMessage::AuthResponse { success: false };
    assert_eq!(encode(&a), "{\"AuthResponse\":{\"success\":false}}");
}

#[test]
fn escapes_like_json() {
    let m = TypedMessage::Command { command: "a\"b\\c\nd\te\u{1}f\u{8}\u{c}\r".to_string() };
    assert_eq!(
        encode(&m),
        "{\"Command\":{\"command\":\"a\\\"b\\\\c\\nd\\te\\u0001f\\b\\f\\r\"}}"
    );
}

#[test]
fn round_trips_every_kind() {
    round_trip(TypedMessage::Command { command: "cd dir1".to_string() });
    round_trip(TypedMessage::Command { command: String::new() });
    round_trip(TypedMessage::CommandResponse { response: "Unknown command".to_string(), success: false });
    round_trip(TypedMessage::CommandResponse { response: "x".to_string(), success: true });
    round_trip(TypedMessage::TabComplete { stdin: "cd di".to_string() });
    round_trip(TypedMessage::TabCompleteResponse { completions: vec![] });
    round_trip(TypedMessage::TabCompleteResponse { completions: vec!["a".to_string()] });
    round_trip(TypedMessage::TabCompleteResponse {
        completions: vec!["a,b".to_string(), "]".to_string(), "\"".to_string()],
    });
    round_trip(TypedMessage::Auth {
        auth_method: AuthMethod::Certificate,
        username: "bob".to_string(),
        secret: "".to_string(),
    });
    round_trip(TypedMessage::AuthResponse { success: true });
    round_trip(TypedMessage::AuthResponse { success: false });
}

#[test]
fn round_trips_unusual_characters() {
    round_trip(TypedMessage::Command { command: "\u{0}\u{1f}\u{7f}é漢🦀\\\"/".to_string() });
    round_trip(TypedMessage::Auth {
        auth_method: AuthMethod::Password,
        username: "\"}}".to_string(),
        secret: "\\u0041".to_string(),
    });
}

#[test]
fn rejects_truncated_and_malformed_text() {
    assert_eq!(decode(""), Err(DecodeError));
    assert_eq!(decode("{\"Command\":{\"command\":\"ls\"}"), Err(DecodeError));
    assert_eq!(decode("{\"Command\":{\"command\":\"ls\"}}x"), Err(DecodeError));
    assert_eq!(decode("{\"Command\":{\"command\":\"l\\qs\"}}"), Err(DecodeError));
    assert_eq!(decode("{\"Nope\":{}}"), Err(DecodeError));
    assert_eq!(decode("{\"AuthResponse\":{\"success\":maybe}}"), Err(DecodeError));
    assert_eq!(decode("not json"), Err(DecodeError));
}

#[test]
fn rejects_text_that_is_not_canonical() {
    // whitespace and an escaped character that needs no escape are valid JSON, but not
    // what the encoder writes
    assert_eq!(decode("{\"Command\": {\"command\":\"ls\"}}"), Err(DecodeError));
    assert_eq!(decode("{\"Command\":{\"command\":\"\\u006c\"}}"), Err(DecodeError));
}

#[test]
fn decodes_what_a_json_peer_sends() {
    let text = "{\"TabComplete\":{\"stdin\":\"cd d\"}}";
    assert_eq!(decode(text), Ok(TypedMessage::TabComplete { stdin: "cd d".to_string() }));
}

#[test]
fn frames_end_at_newline() {
    let m = TypedMessage::AuthResponse { success: true };
    let f = encode_frame(&m);
    assert_eq!(f, "{\"AuthResponse\":{\"success\":true}}\n");
    let m2 = TypedMessage::Command { command: "a\nb".to_string() };
    let f2 = encode_frame(&m2);
    let bytes = f2.as_bytes();
    assert_eq!(frame_end(bytes), Some(bytes.len() - 1));
    assert_eq!(frame_end(b"no newline"), None);
    assert_eq!(frame_end(b"ab\ncd\n"), Some(2));
}
