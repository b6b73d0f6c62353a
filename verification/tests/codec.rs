use ufo_relay::decode;
use ufo_relay::encode;
use ufo_relay::DecodeError;
use ufo_relay::WireMsg;

fn s(x: &str) -> String {
    x.to_string()
}

#[test]
fn encode_uid_exact() {
    let m = WireMsg::Uid { uid: s("42f") };
    assert_eq!(encode(&m), "{\"type\":\"uid\",\"uid\":\"42f\"}");
}

#[test]
fn encode_ready_exact() {
    assert_eq!(encode(&WireMsg::Ready), "{\"type\":\"ready\"}");
}

#[test]
fn encode_permission_exact() {
    let m = WireMsg::Permission { uid: s("u1"), permissions: vec![s("weather"), s("alerts")] };
    assert_eq!(
        encode(&m),
        "{\"type\":\"permission\",\"uid\":\"u1\",\"permissions\":[\"weather\",\"alerts\"]}"
    );
}

#[test]
fn encode_permission_empty_list() {
    let m = WireMsg::Permission { uid: s("u1"), permissions: vec![] };
    assert_eq!(encode(&m), "{\"type\":\"permission\",\"uid\":\"u1\",\"permissions\":[]}");
}

#[test]
fn encode_message_exact() {
    let m = WireMsg::Message { channel: s("weather"), message: s("73F") };
    assert_eq!(encode(&m), "{\"type\":\"message\",\"channel\":\"weather\",\"message\":\"73F\"}");
}

#[test]
fn encode_broadcast_exact() {
    let m = WireMsg::Broadcast { channel: s("weather"), message: s("73F") };
    assert_eq!(encode(&m), "{\"type\":\"broadcast\",\"channel\":\"weather\",\"message\":\"73F\"}");
}

#[test]
fn encode_subscribe_exact() {
    let m = WireMsg::Subscribe { channel: s("weather") };
    assert_eq!(encode(&m), "{\"type\":\"subscribe\",\"channel\":\"weather\"}");
}

#[test]
fn encode_escapes_quotes_and_backslashes() {
    let m = WireMsg::Subscribe { channel: s("a\"b\\c") };
    assert_eq!(encode(&m), "{\"type\":\"subscribe\",\"channel\":\"a\\\"b\\\\c\"}");
}

#[test]
fn round_trip_all_variants() {
    let msgs = vec![
        WireMsg::Permission { uid: s("u"), permissions: vec![s("a"), s("b\"c")] },
        WireMsg::Permission { uid: s("u"), permissions: vec![] },
        WireMsg::Message { channel: s("ch"), message: s("hi") },
        WireMsg::Broadcast { channel: s("ch"), message: s("hi\\there") },
        WireMsg::Uid { uid: s("0f9-3") },
        WireMsg::Subscribe { channel: s("weather") },
        WireMsg::Ready,
    ];
    for m in msgs {
        let wire = encode(&m);
        assert_eq!(decode(wire.as_str()), Ok(m));
    }
}

#[test]
fn decode_valid_permission() {
    let r = decode("{\"type\":\"permission\",\"uid\":\"u1\",\"permissions\":[\"weather\"]}");
    assert_eq!(r, Ok(WireMsg::Permission { uid: s("u1"), permissions: vec![s("weather")] }));
}

#[test]
fn decode_valid_subscribe() {
    let r = decode("{\"type\":\"subscribe\",\"channel\":\"alerts\"}");
    assert_eq!(r, Ok(WireMsg::Subscribe { channel: s("alerts") }));
}

#[test]
fn decode_rejects_empty_input() {
    assert_eq!(decode(""), Err(DecodeError::Malformed));
}

#[test]
fn decode_rejects_unknown_variant() {
    assert_eq!(decode("{\"type\":\"unknown\",\"x\":\"y\"}"), Err(DecodeError::Malformed));
}

#[test]
fn decode_rejects_truncated_input() {
    assert_eq!(decode("{\"type\":\"message\",\"channel\":\"we"), Err(DecodeError::Malformed));
}

#[test]
fn decode_rejects_trailing_garbage() {
    assert_eq!(decode("{\"type\":\"ready\"}x"), Err(DecodeError::Malformed));
}

#[test]
fn decode_rejects_bad_escape() {
    assert_eq!(
        decode("{\"type\":\"subscribe\",\"channel\":\"a\\nb\"}"),
        Err(DecodeError::Malformed)
    );
}

#[test]
fn decode_rejects_unterminated_list() {
    assert_eq!(
        decode("{\"type\":\"permission\",\"uid\":\"u\",\"permissions\":[\"a\""),
        Err(DecodeError::Malformed)
    );
}
