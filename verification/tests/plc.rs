use plc_relay::plc::{
    decode_text, exten_bool_message, login_message, padded_hex_len, parse_login_reply, handshake_messages, FrameError,
    LoginError,
};

fn exten_expected(key: [u8; 4], var: &[u8], state: bool) -> Vec<u8> {
    hex::decode(format!(
        "0448020004000000070005000c00ddb7{}08010000001413050000000e0050726f436f6e4f535f65434c520002007b000e00526573476c6f62616c566172730002007b00{:02x?}00{}00141c0100000002{:02x?}ff",
        hex::encode(key),
        var.len() + 1,
        hex::encode(var),
        if state { 1 } else { 0 }
    ))
    .unwrap()
}

#[test]
fn exten_message_matches_the_protocol_text() {
    let key = [0xde, 0xad, 0xbe, 0xef];
    assert_eq!(exten_bool_message(&key, b"LED2", true), exten_expected(key, b"LED2", true));
    assert_eq!(exten_bool_message(&key, b"LED2", false), exten_expected(key, b"LED2", false));
}

#[test]
fn exten_message_layout() {
    let key = [1, 2, 3, 4];
    let msg = exten_bool_message(&key, b"LED2", true);
    assert_eq!(&msg[16..20], &key);
    let n = msg.len();
    assert_eq!(&msg[n - 2..], &[1, 0xff]);
    // the name and its length plus one sit before the trailer
    let name_at = n - 2 - 7 - 1 - 4;
    assert_eq!(&msg[name_at..name_at + 4], b"LED2");
    assert_eq!(&msg[name_at - 2..name_at], &[5, 0]);
}

#[test]
fn exten_message_with_long_name() {
    let key = [9, 9, 9, 9];
    let var = vec![b'x'; 5000];
    // 5001 = 0x1389: four digits, written as two bytes
    assert_eq!(exten_bool_message(&key, &var, true), exten_expected(key, &var, true));
}

#[test]
fn padded_hex_lengths() {
    assert_eq!(padded_hex_len(0), 2);
    assert_eq!(padded_hex_len(5), 2);
    assert_eq!(padded_hex_len(255), 2);
    assert_eq!(padded_hex_len(256), 3);
    assert_eq!(padded_hex_len(4096), 4);
    assert_eq!(padded_hex_len(0x12345), 5);
}

#[test]
fn login_message_matches_the_protocol_text() {
    let expected = hex::decode(format!(
        "0440020000000000020001000d00e9bf13{:02x?}00{}0024{:02x?}00{}00ff",
        7,
        hex::encode(b"test22"),
        7,
        hex::encode(b"test22")
    ))
    .unwrap();
    assert_eq!(login_message(b"test22", b"test22"), expected);
}

#[test]
fn login_reply_with_marker_yields_key() {
    let mut reply = vec![0u8; 15];
    reply.extend([191, 39, 9, 0xaa, 0xbb, 0xcc, 0xdd, 0xff]);
    match parse_login_reply(&reply) {
        Ok(key) => assert_eq!(key, [0xaa, 0xbb, 0xcc, 0xdd]),
        Err(_) => panic!("expected a key"),
    }
}

#[test]
fn login_reply_without_marker_fails() {
    let reply = vec![0u8; 18];
    assert!(matches!(parse_login_reply(&reply), Err(LoginError::AuthenticationFailed)));
}

#[test]
fn decode_text_odd_length_fails() {
    assert!(matches!(decode_text(&"abc".to_string()), Err(FrameError::OddLength)));
    match decode_text(&"0aFf".to_string()) {
        Ok(v) => assert_eq!(v, vec![0x0a, 0xff]),
        Err(_) => panic!("expected bytes"),
    }
}

fn login_buffer(payload: &[u8]) -> Vec<u8> {
    let mut buf = vec![0x04, 0x40, 0x02, 0x00, 0x00, 0x00, 0x00, 0x00, 0x02, 0x00, 0x01, 0x00, 0x0d, 0x00, 0xe9, 0xbf, 0x13];
    buf.extend(payload);
    buf.resize(4096, 0);
    buf
}

#[test]
fn credentials_are_read_from_a_login() {
    // two bytes of length field, then "alice\0secret", then three trailing bytes
    let mut payload = vec![0x06, 0x00];
    payload.extend(b"alice\0secret");
    payload.extend([0x00, 0x00, 0xff]);
    let n = 17 + payload.len();
    let buf = login_buffer(&payload);
    match plc_relay::plc::extract_credentials(&buf, n) {
        Some((user, pass)) => {
            assert_eq!(user, "alice");
            assert_eq!(pass, "secret");
        }
        None => panic!("expected credentials"),
    }
}

#[test]
fn other_messages_carry_no_credentials() {
    let buf = vec![0u8; 4096];
    assert!(plc_relay::plc::extract_credentials(&buf, 30).is_none());
}

#[test]
fn handshake_messages_are_the_decoded_protocol_texts() {
    let texts = [
        "04c0070000000000000000000000f43f",
        "04400d0000000400000000000000eabf41727000",
        "04400b0000002e00000000000000c2bf02004172702e506c632e446f6d61696e2e53657276696365732e49506c634d616e61676572536572766963653200",
        "0440020000000000010005000200f1bfff",
        "04400d0000000900000000000000e5bf536563757269747900",
        "04400b0000003e00000000000000b2bf0d004172702e53797374656d2e53656375726974792e53657276696365732e4950617373776f726441757468656e7469636174696f6e5365727669636500",
        "04400b0000003c00000000000000b4bf0d004172702e53797374656d2e53656375726974792e53657276696365732e49536563757269747953657373696f6e496e666f536572766963653300",
        "04400b0000003c00000000000000b4bf0d004172702e53797374656d2e53656375726974792e53657276696365732e49536563757269747953657373696f6e496e666f536572766963653200",
        "0440020000000000030003000d00e6bfff",
        "04400d0000000500000000000000e9bf45636c7200",
        "04400b0000003c00000000000000b4bf0c004164652e436f6d6d6f6e52656d6f74696e672e45636c722e53657276696365732e4950726f436f6e4f53436f6e74726f6c536572766963653200",
        "04400b0000003d00000000000000b3bf0c004164652e436f6d6d6f6e52656d6f74696e672e45636c722e53657276696365732e4953696d706c6546696c65416363657373536572766963653300",
        "04400b0000003700000000000000b9bf0c004164652e436f6d6d6f6e52656d6f74696e672e45636c722e53657276696365732e49446576696365496e666f536572766963653200",
        "0440020000000000060003000c00e4bf1406010000000240ff",
        "0440020000000000060003000c00e4bf1406010000001640ff",
        "04400b0000003700000000000000b9bf0c004164652e436f6d6d6f6e52656d6f74696e672e45636c722e53657276696365732e4944617461416363657373536572766963653300",
        "04400b0000003600000000000000babf0c004164652e436f6d6d6f6e52656d6f74696e672e45636c722e53657276696365732e49427265616b706f696e745365727669636500",
        "04400b0000003e00000000000000b2bf02004172702e53797374656d2e53656375726974792e53657276696365732e4950617373776f7264436f6e66696775726174696f6e536572766963653200",
        "04400b0000003300000000000000bdbf02004172702e4465766963652e496e746572666163652e53657276696365732e49446576696365496e666f5365727669636500",
        "04400b0000003800000000000000b8bf02004172702e53797374656d2e53656375726974792e53657276696365732e49536563757265446576696365496e666f5365727669636500",
        "04400200000000000b0001000200ebbfff",
    ];
    let msgs = handshake_messages();
    assert_eq!(msgs.len(), texts.len());
    for (m, t) in msgs.iter().zip(texts.iter()) {
        assert_eq!(m, &hex::decode(t).unwrap());
    }
    assert_eq!(msgs[0], vec![0x04, 0xc0, 0x07, 0, 0, 0, 0, 0, 0, 0, 0, 0, 0, 0, 0xf4, 0x3f]);
}
