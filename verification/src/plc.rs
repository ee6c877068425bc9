//! Framing of the PLC protocol messages that the tools send, and the
//! reading of the PLC's login reply.
//!
//! A message is written as a hex text in which numbers and names are filled
//! in, and the text is then decoded into bytes.

use crate::formatters::{from_utf8_lossy, hex_digit, hex_digit_char, push_char, split_bytes, split_on, utf8_lossy};
use vstd::prelude::*;

verus! {

/// A character that `hex::decode` takes as a hex digit.
pub open spec fn is_hex_char(c: char) -> bool {
    ('0' <= c && c <= '9') || ('a' <= c && c <= 'f') || ('A' <= c && c <= 'F')
}

/// All characters are hex digits.
pub open spec fn all_hex(s: Seq<char>) -> bool {
    forall|i: int| 0 <= i < s.len() ==> is_hex_char(#[trigger] s[i])
}

/// The value of a hex digit.
pub open spec fn hex_value(c: char) -> int {
    if '0' <= c && c <= '9' {
        c as int - 48
    } else if 'a' <= c && c <= 'f' {
        c as int - 87
    } else {
        c as int - 55
    }
}

/// The bytes that a hex text of even length stands for, two digits each,
/// the first digit the high one.
pub open spec fn hex_decoded(s: Seq<char>) -> Seq<u8> {
    Seq::new(s.len() / 2, |i: int| (hex_value(s[2 * i]) * 16 + hex_value(s[2 * i + 1])) as u8)
}

/// The lowercase hex text of bytes, two digits each.
pub open spec fn hex_encoded(b: Seq<u8>) -> Seq<char> {
    Seq::new(2 * b.len(), |i: int| if i % 2 == 0 { hex_digit(b[i / 2] / 16) } else { hex_digit(b[i / 2] % 16) })
}

/// The digits of `n` in lowercase hex, without leading zeros.
pub open spec fn number_hex(n: nat) -> Seq<char>
    decreases n,
{
    if n < 16 {
        seq![hex_digit(n as u8)]
    } else {
        number_hex(n / 16).push(hex_digit((n % 16) as u8))
    }
}

/// `n` as `{:02x?}` writes it: lowercase hex digits, at least two.
pub open spec fn padded_hex(n: nat) -> Seq<char> {
    if n < 16 {
        seq!['0', hex_digit(n as u8)]
    } else {
        number_hex(n)
    }
}

/// `hex::FromHexError`, the error of `hex::decode`.
#[verifier::external_type_specification]
#[verifier::external_body]
pub struct ExFromHexError(hex::FromHexError);

/// `hex::encode`: the lowercase hex text of the bytes.
#[verifier::external_body]
fn hex_encode(data: &[u8]) -> (text: String)
    ensures
        text@ == hex_encoded(data@),
{
    hex::encode(data)
}

/// `hex::decode` of a text: for a text of hex digits, it succeeds exactly
/// when the length is even, and gives the bytes that the digits stand for.
/// (Nothing is said here of texts with other characters.)
#[verifier::external_body]
fn hex_decode(text: &String) -> (res: Result<Vec<u8>, hex::FromHexError>)
    ensures
        all_hex(text@) ==> (res is Ok <==> text@.len() % 2 == 0),
        all_hex(text@) ==> (res matches Ok(v) ==> v@ == hex_decoded(text@)),
{
    hex::decode(text)
}

/// The failure of a text to decode.
pub enum FrameError {
    /// The text has an odd number of digits.
    OddLength,
}

/// Decodes a text of hex digits; it fails exactly when the text is of odd
/// length.
pub fn decode_text(text: &String) -> (res: Result<Vec<u8>, FrameError>)
    requires
        all_hex(text@),
    ensures
        res is Err <==> text@.len() % 2 == 1,
        res matches Ok(v) ==> v@ == hex_decoded(text@),
{
    match hex_decode(text) {
        Ok(v) => Ok(v),
        Err(_) => Err(FrameError::OddLength),
    }
}

/// Appends the digits of `n`.
fn push_number_hex(s: &mut String, n: usize)
    ensures
        final(s)@ == old(s)@ + number_hex(n as nat),
    decreases n,
{
    if n >= 16 {
        push_number_hex(s, n / 16);
    }
    let d: u8 = (n % 16) as u8;
    push_char(s, hex_digit_char(d));
    proof {
        if n < 16 {
            assert(number_hex(n as nat) == seq![hex_digit(n as u8)]);
        }
    }
}

/// Appends `n` as `{:02x?}` writes it.
fn push_padded_hex(s: &mut String, n: usize)
    ensures
        final(s)@ == old(s)@ + padded_hex(n as nat),
{
    if n < 16 {
        push_char(s, '0');
    }
    push_number_hex(s, n);
    proof {
        if n < 16 {
            assert(final(s)@ =~= old(s)@ + padded_hex(n as nat));
        }
    }
}

/// Digits of a number, padded or not, are hex digits.
proof fn lemma_number_hex_digits(n: nat)
    ensures
        all_hex(number_hex(n)),
        all_hex(padded_hex(n)),
    decreases n,
{
    if n >= 16 {
        lemma_number_hex_digits(n / 16);
    }
    lemma_digit_is_hex((n % 16) as u8);
}

/// A lowercase hex digit is a hex digit.
proof fn lemma_digit_is_hex(d: u8)
    requires
        d < 16,
    ensures
        is_hex_char(hex_digit(d)),
{
}

/// Hex texts of bytes are hex digits, two per byte.
proof fn lemma_encoded_hex(b: Seq<u8>)
    ensures
        all_hex(hex_encoded(b)),
        hex_encoded(b).len() == 2 * b.len(),
{
    assert forall|i: int| 0 <= i < hex_encoded(b).len() implies is_hex_char(#[trigger] hex_encoded(b)[i]) by {
        lemma_digit_is_hex(b[i / 2] / 16);
        lemma_digit_is_hex(b[i / 2] % 16);
    }
}

/// Hex digits joined are hex digits.
proof fn lemma_all_hex_concat(a: Seq<char>, b: Seq<char>)
    requires
        all_hex(a),
        all_hex(b),
    ensures
        all_hex(a + b),
{
    assert forall|i: int| 0 <= i < (a + b).len() implies is_hex_char(#[trigger] (a + b)[i]) by {
        if i < a.len() {
            assert((a + b)[i] == a[i]);
        } else {
            assert((a + b)[i] == b[i - a.len()]);
        }
    }
}

/// The hex text of the message that sets the global boolean variable `var`
/// to `state`, for a session with key `key`.
pub open spec fn exten_text(key: Seq<u8>, var: Seq<u8>, state: bool) -> Seq<char> {
    "0448020004000000070005000c00ddb7"@ + hex_encoded(key)
        + "08010000001413050000000e0050726f436f6e4f535f65434c520002007b000e00526573476c6f62616c566172730002007b00"@
        + padded_hex((var.len() + 1) as nat) + "00"@ + hex_encoded(var) + "00141c0100000002"@ + padded_hex(
        if state {
            1nat
        } else {
            0nat
        },
    ) + "ff"@
}

/// The message that sets the global boolean variable `var` to `state`, for
/// a session with key `key`.  The length of `var` plus one is written in
/// hex; an odd number of digits would leave the text undecodable.
pub fn exten_bool_message(key: &[u8; 4], var: &[u8], state: bool) -> (msg: Vec<u8>)
    requires
        var@.len() < usize::MAX,
        padded_hex((var@.len() + 1) as nat).len() % 2 == 0,
    ensures
        msg@ == hex_decoded(exten_text(key@, var@, state)),
{
    let p1 = "0448020004000000070005000c00ddb7";
    let p2 = "08010000001413050000000e0050726f436f6e4f535f65434c520002007b000e00526573476c6f62616c566172730002007b00";
    let p3 = "00";
    let p4 = "00141c0100000002";
    let p5 = "ff";
    proof {
        reveal_strlit("0448020004000000070005000c00ddb7");
        reveal_strlit(
            "08010000001413050000000e0050726f436f6e4f535f65434c520002007b000e00526573476c6f62616c566172730002007b00",
        );
        reveal_strlit("00");
        reveal_strlit("00141c0100000002");
        reveal_strlit("ff");
        lemma_encoded_hex(key@);
        lemma_encoded_hex(var@);
        lemma_number_hex_digits((var@.len() + 1) as nat);
        lemma_number_hex_digits(1);
        lemma_number_hex_digits(0);
    }
    let mut text = String::from_str(p1);
    text.append(hex_encode(key.as_slice()).as_str());
    text.append(p2);
    push_padded_hex(&mut text, var.len() + 1);
    text.append(p3);
    text.append(hex_encode(var).as_str());
    text.append(p4);
    push_padded_hex(&mut text, if state { 1 } else { 0 });
    text.append(p5);
    proof {
        let s = text@;
        assert(s == exten_text(key@, var@, state));
        assert(all_hex(p1@));
        assert(all_hex(p2@));
        assert(all_hex(p3@));
        assert(all_hex(p4@));
        assert(all_hex(p5@));
        assert(all_hex(s)) by {
            assert forall|i: int| 0 <= i < s.len() implies is_hex_char(#[trigger] s[i]) by {
                lemma_all_hex_concat(p1@, hex_encoded(key@));
                lemma_all_hex_concat(p1@ + hex_encoded(key@), p2@);
                lemma_all_hex_concat(p1@ + hex_encoded(key@) + p2@, padded_hex((var@.len() + 1) as nat));
                lemma_all_hex_concat(p1@ + hex_encoded(key@) + p2@ + padded_hex((var@.len() + 1) as nat), p3@);
                lemma_all_hex_concat(
                    p1@ + hex_encoded(key@) + p2@ + padded_hex((var@.len() + 1) as nat) + p3@,
                    hex_encoded(var@),
                );
                lemma_all_hex_concat(
                    p1@ + hex_encoded(key@) + p2@ + padded_hex((var@.len() + 1) as nat) + p3@ + hex_encoded(
                        var@,
                    ),
                    p4@,
                );
                lemma_all_hex_concat(
                    p1@ + hex_encoded(key@) + p2@ + padded_hex((var@.len() + 1) as nat) + p3@ + hex_encoded(
                        var@,
                    ) + p4@,
                    padded_hex(if state { 1nat } else { 0nat }),
                );
                lemma_all_hex_concat(
                    p1@ + hex_encoded(key@) + p2@ + padded_hex((var@.len() + 1) as nat) + p3@ + hex_encoded(
                        var@,
                    ) + p4@ + padded_hex(if state { 1nat } else { 0nat }),
                    p5@,
                );
            }
        }
    }
    match decode_text(&text) {
        Ok(v) => v,
        Err(_) => {
            proof {
                assert(false);
            }
            Vec::new()
        },
    }
}

/// How many digits `{:02x?}` writes for `n`.
pub fn padded_hex_len(n: usize) -> (len: usize)
    ensures
        len == padded_hex(n as nat).len(),
{
    let mut s = String::new();
    push_padded_hex(&mut s, n);
    s.as_str().unicode_len()
}

/// The hex text of the login message for `username` and `password`.
pub open spec fn login_text(username: Seq<u8>, password: Seq<u8>) -> Seq<char> {
    "0440020000000000020001000d00e9bf13"@ + padded_hex((username.len() + 1) as nat) + "00"@
        + hex_encoded(username) + "0024"@ + padded_hex((password.len() + 1) as nat) + "00"@
        + hex_encoded(password) + "00ff"@
}

/// The login message for `username` and `password`.  Their lengths plus one
/// are written in hex; together the two numbers need an even count of
/// digits for the text to decode.
pub fn login_message(username: &[u8], password: &[u8]) -> (msg: Vec<u8>)
    requires
        username@.len() < usize::MAX,
        password@.len() < usize::MAX,
        (padded_hex((username@.len() + 1) as nat).len() + padded_hex((password@.len() + 1) as nat).len())
            % 2 == 0,
    ensures
        msg@ == hex_decoded(login_text(username@, password@)),
{
    let p1 = "0440020000000000020001000d00e9bf13";
    let p2 = "00";
    let p3 = "0024";
    let p4 = "00ff";
    proof {
        reveal_strlit("0440020000000000020001000d00e9bf13");
        reveal_strlit("00");
        reveal_strlit("0024");
        reveal_strlit("00ff");
        lemma_encoded_hex(username@);
        lemma_encoded_hex(password@);
        lemma_number_hex_digits((username@.len() + 1) as nat);
        lemma_number_hex_digits((password@.len() + 1) as nat);
    }
    let mut text = String::from_str(p1);
    push_padded_hex(&mut text, username.len() + 1);
    text.append(p2);
    text.append(hex_encode(username).as_str());
    text.append(p3);
    push_padded_hex(&mut text, password.len() + 1);
    text.append(p2);
    text.append(hex_encode(password).as_str());
    text.append(p4);
    proof {
        let s = text@;
        let u = padded_hex((username@.len() + 1) as nat);
        let w = padded_hex((password@.len() + 1) as nat);
        assert(s == login_text(username@, password@));
        assert(all_hex(p1@));
        assert(all_hex(p2@));
        assert(all_hex(p3@));
        assert(all_hex(p4@));
        lemma_all_hex_concat(p1@, u);
        lemma_all_hex_concat(p1@ + u, p2@);
        lemma_all_hex_concat(p1@ + u + p2@, hex_encoded(username@));
        lemma_all_hex_concat(p1@ + u + p2@ + hex_encoded(username@), p3@);
        lemma_all_hex_concat(p1@ + u + p2@ + hex_encoded(username@) + p3@, w);
        lemma_all_hex_concat(p1@ + u + p2@ + hex_encoded(username@) + p3@ + w, p2@);
        lemma_all_hex_concat(p1@ + u + p2@ + hex_encoded(username@) + p3@ + w + p2@, hex_encoded(password@));
        lemma_all_hex_concat(
            p1@ + u + p2@ + hex_encoded(username@) + p3@ + w + p2@ + hex_encoded(password@),
            p4@,
        );
    }
    match decode_text(&text) {
        Ok(v) => v,
        Err(_) => {
            proof {
                assert(false);
            }
            Vec::new()
        },
    }
}

/// Why a login failed.
pub enum LoginError {
    /// The reply does not carry the session key marker.
    AuthenticationFailed,
}

/// The marker that precedes the session key in a login reply.
pub open spec fn has_key_marker(reply: Seq<u8>) -> bool {
    reply[15] == 191 && reply[16] == 39 && reply[17] == 9
}

/// The outcome of a login reply: the four bytes after the marker at bytes
/// 15 to 17 are the session key; a reply without the marker is a refusal.
pub open spec fn login_outcome(reply: Seq<u8>) -> Result<Seq<u8>, LoginError> {
    if has_key_marker(reply) {
        Ok(reply.subrange(18, 22))
    } else {
        Err(LoginError::AuthenticationFailed)
    }
}

/// Reads the session key from the PLC's reply to the login message.  The
/// reply must reach past the marker, and past the key when the marker is
/// there.
pub fn parse_login_reply(reply: &Vec<u8>) -> (res: Result<[u8; 4], LoginError>)
    requires
        reply@.len() >= 18,
        has_key_marker(reply@) ==> reply@.len() >= 22,
    ensures
        match (res, login_outcome(reply@)) {
            (Ok(key), Ok(expected)) => key@ == expected,
            (Err(LoginError::AuthenticationFailed), Err(LoginError::AuthenticationFailed)) => true,
            _ => false,
        },
{
    if reply[15] == 191 && reply[16] == 39 && reply[17] == 9 {
        let key: [u8; 4] = [reply[18], reply[19], reply[20], reply[21]];
        assert(key@ =~= reply@.subrange(18, 22));
        Ok(key)
    } else {
        Err(LoginError::AuthenticationFailed)
    }
}

/// Decoding the hex text of bytes gives the bytes back.
pub proof fn lemma_decode_encode(b: Seq<u8>)
    ensures
        hex_decoded(hex_encoded(b)) == b,
{
    assert forall|i: int| 0 <= i < b.len() implies #[trigger] hex_decoded(hex_encoded(b))[i] == b[i] by {
        let e = hex_encoded(b);
        assert(e[2 * i] == hex_digit(b[i] / 16));
        assert(e[2 * i + 1] == hex_digit(b[i] % 16));
        lemma_digit_value(b[i] / 16);
        lemma_digit_value(b[i] % 16);
    }
    assert(hex_decoded(hex_encoded(b)) =~= b);
}

/// A digit stands for its own value.
pub(crate) proof fn lemma_digit_value(d: u8)
    requires
        d < 16,
    ensures
        hex_value(hex_digit(d)) == d,
{
}

/// A text of even length decodes piece by piece.
pub proof fn lemma_decode_concat(a: Seq<char>, b: Seq<char>)
    requires
        a.len() % 2 == 0,
    ensures
        hex_decoded(a + b) == hex_decoded(a) + hex_decoded(b),
{
    assert forall|i: int| 0 <= i < hex_decoded(a + b).len() implies #[trigger] hex_decoded(a + b)[i] == (
    hex_decoded(a) + hex_decoded(b))[i] by {
        if i >= a.len() / 2 {
            assert((a + b)[2 * i] == b[2 * i - a.len()]);
            assert((a + b)[2 * i + 1] == b[2 * i + 1 - a.len()]);
            assert(2 * (i - a.len() / 2) == 2 * i - a.len());
        }
    }
    assert(hex_decoded(a + b) =~= hex_decoded(a) + hex_decoded(b));
}

/// A number below 256 written with `{:02x?}` is one byte.
proof fn lemma_small_number(n: nat)
    requires
        n < 256,
    ensures
        padded_hex(n).len() == 2,
        hex_decoded(padded_hex(n)) == seq![n as u8],
{
    if n >= 16 {
        assert(n / 16 < 16);
        lemma_digit_value((n / 16) as u8);
        lemma_digit_value((n % 16) as u8);
        assert(number_hex(n / 16) == seq![hex_digit((n / 16) as u8)]);
    } else {
        lemma_digit_value(n as u8);
        assert(hex_value('0') == 0);
    }
    assert(hex_decoded(padded_hex(n)) =~= seq![n as u8]);
}

/// With a name shorter than 255 bytes, the message that sets a global
/// boolean is: a fixed header, the session key, the variable service path,
/// the name's length plus one and a zero byte, the name, a fixed trailer,
/// the state as 0 or 1, and 0xff.
pub proof fn lemma_exten_layout(key: Seq<u8>, var: Seq<u8>, state: bool)
    requires
        var.len() + 1 < 256,
    ensures
        hex_decoded(exten_text(key, var, state)) == hex_decoded("0448020004000000070005000c00ddb7"@) + key
            + hex_decoded(
            "08010000001413050000000e0050726f436f6e4f535f65434c520002007b000e00526573476c6f62616c566172730002007b00"@,
        ) + seq![(var.len() + 1) as u8, 0u8] + var + hex_decoded("00141c0100000002"@) + seq![
            if state {
                1u8
            } else {
                0u8
            },
            0xffu8,
        ],
{
    let p1 = "0448020004000000070005000c00ddb7"@;
    let p2 = "08010000001413050000000e0050726f436f6e4f535f65434c520002007b000e00526573476c6f62616c566172730002007b00"@;
    let p3 = "00"@;
    let p4 = "00141c0100000002"@;
    let p5 = "ff"@;
    reveal_strlit("0448020004000000070005000c00ddb7");
    reveal_strlit(
        "08010000001413050000000e0050726f436f6e4f535f65434c520002007b000e00526573476c6f62616c566172730002007b00",
    );
    reveal_strlit("00");
    reveal_strlit("00141c0100000002");
    reveal_strlit("ff");
    let n1 = padded_hex((var.len() + 1) as nat);
    let n2 = padded_hex(if state { 1nat } else { 0nat });
    lemma_small_number((var.len() + 1) as nat);
    lemma_small_number(if state { 1nat } else { 0nat });
    lemma_encoded_hex(key);
    lemma_encoded_hex(var);
    lemma_decode_encode(key);
    lemma_decode_encode(var);
    let k = hex_encoded(key);
    let v = hex_encoded(var);
    lemma_decode_concat(p1, k);
    lemma_decode_concat(p1 + k, p2);
    lemma_decode_concat(p1 + k + p2, n1);
    lemma_decode_concat(p1 + k + p2 + n1, p3);
    lemma_decode_concat(p1 + k + p2 + n1 + p3, v);
    lemma_decode_concat(p1 + k + p2 + n1 + p3 + v, p4);
    lemma_decode_concat(p1 + k + p2 + n1 + p3 + v + p4, n2);
    lemma_decode_concat(p1 + k + p2 + n1 + p3 + v + p4 + n2, p5);
    assert(hex_decoded(p3) =~= seq![0u8]) by {
        assert(hex_value('0') == 0);
    }
    assert(hex_decoded(p5) =~= seq![0xffu8]) by {
        assert(hex_value('f') == 15);
    }
    assert(hex_decoded(exten_text(key, var, state)) =~= hex_decoded(p1) + key + hex_decoded(p2) + seq![
        (var.len() + 1) as u8,
        0u8,
    ] + var + hex_decoded(p4) + seq![if state { 1u8 } else { 0u8 }, 0xffu8]);
}

/// With both lengths below 255, the login message is: the login prefix,
/// the user name's length plus one and a zero byte, the user name, the
/// bytes 0x00 0x24, the password's length plus one and a zero byte, the
/// password, and 0x00 0xff.
pub proof fn lemma_login_layout(username: Seq<u8>, password: Seq<u8>)
    requires
        username.len() + 1 < 256,
        password.len() + 1 < 256,
    ensures
        hex_decoded(login_text(username, password)) == login_prefix() + seq![(username.len() + 1) as u8, 0u8]
            + username + seq![0u8, 0x24u8, (password.len() + 1) as u8, 0u8] + password + seq![0u8, 0xffu8],
{
    let p1 = "0440020000000000020001000d00e9bf13"@;
    let p2 = "00"@;
    let p3 = "0024"@;
    let p4 = "00ff"@;
    reveal_strlit("0440020000000000020001000d00e9bf13");
    reveal_strlit("00");
    reveal_strlit("0024");
    reveal_strlit("00ff");
    let n1 = padded_hex((username.len() + 1) as nat);
    let n2 = padded_hex((password.len() + 1) as nat);
    lemma_small_number((username.len() + 1) as nat);
    lemma_small_number((password.len() + 1) as nat);
    lemma_encoded_hex(username);
    lemma_encoded_hex(password);
    lemma_decode_encode(username);
    lemma_decode_encode(password);
    let u = hex_encoded(username);
    let w = hex_encoded(password);
    lemma_decode_concat(p1, n1);
    lemma_decode_concat(p1 + n1, p2);
    lemma_decode_concat(p1 + n1 + p2, u);
    lemma_decode_concat(p1 + n1 + p2 + u, p3);
    lemma_decode_concat(p1 + n1 + p2 + u + p3, n2);
    lemma_decode_concat(p1 + n1 + p2 + u + p3 + n2, p2);
    lemma_decode_concat(p1 + n1 + p2 + u + p3 + n2 + p2, w);
    lemma_decode_concat(p1 + n1 + p2 + u + p3 + n2 + p2 + w, p4);
    assert(hex_decoded(p1) =~= login_prefix()) by {
        assert(hex_value('0') == 0);
        assert(hex_value('1') == 1);
        assert(hex_value('2') == 2);
        assert(hex_value('3') == 3);
        assert(hex_value('4') == 4);
        assert(hex_value('9') == 9);
        assert(hex_value('b') == 11);
        assert(hex_value('d') == 13);
        assert(hex_value('e') == 14);
        assert(hex_value('f') == 15);
    }
    assert(hex_decoded(p2) =~= seq![0u8]) by {
        assert(hex_value('0') == 0);
    }
    assert(hex_decoded(p3) =~= seq![0u8, 0x24u8]) by {
        assert(hex_value('0') == 0);
        assert(hex_value('2') == 2);
        assert(hex_value('4') == 4);
    }
    assert(hex_decoded(p4) =~= seq![0u8, 0xffu8]) by {
        assert(hex_value('0') == 0);
        assert(hex_value('f') == 15);
    }
    assert(hex_decoded(login_text(username, password)) =~= login_prefix() + seq![
        (username.len() + 1) as u8,
        0u8,
    ] + username + seq![0u8, 0x24u8, (password.len() + 1) as u8, 0u8] + password + seq![0u8, 0xffu8]);
}

/// A reply that carries the marker at bytes 15 to 17 yields the four bytes
/// after it as the key, whatever else the reply holds.
pub proof fn lemma_login_key_read(head: Seq<u8>, key: Seq<u8>, rest: Seq<u8>)
    requires
        head.len() == 15,
        key.len() == 4,
    ensures
        login_outcome(head + seq![191u8, 39u8, 9u8] + key + rest) == Ok::<Seq<u8>, LoginError>(key),
{
    let r = head + seq![191u8, 39u8, 9u8] + key + rest;
    assert(r.subrange(18, 22) =~= key);
}

/// The bytes that begin a login message as the PLC's TLS front end passes
/// it on.
pub open spec fn login_prefix() -> Seq<u8> {
    seq![0x04u8, 0x40, 0x02, 0x00, 0x00, 0x00, 0x00, 0x00, 0x02, 0x00, 0x01, 0x00, 0x0d, 0x00, 0xe9, 0xbf, 0x13]
}

/// The user name and password in a login message read into `buf`, `n`
/// bytes of it fresh: the text between byte 19 and the last three bytes,
/// split at zero bytes; the first piece is the user name, the last the
/// password.
pub open spec fn credentials_of(buf: Seq<u8>, n: nat) -> Option<(Seq<char>, Seq<char>)> {
    if buf.take(17) == login_prefix() {
        let fields = split_on(buf.subrange(19, n - 3), 0);
        Some((utf8_lossy(fields[0]), utf8_lossy(fields.last())))
    } else {
        None
    }
}

/// In a login message the user name is the text before the first zero byte
/// of bytes 19 up to the last three, and the password the text after the
/// last zero byte there.
pub proof fn lemma_credentials_fields(
    buf: Seq<u8>,
    n: nat,
    username: Seq<u8>,
    after_user: Seq<u8>,
    before_pass: Seq<u8>,
    password: Seq<u8>,
)
    requires
        buf.take(17) == login_prefix(),
        22 <= n <= buf.len(),
        buf.subrange(19, n - 3) == username + seq![0u8] + after_user,
        buf.subrange(19, n - 3) == before_pass + seq![0u8] + password,
        forall|i: int| 0 <= i < username.len() ==> username[i] != 0,
        forall|i: int| 0 <= i < password.len() ==> password[i] != 0,
    ensures
        credentials_of(buf, n) == Some((utf8_lossy(username), utf8_lossy(password))),
{
    crate::formatters::lemma_split_first(username, 0, after_user);
    crate::formatters::lemma_split_last(before_pass, 0, password);
}

/// Where bytes 19 up to the last three of a login message hold no zero
/// byte, they are both the user name and the password.
pub proof fn lemma_credentials_one_field(buf: Seq<u8>, n: nat)
    requires
        buf.take(17) == login_prefix(),
        22 <= n <= buf.len(),
        forall|i: int| 19 <= i < n - 3 ==> buf[i] != 0,
    ensures
        credentials_of(buf, n) == Some((utf8_lossy(buf.subrange(19, n - 3)), utf8_lossy(buf.subrange(19, n - 3)))),
{
    crate::formatters::lemma_split_whole(buf.subrange(19, n - 3), 0);
}

/// A buffer that does not begin with the login prefix yields no
/// credentials.
pub proof fn lemma_credentials_need_prefix(buf: Seq<u8>, n: nat)
    requires
        buf.take(17) != login_prefix(),
    ensures
        credentials_of(buf, n) is None,
{
}

/// Picks the user name and password out of a login message passing through
/// the TPM proxy's read buffer, which holds `n` fresh bytes.  The buffer is
/// tested for the login prefix whatever `n` is; a login message must reach
/// beyond byte 21.
pub fn extract_credentials(buf: &Vec<u8>, n: usize) -> (res: Option<(String, String)>)
    requires
        buf@.len() >= 17,
        buf@.take(17) == login_prefix() ==> 22 <= n <= buf@.len(),
    ensures
        match (res, credentials_of(buf@, n as nat)) {
            (Some((user, pass)), Some((u, p))) => user@ == u && pass@ == p,
            (None, None) => true,
            _ => false,
        },
{
    let prefix: [u8; 17] = [0x04, 0x40, 0x02, 0x00, 0x00, 0x00, 0x00, 0x00, 0x02, 0x00, 0x01, 0x00, 0x0d, 0x00, 0xe9, 0xbf, 0x13];
    let mut i: usize = 0;
    while i < 17
        invariant
            i <= 17,
            buf@.len() >= 17,
            prefix@ == login_prefix(),
            forall|k: int| 0 <= k < i ==> buf@[k] == login_prefix()[k],
        decreases 17 - i,
    {
        if buf[i] != prefix[i] {
            assert(buf@.take(17)[i as int] != login_prefix()[i as int]);
            return None;
        }
        i = i + 1;
    }
    assert(buf@.take(17) =~= login_prefix());
    let mut text: Vec<u8> = Vec::new();
    let mut j: usize = 19;
    while j < n - 3
        invariant
            19 <= j <= n - 3,
            22 <= n <= buf@.len(),
            text@ == buf@.subrange(19, j as int),
        decreases n - 3 - j,
    {
        text.push(buf[j]);
        j = j + 1;
        assert(text@ =~= buf@.subrange(19, j as int));
    }
    let fields = split_bytes(&text, 0);
    proof {
        crate::formatters::lemma_split_nonempty(text@, 0);
    }
    let user = from_utf8_lossy(fields[0].as_slice());
    let pass = from_utf8_lossy(fields[fields.len() - 1].as_slice());
    Some((user, pass))
}

/// The hex texts of the fixed messages that open a session, in the order
/// they are sent.
pub open spec fn handshake_text(i: int) -> Seq<char> {
    if i == 0 {
        "04c0070000000000000000000000f43f"@
    } else if i == 1 {
        "04400d0000000400000000000000eabf41727000"@
    } else if i == 2 {
        "04400b0000002e00000000000000c2bf02004172702e506c632e446f6d61696e2e53657276696365732e49506c634d616e61676572536572766963653200"@
    } else if i == 3 {
        "0440020000000000010005000200f1bfff"@
    } else if i == 4 {
        "04400d0000000900000000000000e5bf536563757269747900"@
    } else if i == 5 {
        "04400b0000003e00000000000000b2bf0d004172702e53797374656d2e53656375726974792e53657276696365732e4950617373776f726441757468656e7469636174696f6e5365727669636500"@
    } else if i == 6 {
        "04400b0000003c00000000000000b4bf0d004172702e53797374656d2e53656375726974792e53657276696365732e49536563757269747953657373696f6e496e666f536572766963653300"@
    } else if i == 7 {
        "04400b0000003c00000000000000b4bf0d004172702e53797374656d2e53656375726974792e53657276696365732e49536563757269747953657373696f6e496e666f536572766963653200"@
    } else if i == 8 {
        "0440020000000000030003000d00e6bfff"@
    } else if i == 9 {
        "04400d0000000500000000000000e9bf45636c7200"@
    } else if i == 10 {
        "04400b0000003c00000000000000b4bf0c004164652e436f6d6d6f6e52656d6f74696e672e45636c722e53657276696365732e4950726f436f6e4f53436f6e74726f6c536572766963653200"@
    } else if i == 11 {
        "04400b0000003d00000000000000b3bf0c004164652e436f6d6d6f6e52656d6f74696e672e45636c722e53657276696365732e4953696d706c6546696c65416363657373536572766963653300"@
    } else if i == 12 {
        "04400b0000003700000000000000b9bf0c004164652e436f6d6d6f6e52656d6f74696e672e45636c722e53657276696365732e49446576696365496e666f536572766963653200"@
    } else if i == 13 {
        "0440020000000000060003000c00e4bf1406010000000240ff"@
    } else if i == 14 {
        "0440020000000000060003000c00e4bf1406010000001640ff"@
    } else if i == 15 {
        "04400b0000003700000000000000b9bf0c004164652e436f6d6d6f6e52656d6f74696e672e45636c722e53657276696365732e4944617461416363657373536572766963653300"@
    } else if i == 16 {
        "04400b0000003600000000000000babf0c004164652e436f6d6d6f6e52656d6f74696e672e45636c722e53657276696365732e49427265616b706f696e745365727669636500"@
    } else if i == 17 {
        "04400b0000003e00000000000000b2bf02004172702e53797374656d2e53656375726974792e53657276696365732e4950617373776f7264436f6e66696775726174696f6e536572766963653200"@
    } else if i == 18 {
        "04400b0000003300000000000000bdbf02004172702e4465766963652e496e746572666163652e53657276696365732e49446576696365496e666f5365727669636500"@
    } else if i == 19 {
        "04400b0000003800000000000000b8bf02004172702e53797374656d2e53656375726974792e53657276696365732e49536563757265446576696365496e666f5365727669636500"@
    } else {
        "04400200000000000b0001000200ebbfff"@
    }
}

/// The bytes of a constant hex text.
fn decode_constant(text: &str) -> (bytes: Vec<u8>)
    requires
        all_hex(text@),
        text@.len() % 2 == 0,
    ensures
        bytes@ == hex_decoded(text@),
{
    let s = String::from_str(text);
    match decode_text(&s) {
        Ok(v) => v,
        Err(_) => {
            proof {
                assert(false);
            }
            Vec::new()
        },
    }
}

/// The fixed messages that open a session, before the login: each the
/// bytes of its hex text, in order.
#[verifier::rlimit(50)]
pub fn handshake_messages() -> (msgs: Vec<Vec<u8>>)
    ensures
        msgs@.len() == 21,
        forall|i: int| 0 <= i < 21 ==> (#[trigger] msgs@[i])@ == hex_decoded(handshake_text(i)),
{
    let mut msgs: Vec<Vec<u8>> = Vec::new();
    let t = "04c0070000000000000000000000f43f";
    assert(all_hex(t@) && t@.len() % 2 == 0 && t@ == handshake_text(0)) by {
        reveal_strlit("04c0070000000000000000000000f43f");
    }
    msgs.push(decode_constant(t));
    let t = "04400d0000000400000000000000eabf41727000";
    assert(all_hex(t@) && t@.len() % 2 == 0 && t@ == handshake_text(1)) by {
        reveal_strlit("04400d0000000400000000000000eabf41727000");
    }
    msgs.push(decode_constant(t));
    let t = "04400b0000002e00000000000000c2bf02004172702e506c632e446f6d61696e2e53657276696365732e49506c634d616e61676572536572766963653200";
    assert(all_hex(t@) && t@.len() % 2 == 0 && t@ == handshake_text(2)) by {
        reveal_strlit("04400b0000002e00000000000000c2bf02004172702e506c632e446f6d61696e2e53657276696365732e49506c634d616e61676572536572766963653200");
    }
    msgs.push(decode_constant(t));
    let t = "0440020000000000010005000200f1bfff";
    assert(all_hex(t@) && t@.len() % 2 == 0 && t@ == handshake_text(3)) by {
        reveal_strlit("0440020000000000010005000200f1bfff");
    }
    msgs.push(decode_constant(t));
    let t = "04400d0000000900000000000000e5bf536563757269747900";
    assert(all_hex(t@) && t@.len() % 2 == 0 && t@ == handshake_text(4)) by {
        reveal_strlit("04400d0000000900000000000000e5bf536563757269747900");
    }
    msgs.push(decode_constant(t));
    let t = "04400b0000003e00000000000000b2bf0d004172702e53797374656d2e53656375726974792e53657276696365732e4950617373776f726441757468656e7469636174696f6e5365727669636500";
    assert(all_hex(t@) && t@.len() % 2 == 0 && t@ == handshake_text(5)) by {
        reveal_strlit("04400b0000003e00000000000000b2bf0d004172702e53797374656d2e53656375726974792e53657276696365732e4950617373776f726441757468656e7469636174696f6e5365727669636500");
    }
    msgs.push(decode_constant(t));
    let t = "04400b0000003c00000000000000b4bf0d004172702e53797374656d2e53656375726974792e53657276696365732e49536563757269747953657373696f6e496e666f536572766963653300";
    assert(all_hex(t@) && t@.len() % 2 == 0 && t@ == handshake_text(6)) by {
        reveal_strlit("04400b0000003c00000000000000b4bf0d004172702e53797374656d2e53656375726974792e53657276696365732e49536563757269747953657373696f6e496e666f536572766963653300");
    }
    msgs.push(decode_constant(t));
    let t = "04400b0000003c00000000000000b4bf0d004172702e53797374656d2e53656375726974792e53657276696365732e49536563757269747953657373696f6e496e666f536572766963653200";
    assert(all_hex(t@) && t@.len() % 2 == 0 && t@ == handshake_text(7)) by {
        reveal_strlit("04400b0000003c00000000000000b4bf0d004172702e53797374656d2e53656375726974792e53657276696365732e49536563757269747953657373696f6e496e666f536572766963653200");
    }
    msgs.push(decode_constant(t));
    let t = "0440020000000000030003000d00e6bfff";
    assert(all_hex(t@) && t@.len() % 2 == 0 && t@ == handshake_text(8)) by {
        reveal_strlit("0440020000000000030003000d00e6bfff");
    }
    msgs.push(decode_constant(t));
    let t = "04400d0000000500000000000000e9bf45636c7200";
    assert(all_hex(t@) && t@.len() % 2 == 0 && t@ == handshake_text(9)) by {
        reveal_strlit("04400d0000000500000000000000e9bf45636c7200");
    }
    msgs.push(decode_constant(t));
    let t = "04400b0000003c00000000000000b4bf0c004164652e436f6d6d6f6e52656d6f74696e672e45636c722e53657276696365732e4950726f436f6e4f53436f6e74726f6c536572766963653200";
    assert(all_hex(t@) && t@.len() % 2 == 0 && t@ == handshake_text(10)) by {
        reveal_strlit("04400b0000003c00000000000000b4bf0c004164652e436f6d6d6f6e52656d6f74696e672e45636c722e53657276696365732e4950726f436f6e4f53436f6e74726f6c536572766963653200");
    }
    msgs.push(decode_constant(t));
    let t = "04400b0000003d00000000000000b3bf0c004164652e436f6d6d6f6e52656d6f74696e672e45636c722e53657276696365732e4953696d706c6546696c65416363657373536572766963653300";
    assert(all_hex(t@) && t@.len() % 2 == 0 && t@ == handshake_text(11)) by {
        reveal_strlit("04400b0000003d00000000000000b3bf0c004164652e436f6d6d6f6e52656d6f74696e672e45636c722e53657276696365732e4953696d706c6546696c65416363657373536572766963653300");
    }
    msgs.push(decode_constant(t));
    let t = "04400b0000003700000000000000b9bf0c004164652e436f6d6d6f6e52656d6f74696e672e45636c722e53657276696365732e49446576696365496e666f536572766963653200";
    assert(all_hex(t@) && t@.len() % 2 == 0 && t@ == handshake_text(12)) by {
        reveal_strlit("04400b0000003700000000000000b9bf0c004164652e436f6d6d6f6e52656d6f74696e672e45636c722e53657276696365732e49446576696365496e666f536572766963653200");
    }
    msgs.push(decode_constant(t));
    let t = "0440020000000000060003000c00e4bf1406010000000240ff";
    assert(all_hex(t@) && t@.len() % 2 == 0 && t@ == handshake_text(13)) by {
        reveal_strlit("0440020000000000060003000c00e4bf1406010000000240ff");
    }
    msgs.push(decode_constant(t));
    let t = "0440020000000000060003000c00e4bf1406010000001640ff";
    assert(all_hex(t@) && t@.len() % 2 == 0 && t@ == handshake_text(14)) by {
        reveal_strlit("0440020000000000060003000c00e4bf1406010000001640ff");
    }
    msgs.push(decode_constant(t));
    let t = "04400b0000003700000000000000b9bf0c004164652e436f6d6d6f6e52656d6f74696e672e45636c722e53657276696365732e4944617461416363657373536572766963653300";
    assert(all_hex(t@) && t@.len() % 2 == 0 && t@ == handshake_text(15)) by {
        reveal_strlit("04400b0000003700000000000000b9bf0c004164652e436f6d6d6f6e52656d6f74696e672e45636c722e53657276696365732e4944617461416363657373536572766963653300");
    }
    msgs.push(decode_constant(t));
    let t = "04400b0000003600000000000000babf0c004164652e436f6d6d6f6e52656d6f74696e672e45636c722e53657276696365732e49427265616b706f696e745365727669636500";
    assert(all_hex(t@) && t@.len() % 2 == 0 && t@ == handshake_text(16)) by {
        reveal_strlit("04400b0000003600000000000000babf0c004164652e436f6d6d6f6e52656d6f74696e672e45636c722e53657276696365732e49427265616b706f696e745365727669636500");
    }
    msgs.push(decode_constant(t));
    let t = "04400b0000003e00000000000000b2bf02004172702e53797374656d2e53656375726974792e53657276696365732e4950617373776f7264436f6e66696775726174696f6e536572766963653200";
    assert(all_hex(t@) && t@.len() % 2 == 0 && t@ == handshake_text(17)) by {
        reveal_strlit("04400b0000003e00000000000000b2bf02004172702e53797374656d2e53656375726974792e53657276696365732e4950617373776f7264436f6e66696775726174696f6e536572766963653200");
    }
    msgs.push(decode_constant(t));
    let t = "04400b0000003300000000000000bdbf02004172702e4465766963652e496e746572666163652e53657276696365732e49446576696365496e666f5365727669636500";
    assert(all_hex(t@) && t@.len() % 2 == 0 && t@ == handshake_text(18)) by {
        reveal_strlit("04400b0000003300000000000000bdbf02004172702e4465766963652e496e746572666163652e53657276696365732e49446576696365496e666f5365727669636500");
    }
    msgs.push(decode_constant(t));
    let t = "04400b0000003800000000000000b8bf02004172702e53797374656d2e53656375726974792e53657276696365732e49536563757265446576696365496e666f5365727669636500";
    assert(all_hex(t@) && t@.len() % 2 == 0 && t@ == handshake_text(19)) by {
        reveal_strlit("04400b0000003800000000000000b8bf02004172702e53797374656d2e53656375726974792e53657276696365732e49536563757265446576696365496e666f5365727669636500");
    }
    msgs.push(decode_constant(t));
    let t = "04400200000000000b0001000200ebbfff";
    assert(all_hex(t@) && t@.len() % 2 == 0 && t@ == handshake_text(20)) by {
        reveal_strlit("04400200000000000b0001000200ebbfff");
    }
    msgs.push(decode_constant(t));
    msgs
}

} // verus!
