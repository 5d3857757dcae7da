use rocket_oidc::SessionCookie;

fn cookie(access: &[u8], id: &[u8]) -> SessionCookie {
    SessionCookie { access_token: access.to_vec(), id_token: id.to_vec() }
}

#[test]
fn encode_exact_wire_form() {
    let c = cookie(b"tokenA", b"header.payload.sig");
    let enc = c.encode();
    assert_eq!(
        String::from_utf8(enc).unwrap(),
        "{\"access_token\":\"tokenA\",\"id_token\":\"header.payload.sig\"}"
    );
}

#[test]
fn round_trip_plain() {
    let c = cookie(b"tokenA", b"header.payload.sig");
    let back = SessionCookie::decode(&c.encode()).unwrap();
    assert_eq!(back.access_token, c.access_token);
    assert_eq!(back.id_token, c.id_token);
}

#[test]
fn round_trip_escaped_bytes() {
    let c = cookie(b"a\"b\\c", b"line\nbreak\ttab\x01ctl\x1f");
    let enc = c.encode();
    let text = String::from_utf8(enc.clone()).unwrap();
    assert_eq!(
        text,
        "{\"access_token\":\"a\\\"b\\\\c\",\"id_token\":\"line\\nbreak\\ttab\\u0001ctl\\u001f\"}"
    );
    let back = SessionCookie::decode(&enc).unwrap();
    assert_eq!(back.access_token, c.access_token);
    assert_eq!(back.id_token, c.id_token);
}

#[test]
fn round_trip_empty_tokens() {
    let c = cookie(b"", b"");
    let enc = c.encode();
    assert_eq!(String::from_utf8(enc.clone()).unwrap(), "{\"access_token\":\"\",\"id_token\":\"\"}");
    let back = SessionCookie::decode(&enc).unwrap();
    assert_eq!(back.access_token, c.access_token);
    assert_eq!(back.id_token, c.id_token);
}

#[test]
fn round_trip_non_ascii_bytes() {
    let c = cookie("tökén".as_bytes(), &[0xf0, 0x9f, 0x94, 0x91]);
    let back = SessionCookie::decode(&c.encode()).unwrap();
    assert_eq!(back.access_token, c.access_token);
    assert_eq!(back.id_token, c.id_token);
}

#[test]
fn decode_accepts_short_and_hex_escapes() {
    let enc = b"{\"access_token\":\"a\\u001fb\",\"id_token\":\"x\\ry\"}".to_vec();
    let c = SessionCookie::decode(&enc).unwrap();
    assert_eq!(c.access_token, b"a\x1fb".to_vec());
    assert_eq!(c.id_token, b"x\ry".to_vec());
}

#[test]
fn decode_rejects_malformed() {
    let bad: [&[u8]; 10] = [
        b"garbage",
        b"{}",
        b"{\"access_token\":\"a\"}",
        b"{\"id_token\":\"a\",\"access_token\":\"b\"}",
        b"{\"access_token\":\"a\",\"id_token\":\"b\"",
        b"{\"access_token\":\"a\",\"id_token\":\"b\"}x",
        b"{\"access_token\":\"a\",\"id_token\":\"b\\\"}",
        b"{\"access_token\":\"a\x01\",\"id_token\":\"b\"}",
        b"{\"access_token\":\"a\",\"id_token\":\"\\u0041\"}",
        b"",
    ];
    for case in bad {
        assert!(SessionCookie::decode(&case.to_vec()).is_none());
    }
}

#[test]
fn decode_rejects_unknown_escape() {
    let enc = b"{\"access_token\":\"a\\qb\",\"id_token\":\"x\"}".to_vec();
    assert!(SessionCookie::decode(&enc).is_none());
}
