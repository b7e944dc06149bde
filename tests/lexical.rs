use udith::parse_utils::{lws, next_non_whitespace, token, word, ErrorKind};

#[test]
fn utf8_byte_works() {
    let line = b" \r\n Ok";
    assert_eq!(Some(13), next_non_whitespace(&line[1..]));
}

#[test]
fn token_works() {
    assert_eq!(b"my", token(b"my name is").unwrap().1);
    assert_eq!(b"123nebula765", token(b"123nebula765=ABC").unwrap().1);
    assert_eq!(b"%~abc!%", token(b"%~abc!%").unwrap().1);

    assert!(token(b"").is_err());
    assert!(token(b"#SIPrules!").is_err());
}

#[test]
fn lws_works() {
    assert_eq!(0x20, lws(b" ").unwrap().1);
    assert_eq!(0x20, lws(b"\t").unwrap().1);
    assert_eq!(0x20, lws(b" \r\n\t ").unwrap().1);
}

#[test]
fn lws_needs_whitespace_after_fold() {
    assert!(lws(b"\r\nx").is_err());
    let (rest, _) = lws(b"  \r\n x").unwrap();
    assert_eq!(b"x", rest);
}

#[test]
fn token_mismatch_is_no_match() {
    assert_eq!(ErrorKind::NoMatch, token(b";").unwrap_err().kind);
}

#[test]
fn word_takes_call_id_characters() {
    let (rest, w) = word(b"a<b>:c@host").unwrap();
    assert_eq!(b"a<b>:c", w);
    assert_eq!(b"@host", rest);
}
