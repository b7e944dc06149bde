use udith::method::{Method, StatusCode};
use udith::start_line::{RequestLine, StartLine, StatusLine};
use udith::uri::Uri;

#[test]
fn mod_request_line_works() {
    let line = b"INVITE sip:127.0.0.1:5060 SIP/2.0\r\n";

    let (rest, start_line) = StartLine::parse(line).unwrap();
    let StartLine::Request(request_line) = start_line else {
        unreachable!()
    };
    assert!(rest.is_empty());
    assert_eq!(Method::Invite, request_line.method);
    assert_eq!("sip:127.0.0.1:5060", request_line.uri.to_string());
}

#[test]
fn mod_request_line_must_fail() {
    assert!(StartLine::parse(b"INVITE sip:127.0.0.1:5060 SIP/2.0").is_err());
    assert!(StartLine::parse(b"INVITE sip:127.0.0.1:5060 SIP/1.1\r\n").is_err());
    assert!(StartLine::parse(b"INVITE sip:127.0.0.1:5060\r\n").is_err());
    assert!(StartLine::parse(b"sip:127.0.0.1:5060 SIP/2.0\r\n").is_err());
}

#[test]
fn mod_status_line_works() {
    let line = b"SIP/2.0 200 OK\r\n";
    let (rest, status_line) = StatusLine::parse(line).unwrap();
    assert!(rest.is_empty());
    assert_eq!(200_u16, status_line.status_code.into());
    assert_eq!(b"OK", status_line.reason_phrase.as_slice());
}

#[test]
fn mod_status_line_must_fail() {
    assert!(StatusLine::parse(b"").is_err());
    assert!(StatusLine::parse(b"SIP/2.0 200 OK").is_err());
    assert!(StatusLine::parse(b"SIP/1.1 200 OK\r\n").is_err());
    assert!(StatusLine::parse(b"SIP/2.0  OK\r\n").is_err());
    assert!(StatusLine::parse(b"SIP/2.0 OK\r\n").is_err());
}

#[test]
fn parse_works() {
    let line = b"INVITE sip:127.0.0.1:5060 SIP/2.0\r\n";
    let (rest, request_line) = RequestLine::parse(line).unwrap();
    assert!(rest.is_empty());
    assert_eq!(Method::Invite, request_line.method);
    assert_eq!("sip:127.0.0.1:5060", request_line.uri.to_string());
}

#[test]
fn test_request_line() {
    let raw = b"INVITE sip:127.0.0.1:5060 SIP/2.0\r\n";
    let (rest, line) = RequestLine::parse(raw).unwrap();
    assert_eq!(Method::Invite, line.method);
    assert!(rest.is_empty());
    if let Uri::Sip(uri) = line.uri {
        assert!(uri.userinfo.is_none());
        assert_eq!("127.0.0.1", uri.hostport.hostname);
        assert_eq!(Some(5060), uri.hostport.port);
        assert!(uri.parameters.is_empty());
        assert!(uri.headers.is_empty());
    } else {
        unreachable!()
    };
}

#[test]
fn status_it_works() {
    let line = b"SIP/2.0 200 OK\r\n";
    let (rest, status_line) = StatusLine::parse(line).unwrap();
    assert!(rest.is_empty());
    assert_eq!(200_u16, status_line.status_code.into());
    assert_eq!(b"OK", status_line.reason_phrase.as_slice());
    assert_eq!("SIP/2.0 200 OK", status_line.to_string());
}

#[test]
fn status_code_it_works() {
    let code = StatusCode::try_from(b"200".as_slice()).unwrap();
    assert_eq!(200_u16, code.into())
}

#[test]
fn status_code_from_digits() {
    assert_eq!(20, StatusCode::try_from(b"20".as_slice()).unwrap().as_u16());
    assert_eq!(2000, StatusCode::try_from(b"2000".as_slice()).unwrap().as_u16());
    assert_eq!(99, StatusCode::try_from(b"099".as_slice()).unwrap().as_u16());
    assert!(StatusCode::try_from(b"70000".as_slice()).is_err());
    assert!(StatusCode::try_from(b"20a".as_slice()).is_err());
    assert!(StatusCode::try_from(b"".as_slice()).is_err());
}

#[test]
fn status_code_parse_reads_the_space() {
    let (rest, code) = StatusCode::parse(b"200 x").unwrap();
    assert_eq!(b"x", rest);
    assert_eq!(200, code.as_u16());
    assert!(StatusCode::parse(b"200x").is_err());
    assert!(StatusCode::parse(b"200").is_err());
    assert!(StatusCode::parse(b"20 x").is_err());
    assert!(StatusCode::parse(b"x").is_err());
}

#[test]
fn extension_method_is_kept() {
    let (_, line) = RequestLine::parse(b"REGISTER sip:host SIP/2.0\r\n").unwrap();
    assert_eq!(Method::Unknown("REGISTER".to_string()), line.method);
    assert_eq!("REGISTER sip:host SIP/2.0", line.to_string());
}

#[test]
fn start_line_tries_status_first() {
    let (_, l) = StartLine::parse(b"SIP/2.0 486 Busy Here\r\n").unwrap();
    assert!(l.is_status());
    assert_eq!("SIP/2.0 486 Busy Here", l.to_string());
    let (_, l) = StartLine::parse(b"ACK sip:x SIP/2.0\r\n").unwrap();
    assert!(l.is_request());
}

#[test]
fn large_status_code_renders_in_full() {
    let line = StatusLine {
        status_code: StatusCode::try_from(b"2000".as_slice()).unwrap(),
        reason_phrase: b"X".to_vec(),
    };
    assert_eq!("SIP/2.0 2000 X", line.to_string());
    let (_, l) = StatusLine::parse(b"SIP/2.0 099 Odd\r\n").unwrap();
    assert_eq!("SIP/2.0 099 Odd", l.to_string());
}
