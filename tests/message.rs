use udith::message::{Message, Raw};
use udith::method::Method;
use udith::parse_utils::ErrorKind;
use udith::start_line::StartLine;

const INVITE: &[u8] = b"INVITE sip:127.0.0.1:5060 SIP/2.0\r\nVia: SIP/2.0/UDP 127.0.0.1:40675;rport;branch=z9hG4bK7rmHHX13H1N3e\r\nMax-Forwards: 50\r\nFrom: <sip:127.0.0.1:40675>;tag=7m5yaggg50pKc\r\nTo: <sip:127.0.0.1:5060>\r\nCall-ID: b4e3ef6e-7802-123d-568f-c01803268e70\r\nCSeq: 980604667 INVITE\r\nContact: <sip:127.0.0.1:40675;transport=udp>\r\nUser-Agent: Udith Client 0.0.0\r\nAllow: INVITE, ACK, BYE, CANCEL, OPTIONS, PRACK, MESSAGE, SUBSCRIBE, NOTIFY, REFER, UPDATE\r\nSupported: timer, 100rel\r\nContent-Type: application/sdp\r\nContent-Disposition: session\r\nContent-Length: 398\r\n\r\nv=0\r\no=UniMRCPClient 5074391966795348619 3411008761561041293 IN IP4 192.168.50.157\r\ns=-\r\nc=IN IP4 127.0.1.1\r\nt=0 0\r\nm=application 9 TCP/MRCPv2 1\r\na=setup:active\r\na=connection:new\r\na=resource:speechrecog\r\na=cmid:1\r\nm=audio 4000 RTP/AVP 0 8 96 101\r\na=rtpmap:0 PCMU/8000\r\na=rtpmap:8 PCMA/8000\r\na=rtpmap:96 L16/8000\r\na=rtpmap:101 telephone-event/8000\r\na=fmtp:101 0-15\r\na=sendonly\r\na=ptime:20\r\na=mid:1\r\n";

#[test]
fn parse_request_message() {
    let raw = Raw::new(INVITE);
    let (rest, request) = Message::parse(raw.as_bytes()).unwrap();
    assert!(rest.is_empty());
    assert!(request.start_line.is_request());
    let StartLine::Request(request_line) = &request.start_line else {
        unreachable!()
    };
    assert_eq!(Method::Invite, request_line.method);
    assert_eq!("sip:127.0.0.1:5060", request_line.uri.to_string());
}

#[test]
fn body_length_is_content_length() {
    let (_, m) = Message::parse(INVITE).unwrap();
    assert_eq!(m.headers.content_length().unwrap(), m.body.len());
    assert_eq!(398, m.body.len());
    assert!(m.body.starts_with(b"v=0\r\n"));
}

#[test]
fn small_invite_scenario() {
    let data = b"INVITE sip:127.0.0.1:5060 SIP/2.0\r\nVia: SIP/2.0/UDP 127.0.0.1:40675;branch=z9hG4bK1\r\nMax-Forwards: 50\r\nFrom: <sip:127.0.0.1:40675>;tag=abc\r\nTo: <sip:127.0.0.1:5060>\r\nCall-ID: id1\r\nCSeq: 1 INVITE\r\nContent-Length: 0\r\n\r\n";
    let (rest, m) = Message::parse(data).unwrap();
    assert!(rest.is_empty());
    let StartLine::Request(line) = &m.start_line else { unreachable!() };
    assert_eq!(Method::Invite, line.method);
    assert_eq!("sip:127.0.0.1:5060", line.uri.to_string());
    assert!(m.headers.sip_sweet_six().is_some());
    assert!(m.body.is_empty());
    assert_eq!("INVITE sip:127.0.0.1:5060 SIP/2.0", line.to_string());
}

#[test]
fn missing_content_length_means_empty_body() {
    let data = b"SIP/2.0 200 OK\r\nCall-ID: x\r\n\r\nextra";
    let (rest, m) = Message::parse(data).unwrap();
    assert!(m.start_line.is_status());
    assert!(m.body.is_empty());
    assert_eq!(Some(m.body.len()), m.headers.content_length());
    assert_eq!(b"extra", rest);
}

#[test]
fn truncated_body_fails() {
    let data = b"SIP/2.0 200 OK\r\nContent-Length: 10\r\n\r\nshort";
    let err = Message::parse(data).unwrap_err();
    assert_eq!(ErrorKind::Truncated, err.kind);
    assert_eq!(38, err.offset);
}

#[test]
fn wrong_version_is_a_start_line_error() {
    let err = Message::parse(b"INVITE sip:127.0.0.1:5060 SIP/1.1\r\n\r\n").unwrap_err();
    assert_eq!(ErrorKind::StartLine, err.kind);
    assert_eq!(26, err.offset);
}

#[test]
fn bad_header_is_a_header_error() {
    let err = Message::parse(b"SIP/2.0 200 OK\r\nCSeq: x\r\n\r\n").unwrap_err();
    assert_eq!(ErrorKind::Header, err.kind);
    assert_eq!(16, err.offset);
}

#[test]
fn raw_text() {
    let raw = Raw::new("Мама\r\n".as_bytes());
    assert_eq!(10, raw.len());
    assert_eq!("Мама\r\n", raw.try_as_str().unwrap());
    let bad = Raw::new(b"\xff\xfe");
    assert_eq!(ErrorKind::Encoding, bad.try_as_str().unwrap_err().kind);
}

#[test]
fn serialize_then_parse_reproduces_request() {
    let (_, m) = Message::parse(INVITE).unwrap();
    let bytes = m.to_bytes();
    assert_eq!(INVITE, bytes.as_slice());
    let (rest, again) = Message::parse(&bytes).unwrap();
    assert!(rest.is_empty());
    assert_eq!(m.start_line, again.start_line);
    assert_eq!(m.body, again.body);
    let (a, b) = (m.headers.sip_sweet_six().unwrap(), again.headers.sip_sweet_six().unwrap());
    assert_eq!(a.0, b.0);
    assert_eq!(a.1, b.1);
    assert_eq!(a.2, b.2);
    assert_eq!(a.3, b.3);
    assert_eq!(a.4, b.4);
    assert_eq!(a.5, b.5);
}

#[test]
fn get_many_keeps_duplicates_in_order() {
    let data = b"SIP/2.0 200 OK\r\nVia: SIP/2.0/UDP a\r\nCall-ID: x\r\nvia: SIP/2.0/UDP b\r\n\r\n";
    let (_, m) = Message::parse(data).unwrap();
    let vias = m.headers.get_many(b"via");
    assert_eq!(2, vias.len());
    assert_eq!(b"Via", vias[0].name.as_bytes());
    assert_eq!(b"via", vias[1].name.as_bytes());
    assert!(m.headers.raw_header_value(b"CALL-ID").is_some());
}

#[test]
fn non_utf8_display_name_is_an_encoding_error() {
    let data = b"SIP/2.0 200 OK\r\nTo: \"\xff\" <sip:a@b>\r\n\r\n";
    let err = Message::parse(data).unwrap_err();
    assert_eq!(ErrorKind::Encoding, err.kind);
    assert_eq!(20, err.offset);
}

#[test]
fn non_utf8_in_untyped_header_is_kept_as_bytes() {
    let data = b"SIP/2.0 200 OK\r\nSubject: caf\xc3\xa9\r\n\r\n";
    let (rest, m) = Message::parse(data).unwrap();
    assert!(rest.is_empty());
    assert_eq!(1, m.headers.len());
}

#[test]
fn utf8_quoted_display_name_parses() {
    let data = "SIP/2.0 200 OK\r\nFrom: \"мама\" <sip:a@b>;tag=1\r\n\r\n".as_bytes();
    let (rest, m) = Message::parse(data).unwrap();
    assert!(rest.is_empty());
    assert!(m.headers.from().is_some());
}

#[test]
fn start_line_errors_point_at_the_failing_element() {
    let cases: [(&[u8], usize); 6] = [
        (b"\r\n", 0),
        (b"INVITE\r\n", 6),
        (b"INVITE <x> SIP/2.0\r\n", 7),
        (b"INVITE sip:h SIP/2.0", 20),
        (b"SIP/2.0 2x0 OK\r\n", 8),
        (b"SIP/2.0 200 OK", 12),
    ];
    for (data, offset) in cases {
        let err = Message::parse(data).unwrap_err();
        assert_eq!(ErrorKind::StartLine, err.kind);
        assert_eq!(offset, err.offset);
    }
}

#[test]
fn byte_values_are_rendered_as_they_are() {
    let data = b"SIP/2.0 200 \xffOK\r\nCall-ID: a\r\nSubject: x\xfd\r\n\r\n";
    let (_, m) = Message::parse(data).unwrap();
    let bytes = m.to_bytes();
    assert_eq!(data.as_slice(), bytes.as_slice());
}
