use udith::header::{Header, Name, Value};
use udith::map::HeaderMap;
use udith::parse_utils::ErrorKind;
use udith::via::{Transport, Via, ViaParam};

const MAP_MSG: &[u8] = b"Via: SIP/2.0/UDP 127.0.0.1:40675;rport;branch=z9hG4bK7rmHHX13H1N3e\r\nMax-Forwards: 50\r\nFrom: <sip:127.0.0.1:40675>;tag=7m5yaggg50pKc\r\nTo: <sip:127.0.0.1:5060>\r\nCall-ID: b4e3ef6e-7802-123d-568f-c01803268e70\r\nCSeq: 980604667 INVITE\r\nContact: <sip:127.0.0.1:40675;transport=udp>\r\nUser-Agent: Udith Client 0.0.0\r\nAllow: INVITE, ACK, BYE, CANCEL, OPTIONS, PRACK, MESSAGE, SUBSCRIBE, NOTIFY, REFER, UPDATE\r\nSupported: timer, 100rel\r\nContent-Type: application/sdp\r\nContent-Disposition: session\r\nContent-Length: 398\r\n\r\nv=0\r\no=UniMRCPClient 5074391966795348619 3411008761561041293 IN IP4 192.168.50.157\r\ns=-\r\nc=IN IP4 127.0.1.1\r\nt=0 0\r\nm=application 9 TCP/MRCPv2 1\r\na=setup:active\r\na=connection:new\r\na=resource:speechrecog\r\na=cmid:1\r\nm=audio 4000 RTP/AVP 0 8 96 101\r\na=rtpmap:0 PCMU/8000\r\na=rtpmap:8 PCMA/8000\r\na=rtpmap:96 L16/8000\r\na=rtpmap:101 telephone-event/8000\r\na=fmtp:101 0-15\r\na=sendonly\r\na=ptime:20\r\na=mid:1\r\n";

#[test]
fn map_it_works() {
    let (rest, headers) = HeaderMap::parse(MAP_MSG).unwrap();
    assert_eq!(rest.len(), headers.content_length().unwrap());
    println!("{:#?}", headers);
}

#[test]
fn map_keeps_order_and_six() {
    let (_, headers) = HeaderMap::parse(MAP_MSG).unwrap();
    assert_eq!(13, headers.len());
    assert_eq!(b"Via", headers.entry(0).name.as_bytes());
    assert_eq!(b"Content-Length", headers.entry(12).name.as_bytes());
    assert!(headers.sip_sweet_six().is_some());
    let max = headers.max_forwards().unwrap();
    assert_eq!(Value::MaxForwards(50), max.value);
    let cseq = headers.cseq().unwrap();
    let Value::CSeq { num, method } = &cseq.value else { unreachable!() };
    assert_eq!(980604667, *num);
    assert_eq!(udith::method::Method::Invite, *method);
    let call_id = headers.call_id().unwrap();
    assert_eq!(Value::CallId(b"b4e3ef6e-7802-123d-568f-c01803268e70".to_vec()), call_id.value);
}

#[test]
fn nom_it() {
    let line = b"Subject  :   \r\n \tlunch\r\n";
    let (src, header) = Header::parse(line as &[u8]).unwrap();
    assert!(src.is_empty());
    let header = header.unwrap();
    println!("{:?} -> {:?}", header.name, header.value);
    assert_eq!(Value::Raw(b"lunch".to_vec()), header.value);
}

#[test]
fn test_content_length() {
    let line = b"Content-Length  :   \r\n \t525\r\n";
    let (src, header) = Header::parse(line as &[u8]).unwrap();
    assert!(src.is_empty());
    let header = header.unwrap();
    if let Value::ContentLength(length) = header.value {
        println!("{:?} -> {}", header.name, length);
        assert_eq!(525, length);
    } else {
        unreachable!()
    }
}

#[test]
fn mod_empty_line() {
    let (rest, none) = Header::parse(b"\r\n\r\n").unwrap();
    assert!(none.is_none());
    assert_eq!(b"\r\n\r\n", rest);
}

#[test]
fn name_empty_line() {
    let line = b"\r\n";
    let (rest, none) = Name::parse(line).unwrap();
    assert!(rest.is_empty());
    assert!(none.is_none());
}

#[test]
fn parse_default_works() {
    let line = "lunch  with \tme \r\n мама";
    let (rest, v) = Value::parse_default(line.as_bytes()).unwrap();
    assert!(rest.is_empty());
    assert_eq!(Value::Raw("lunch  with \tme мама".as_bytes().to_vec()), v);
}

#[test]
fn compact_names_select_typed_values() {
    let (_, v) = Value::parse_with_name(b"l", b"12").unwrap();
    assert_eq!(Value::ContentLength(12), v);
    let (_, v) = Value::parse_with_name(b"I", b"abc@host").unwrap();
    assert_eq!(Value::CallId(b"abc@host".to_vec()), v);
    let (_, v) = Value::parse_with_name(b"X-Other", b"12").unwrap();
    assert_eq!(Value::Raw(b"12".to_vec()), v);
}

#[test]
fn to_and_t_are_the_same_header() {
    let long = b"To: <sip:a@b>;tag=1\r\n\r\n";
    let short = b"t: <sip:a@b>;tag=1\r\n\r\n";
    let (_, m1) = HeaderMap::parse(long).unwrap();
    let (_, m2) = HeaderMap::parse(short).unwrap();
    assert_eq!(m1.to().unwrap().value, m2.to().unwrap().value);
    let (_, m3) = HeaderMap::parse(b"TO: <sip:a@b>;tag=1\r\n\r\n").unwrap();
    assert_eq!(m1.to().unwrap().value, m3.to().unwrap().value);
    let Value::To { params, .. } = &m1.to().unwrap().value else { unreachable!() };
    assert_eq!(1, params.len());
}

#[test]
fn compact_aliases_are_found() {
    let (_, m) = HeaderMap::parse(
        b"f: <sip:x@y>\r\ni: id\r\nl: 0\r\nv: SIP/2.0/UDP h\r\n\r\n",
    )
    .unwrap();
    assert!(m.from().is_some());
    assert!(m.call_id().is_some());
    assert_eq!(Some(0), m.content_length());
    assert!(m.via().is_some());
}

#[test]
fn first_of_duplicates_is_returned() {
    let (_, m) = HeaderMap::parse(b"Max-Forwards: 1\r\nmax-forwards: 2\r\n\r\n").unwrap();
    assert_eq!(2, m.len());
    assert_eq!(Value::MaxForwards(1), m.max_forwards().unwrap().value);
}

#[test]
fn missing_one_of_six_yields_none() {
    let all = b"To: <sip:a@b>\r\nFrom: <sip:c@d>\r\nCSeq: 1 INVITE\r\nCall-ID: x\r\nMax-Forwards: 70\r\nVia: SIP/2.0/UDP h\r\n\r\n";
    let (_, m) = HeaderMap::parse(all).unwrap();
    assert!(m.sip_sweet_six().is_some());
    let no_via = b"To: <sip:a@b>\r\nFrom: <sip:c@d>\r\nCSeq: 1 INVITE\r\nCall-ID: x\r\nMax-Forwards: 70\r\n\r\n";
    let (_, m) = HeaderMap::parse(no_via).unwrap();
    assert!(m.sip_sweet_six().is_none());
    let no_cseq = b"To: <sip:a@b>\r\nFrom: <sip:c@d>\r\nCall-ID: x\r\nMax-Forwards: 70\r\nVia: SIP/2.0/UDP h\r\n\r\n";
    let (_, m) = HeaderMap::parse(no_cseq).unwrap();
    assert!(m.sip_sweet_six().is_none());
}

#[test]
fn empty_line_gives_no_headers() {
    let (rest, m) = HeaderMap::parse(b"\r\nbody").unwrap();
    assert_eq!(0, m.len());
    assert_eq!(b"body", rest);
    assert_eq!(Some(0), m.content_length());
    assert!(m.to().is_none());
    assert!(m.sip_sweet_six().is_none());
}

#[test]
fn bad_header_line_reports_its_offset() {
    let err = HeaderMap::parse(b"To: <sip:a@b>\r\n:bad\r\n\r\n").unwrap_err();
    assert_eq!(ErrorKind::Header, err.kind);
    assert_eq!(15, err.offset);
}

#[test]
fn via_mod_it_works() {
    let src = b"SIP/2.0/UDP 127.0.0.1:40675;rport;branch=z9hG4bK7rmHHX13H1N3e";
    let (rest, via) = Via::parse(src).unwrap();
    println!("Via={:?}", via);
    assert!(rest.is_empty());
    assert_eq!(1, via.inner.len());
    let parm = &via.inner[0];
    assert_eq!(Transport::Udp, parm.sent_protocol.transport);
    assert_eq!("2.0", parm.sent_protocol.version);
    assert_eq!("127.0.0.1", parm.sent_by.host);
    assert_eq!(Some(40675), parm.sent_by.port);
    assert_eq!(2, parm.params.len());
    assert_eq!(ViaParam::Branch("z9hG4bK7rmHHX13H1N3e".to_string()), parm.params[1]);
}

#[test]
fn via_list_and_params() {
    let src = b"SIP/2.0/TCP a.com ;ttl=5;maddr=m;received=1.2.3.4 , SIP/2.0/UDP b:5060,";
    let (rest, via) = Via::parse(src).unwrap();
    assert_eq!(b",", rest);
    assert_eq!(2, via.inner.len());
    assert_eq!(
        vec![
            ViaParam::Ttl(5),
            ViaParam::Maddr("m".to_string()),
            ViaParam::Received("1.2.3.4".to_string()),
        ],
        via.inner[0].params
    );
}

#[test]
fn raw_value_as_number() {
    let (_, v) = Value::parse_default(b"525").unwrap();
    assert_eq!(Ok(525), usize::try_from(&v));
    let (_, v) = Value::parse_default(b"52x").unwrap();
    assert!(usize::try_from(&v).is_err());
    assert!(usize::try_from(&Value::MaxForwards(3)).is_err());
}
