use udith::uri::{HostPort, SipUri, TransportParam, Uri, UriParameter, UserParam};

#[test]
fn uri_mod_it_works() {
    let raw = b"sip:0.0.0.0:44572";
    let (rest, uri) = Uri::parse(raw).unwrap();
    assert!(rest.is_empty());
    if let Uri::Sip(uri) = uri {
        assert!(uri.userinfo.is_none());
        assert_eq!("0.0.0.0", uri.hostport.hostname);
        assert_eq!(Some(44572), uri.hostport.port);
        assert!(uri.parameters.is_empty());
        assert!(uri.headers.is_empty());
    } else {
        unreachable!()
    };
}

#[test]
fn sips_with_params() {
    let raw = b"sips:127.0.0.1;transport=udp;maddr=sip.google.com;lr;opti=someid";
    let (rest, uri) = Uri::parse(raw).unwrap();
    assert!(rest.is_empty());
    if let Uri::Sips(uri) = uri {
        assert!(uri.userinfo.is_none());
        assert_eq!("127.0.0.1", uri.hostport.hostname);
        assert_eq!(None, uri.hostport.port);
        assert_eq!(
            r#"[Transport(Udp), Maddr("sip.google.com"), Lr, Other { name: "opti", value: "someid" }]"#,
            format!("{:?}", uri.parameters)
        );
        assert!(uri.headers.is_empty());
    } else {
        unreachable!()
    };
}

#[test]
fn sips_with_params_in_order() {
    let raw = b"sips:127.0.0.1;transport=udp;maddr=sip.example.com;lr;opti=someid";
    let (rest, uri) = Uri::parse(raw).unwrap();
    assert!(rest.is_empty());
    let Uri::Sips(uri) = uri else { unreachable!() };
    assert_eq!(
        vec![
            UriParameter::Transport(TransportParam::Udp),
            UriParameter::Maddr("sip.example.com".to_string()),
            UriParameter::Lr,
            UriParameter::Other { name: "opti".to_string(), value: "someid".to_string() },
        ],
        uri.parameters
    );
}

#[test]
fn sip_with_headers() {
    let raw = b"sip:127.0.0.1;transport=udp?abc=77&xyz=?:&[tellme]=";
    let (rest, uri) = Uri::parse(raw).unwrap();
    assert!(rest.is_empty());
    if let Uri::Sip(uri) = uri {
        assert!(uri.userinfo.is_none());
        assert_eq!("127.0.0.1", uri.hostport.hostname);
        assert!(uri.hostport.port.is_none());
        assert_eq!(r#"[Transport(Udp)]"#, format!("{:?}", uri.parameters));
        let headers: Vec<(&str, &str)> = uri
            .headers
            .iter()
            .map(|h| (h.name.as_str(), h.value.as_str()))
            .collect();
        assert_eq!(headers, vec![("abc", "77"), ("xyz", "?:"), ("[tellme]", "")],)
    } else {
        unreachable!()
    }
}

#[test]
fn sip_with_userinfo() {
    let raw = b"sip:+1-212-555-1234:authenticate_me@gw.com;user=phone";
    let (rest, uri) = Uri::parse(raw).unwrap();
    assert!(rest.is_empty());
    if let Uri::Sip(uri) = uri {
        assert_eq!("+1-212-555-1234", uri.userinfo.as_ref().unwrap().user);
        assert_eq!(
            "authenticate_me",
            uri.userinfo.as_ref().unwrap().password.as_ref().unwrap()
        );
        assert_eq!(vec![UriParameter::User(UserParam::Phone)], uri.parameters);
    }
}

#[test]
fn sip_raquot_works() {
    let raw = b"sip:john@some.one>";
    let (rest, uri) = Uri::parse(raw).unwrap();
    assert_eq!(b">", rest);
    if let Uri::Sip(uri) = uri {
        assert_eq!("john", uri.userinfo.as_ref().unwrap().user);
    }
}

#[test]
fn question_mark_needs_a_header() {
    assert!(Uri::parse(b"sip:host?").is_err());
}

#[test]
fn port_out_of_range_fails() {
    assert!(HostPort::parse(b"host:70000").is_err());
    let (rest, hp) = HostPort::parse(b"host:65535;x").unwrap();
    assert_eq!(Some(65535), hp.port);
    assert_eq!(b";x", rest);
}

#[test]
fn absolute_uri() {
    let (rest, uri) = Uri::parse(b"mailto:someone@example.com>").unwrap();
    assert_eq!(b">", rest);
    assert_eq!(
        Uri::Absolute { scheme: "mailto".to_string(), opaque: "someone@example.com".to_string() },
        uri
    );
    assert_eq!("mailto:someone@example.com", uri.to_string());
}

#[test]
fn uri_renders_canonically() {
    let raw = b"sip:alice:pw@host.com:5060;transport=tcp;ttl=15;lr?a=1&b=%20";
    let (_, uri) = Uri::parse(raw).unwrap();
    assert_eq!("sip:alice:pw@host.com:5060;transport=tcp;ttl=15;lr?a=1&b=%20", uri.to_string());
}

#[test]
fn ttl_too_large_is_other() {
    let (_, uri) = SipUri::parse(b"h;ttl=300").unwrap();
    assert_eq!(
        vec![UriParameter::Other { name: "ttl".to_string(), value: "300".to_string() }],
        uri.parameters
    );
}

#[test]
fn test_other() {
    let raw = b";other=opti";
    let (rest, param) = UriParameter::parse(raw).unwrap();
    assert!(rest.is_empty());
    if let UriParameter::Other { name, value } = param {
        assert_eq!("other", name);
        assert_eq!("opti", value);
    } else {
        unreachable!()
    }
}
