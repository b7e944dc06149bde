use udith::address::{Address, DisplayName, GenValue, GenericParam, Param, Spec};
use udith::uri::Uri;

#[test]
fn test_plain() {
    let raw = b"Alexander Kalashnikov ";
    let (rest, display_name) = DisplayName::parse(raw).unwrap();
    assert!(rest.is_empty());
    if let DisplayName::Plain(s) = display_name {
        assert_eq!("Alexander Kalashnikov".to_owned(), s);
    } else {
        unreachable!()
    }
}

#[test]
fn test_quoted() {
    let raw = "\"мама мыла раму\"".as_bytes();
    let (rest, display_name) = DisplayName::parse(raw).unwrap();
    assert!(rest.is_empty());
    if let DisplayName::Quoted(s) = display_name {
        assert_eq!("мама мыла раму".to_owned(), s);
    } else {
        unreachable!()
    }
}

#[test]
fn quoted_invalid_utf8_is_not_a_quoted_name() {
    let raw = b"\"\xff\" <sip:a@b>";
    let (rest, display_name) = DisplayName::parse(raw).unwrap();
    assert_eq!(DisplayName::Plain(String::new()), display_name);
    assert_eq!(raw.as_slice(), rest);
}

#[test]
fn empty_works() {
    let raw = b"<URI>";
    let (rest, display_name) = DisplayName::parse(raw).unwrap();
    assert_eq!(raw, rest);
    if let DisplayName::Plain(s) = display_name {
        assert!(s.is_empty());
    }
}

#[test]
fn mod_it_works() {
    let raw = b"Some One John <sip:john@some.one>";
    let (rest, addr) = Address::parse(raw).unwrap();
    println!("addr={:?}", addr);
    assert!(rest.is_empty());
}

#[test]
fn spec_it_works() {
    let raw = b"Some One John <sip:john@some.one>";
    let (rest, spec) = Spec::parse(raw).unwrap();
    println!("spec={:?}", spec);
    assert!(rest.is_empty());
}

#[test]
fn name_addr_is_tried_first() {
    let (_, spec) = Spec::parse(b"Some One John <sip:john@some.one>").unwrap();
    let Spec::NameAddr { display_name, addr_spec } = spec else { unreachable!() };
    assert_eq!(DisplayName::Plain("Some One John".to_string()), display_name);
    assert_eq!("sip:john@some.one", addr_spec.to_string());
}

#[test]
fn addr_spec_without_brackets() {
    let (rest, spec) = Spec::parse(b"sip:a@b;tag=1").unwrap();
    assert!(rest.is_empty());
    let Spec::AddrSpec(Uri::Sip(_)) = spec else { unreachable!() };
}

#[test]
fn address_round_trip_is_idempotent() {
    let (_, first) = Address::parse(b"Some One <sip:john@some.one>").unwrap();
    let text = first.to_string();
    assert_eq!("Some One <sip:john@some.one>", text);
    let (rest, second) = Address::parse(text.as_bytes()).unwrap();
    assert!(rest.is_empty());
    assert_eq!(first, second);
    let text2 = second.to_string();
    let (_, third) = Address::parse(text2.as_bytes()).unwrap();
    assert_eq!(second, third);
    assert_eq!(text, text2);
}

#[test]
fn quoted_address_renders_with_quotes() {
    let (_, a) = Address::parse(b"\"Bob B\" <sip:bob@host>").unwrap();
    assert_eq!("\"Bob B\" <sip:bob@host>", a.to_string());
}

#[test]
fn generic_param_value_kinds() {
    let (rest, p) = GenericParam::parse(b"x = \"a b\";y").unwrap();
    assert_eq!(Some(GenValue::Quoted("a b".to_string())), p.value);
    assert_eq!(b";y", rest);
    let (rest, p) = GenericParam::parse(b"rport;branch=1").unwrap();
    assert_eq!(None, p.value);
    assert_eq!(b";branch=1", rest);
    assert_eq!("x=\"a b\"", GenericParam { name: "x".to_string(), value: Some(GenValue::Quoted("a b".to_string())) }.to_string());
}

#[test]
fn tag_param_is_told_apart() {
    let (_, p) = Param::parse(b"tag=abc").unwrap();
    assert_eq!(Param::Tag("abc".to_string()), p);
    assert_eq!("tag=abc", p.to_string());
    let (_, p) = Param::parse(b"tagx=abc").unwrap();
    let Param::Generic(g) = p else { unreachable!() };
    assert_eq!("tagx", g.name);
}
