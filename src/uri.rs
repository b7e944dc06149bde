//! SIP, SIPS and absolute URIs.
use crate::method::{method_at, method_p, method_text, Method, MethodM};
use crate::parse_utils::{
    ascii_chars, ascii_text, byte_at, byte_is, escaped_at, escaped_is, finish, first_of, in_class,
    is_alpha, lemma_scan, lit_at, number_at, number_end, parsed, run_at, run_end, scan, scan_at,
    slice_parsed, starts_at, token_end, views, Class, ParseResult, all_ascii, decimal,
    lemma_ascii_utf8, push_decimal, push_lit,
};
use vstd::prelude::*;

verus! {

broadcast use vstd::seq::group_seq_axioms;

// ---------------------------------------------------------------------------
// Types and what they stand for
// ---------------------------------------------------------------------------

/// The `transport=` URI parameter.
#[derive(Debug, Clone, PartialEq, Eq)]
pub enum TransportParam {
    Udp,
    Tcp,
    Sctp,
    Tls,
    Other(String),
}

pub enum TransportParamM {
    Udp,
    Tcp,
    Sctp,
    Tls,
    Other(Seq<char>),
}

impl View for TransportParam {
    type V = TransportParamM;

    open spec fn view(&self) -> TransportParamM {
        match self {
            TransportParam::Udp => TransportParamM::Udp,
            TransportParam::Tcp => TransportParamM::Tcp,
            TransportParam::Sctp => TransportParamM::Sctp,
            TransportParam::Tls => TransportParamM::Tls,
            TransportParam::Other(s) => TransportParamM::Other(s@),
        }
    }
}

/// The `user=` URI parameter.
#[derive(Debug, Clone, PartialEq, Eq)]
pub enum UserParam {
    Ip,
    Phone,
    Other(String),
}

pub enum UserParamM {
    Ip,
    Phone,
    Other(Seq<char>),
}

impl View for UserParam {
    type V = UserParamM;

    open spec fn view(&self) -> UserParamM {
        match self {
            UserParam::Ip => UserParamM::Ip,
            UserParam::Phone => UserParamM::Phone,
            UserParam::Other(s) => UserParamM::Other(s@),
        }
    }
}

/// One `;parameter` of a SIP URI.
#[derive(Debug, Clone, PartialEq, Eq)]
pub enum UriParameter {
    Transport(TransportParam),
    User(UserParam),
    Method(Method),
    Ttl(u8),
    Maddr(String),
    Lr,
    Other { name: String, value: String },
}

pub enum UriParameterM {
    Transport(TransportParamM),
    User(UserParamM),
    Method(MethodM),
    Ttl(u8),
    Maddr(Seq<char>),
    Lr,
    Other(Seq<char>, Seq<char>),
}

impl View for UriParameter {
    type V = UriParameterM;

    open spec fn view(&self) -> UriParameterM {
        match self {
            UriParameter::Transport(t) => UriParameterM::Transport(t@),
            UriParameter::User(u) => UriParameterM::User(u@),
            UriParameter::Method(m) => UriParameterM::Method(m@),
            UriParameter::Ttl(t) => UriParameterM::Ttl(*t),
            UriParameter::Maddr(h) => UriParameterM::Maddr(h@),
            UriParameter::Lr => UriParameterM::Lr,
            UriParameter::Other { name, value } => UriParameterM::Other(name@, value@),
        }
    }
}

/// One `name=value` of the header part of a SIP URI.
#[derive(Debug, Clone, PartialEq, Eq)]
pub struct UriHeader {
    pub name: String,
    pub value: String,
}

pub struct UriHeaderM {
    pub name: Seq<char>,
    pub value: Seq<char>,
}

impl View for UriHeader {
    type V = UriHeaderM;

    open spec fn view(&self) -> UriHeaderM {
        UriHeaderM { name: self.name@, value: self.value@ }
    }
}

/// `user[:password]` before the `@` of a SIP URI.
#[derive(Debug, Clone, PartialEq, Eq)]
pub struct UserInfo {
    pub user: String,
    pub password: Option<String>,
}

pub struct UserInfoM {
    pub user: Seq<char>,
    pub password: Option<Seq<char>>,
}

impl View for UserInfo {
    type V = UserInfoM;

    open spec fn view(&self) -> UserInfoM {
        UserInfoM {
            user: self.user@,
            password: match &self.password {
                Some(p) => Some(p@),
                None => None,
            },
        }
    }
}

/// `host[:port]`
#[derive(Debug, Clone, PartialEq, Eq)]
pub struct HostPort {
    pub hostname: String,
    pub port: Option<u16>,
}

pub struct HostPortM {
    pub hostname: Seq<char>,
    pub port: Option<u16>,
}

impl View for HostPort {
    type V = HostPortM;

    open spec fn view(&self) -> HostPortM {
        HostPortM { hostname: self.hostname@, port: self.port }
    }
}

/// The part of a `sip:` or `sips:` URI after the scheme.
#[derive(Debug, Clone, PartialEq, Eq)]
pub struct SipUri {
    pub userinfo: Option<UserInfo>,
    pub hostport: HostPort,
    pub parameters: Vec<UriParameter>,
    pub headers: Vec<UriHeader>,
}

pub struct SipUriM {
    pub userinfo: Option<UserInfoM>,
    pub hostport: HostPortM,
    pub parameters: Seq<UriParameterM>,
    pub headers: Seq<UriHeaderM>,
}

impl View for SipUri {
    type V = SipUriM;

    open spec fn view(&self) -> SipUriM {
        SipUriM {
            userinfo: match &self.userinfo {
                Some(u) => Some(u@),
                None => None,
            },
            hostport: self.hostport@,
            parameters: views(self.parameters@),
            headers: views(self.headers@),
        }
    }
}

/// A request URI or an address.
#[derive(Debug, Clone, PartialEq, Eq)]
pub enum Uri {
    Sip(SipUri),
    Sips(SipUri),
    Absolute { scheme: String, opaque: String },
}

pub enum UriM {
    Sip(SipUriM),
    Sips(SipUriM),
    Absolute(Seq<char>, Seq<char>),
}

impl View for Uri {
    type V = UriM;

    open spec fn view(&self) -> UriM {
        match self {
            Uri::Sip(u) => UriM::Sip(u@),
            Uri::Sips(u) => UriM::Sips(u@),
            Uri::Absolute { scheme, opaque } => UriM::Absolute(scheme@, opaque@),
        }
    }
}

// ---------------------------------------------------------------------------
// Literals
// ---------------------------------------------------------------------------

pub open spec fn lit_sip() -> Seq<u8> {
    seq![0x73u8, 0x69u8, 0x70u8, 0x3au8]
}

pub open spec fn lit_sips() -> Seq<u8> {
    seq![0x73u8, 0x69u8, 0x70u8, 0x73u8, 0x3au8]
}

pub open spec fn lit_transport() -> Seq<u8> {
    seq![0x74u8, 0x72u8, 0x61u8, 0x6eu8, 0x73u8, 0x70u8, 0x6fu8, 0x72u8, 0x74u8, 0x3du8]
}

pub open spec fn lit_user() -> Seq<u8> {
    seq![0x75u8, 0x73u8, 0x65u8, 0x72u8, 0x3du8]
}

pub open spec fn lit_method() -> Seq<u8> {
    seq![0x6du8, 0x65u8, 0x74u8, 0x68u8, 0x6fu8, 0x64u8, 0x3du8]
}

pub open spec fn lit_ttl() -> Seq<u8> {
    seq![0x74u8, 0x74u8, 0x6cu8, 0x3du8]
}

pub open spec fn lit_maddr() -> Seq<u8> {
    seq![0x6du8, 0x61u8, 0x64u8, 0x64u8, 0x72u8, 0x3du8]
}

pub open spec fn lit_lr() -> Seq<u8> {
    seq![0x6cu8, 0x72u8]
}

pub open spec fn lit_udp() -> Seq<u8> {
    seq![0x75u8, 0x64u8, 0x70u8]
}

pub open spec fn lit_tcp() -> Seq<u8> {
    seq![0x74u8, 0x63u8, 0x70u8]
}

pub open spec fn lit_sctp() -> Seq<u8> {
    seq![0x73u8, 0x63u8, 0x74u8, 0x70u8]
}

pub open spec fn lit_tls() -> Seq<u8> {
    seq![0x74u8, 0x6cu8, 0x73u8]
}

pub open spec fn lit_phone() -> Seq<u8> {
    seq![0x70u8, 0x68u8, 0x6fu8, 0x6eu8, 0x65u8]
}

pub open spec fn lit_ip() -> Seq<u8> {
    seq![0x69u8, 0x70u8]
}

// ---------------------------------------------------------------------------
// The grammar, as spec functions
// ---------------------------------------------------------------------------

/// The text `s[i..e]` read as ASCII.
pub open spec fn ascii_at(s: Seq<u8>, i: int, e: int) -> Seq<char> {
    ascii_chars(s.subrange(i, e))
}

/// transport-param value: `udp`, `tcp`, `sctp`, `tls`, else a token.
pub open spec fn transport_param_p(s: Seq<u8>, i: int) -> Option<(int, TransportParamM)> {
    if lit_at(s, i, lit_udp()) {
        Some((i + 3, TransportParamM::Udp))
    } else if lit_at(s, i, lit_tcp()) {
        Some((i + 3, TransportParamM::Tcp))
    } else if lit_at(s, i, lit_sctp()) {
        Some((i + 4, TransportParamM::Sctp))
    } else if lit_at(s, i, lit_tls()) {
        Some((i + 3, TransportParamM::Tls))
    } else {
        match token_end(s, i) {
            Some(e) => Some((e, TransportParamM::Other(ascii_at(s, i, e)))),
            None => None,
        }
    }
}

/// user-param value: `phone`, `ip`, else a token.
pub open spec fn user_param_p(s: Seq<u8>, i: int) -> Option<(int, UserParamM)> {
    if lit_at(s, i, lit_phone()) {
        Some((i + 5, UserParamM::Phone))
    } else if lit_at(s, i, lit_ip()) {
        Some((i + 2, UserParamM::Ip))
    } else {
        match token_end(s, i) {
            Some(e) => Some((e, UserParamM::Other(ascii_at(s, i, e)))),
            None => None,
        }
    }
}

pub open spec fn transport_alt(s: Seq<u8>, j: int) -> Option<(int, UriParameterM)> {
    if lit_at(s, j, lit_transport()) {
        match transport_param_p(s, j + 10) {
            Some((e, t)) => Some((e, UriParameterM::Transport(t))),
            None => None,
        }
    } else {
        None
    }
}

pub open spec fn user_alt(s: Seq<u8>, j: int) -> Option<(int, UriParameterM)> {
    if lit_at(s, j, lit_user()) {
        match user_param_p(s, j + 5) {
            Some((e, u)) => Some((e, UriParameterM::User(u))),
            None => None,
        }
    } else {
        None
    }
}

pub open spec fn method_alt(s: Seq<u8>, j: int) -> Option<(int, UriParameterM)> {
    if lit_at(s, j, lit_method()) {
        match method_p(s, j + 7) {
            Some((e, m)) => Some((e, UriParameterM::Method(m))),
            None => None,
        }
    } else {
        None
    }
}

pub open spec fn ttl_alt(s: Seq<u8>, j: int) -> Option<(int, UriParameterM)> {
    if lit_at(s, j, lit_ttl()) {
        match number_end(s, j + 4, 255) {
            Some((e, v)) => Some((e, UriParameterM::Ttl(v as u8))),
            None => None,
        }
    } else {
        None
    }
}

pub open spec fn maddr_alt(s: Seq<u8>, j: int) -> Option<(int, UriParameterM)> {
    if lit_at(s, j, lit_maddr()) {
        let e = scan(s, j + 6, Class::Host);
        Some((e, UriParameterM::Maddr(ascii_at(s, j + 6, e))))
    } else {
        None
    }
}

pub open spec fn lr_alt(s: Seq<u8>, j: int) -> Option<(int, UriParameterM)> {
    if lit_at(s, j, lit_lr()) {
        Some((j + 2, UriParameterM::Lr))
    } else {
        None
    }
}

/// other-param = 1*paramchar "=" *paramchar
pub open spec fn other_alt(s: Seq<u8>, j: int) -> Option<(int, UriParameterM)> {
    match run_end(s, j, Class::ParamChar) {
        Some(n) => if byte_at(s, n, 0x3d) {
            let e = scan(s, n + 1, Class::ParamChar);
            Some((e, UriParameterM::Other(ascii_at(s, j, n), ascii_at(s, n + 1, e))))
        } else {
            None
        },
        None => None,
    }
}

/// uri-parameter = ";" ( transport / user / method / ttl / maddr / lr / other ),
/// the first alternative that matches.
pub open spec fn uri_parameter_p(s: Seq<u8>, i: int) -> Option<(int, UriParameterM)> {
    if byte_at(s, i, 0x3b) {
        let j = i + 1;
        first_of(
            transport_alt(s, j),
            first_of(
                user_alt(s, j),
                first_of(
                    method_alt(s, j),
                    first_of(
                        ttl_alt(s, j),
                        first_of(maddr_alt(s, j), first_of(lr_alt(s, j), other_alt(s, j))),
                    ),
                ),
            ),
        )
    } else {
        None
    }
}

/// *uri-parameter
pub open spec fn uri_parameters_p(s: Seq<u8>, i: int) -> (int, Seq<UriParameterM>)
    decreases s.len() - i,
{
    match uri_parameter_p(s, i) {
        Some((e, p)) => if i < e <= s.len() {
            let (f, ps) = uri_parameters_p(s, e);
            (f, seq![p] + ps)
        } else {
            (i, seq![])
        },
        None => (i, seq![]),
    }
}

/// The end of a run of header characters: unreserved, hnv-unreserved or escaped.
pub open spec fn hchars_end(s: Seq<u8>, i: int) -> int
    decreases s.len() - i,
{
    if 0 <= i < s.len() && (in_class(Class::Unreserved, s[i]) || in_class(
        Class::HnvUnreserved,
        s[i],
    )) {
        hchars_end(s, i + 1)
    } else if 0 <= i && escaped_at(s, i) {
        hchars_end(s, i + 3)
    } else {
        i
    }
}

/// header = hname "=" hvalue
pub open spec fn uri_header_p(s: Seq<u8>, i: int) -> Option<(int, UriHeaderM)> {
    let n = hchars_end(s, i);
    if n > i && byte_at(s, n, 0x3d) {
        let e = hchars_end(s, n + 1);
        Some((e, UriHeaderM { name: ascii_at(s, i, n), value: ascii_at(s, n + 1, e) }))
    } else {
        None
    }
}

/// *( "&" header )
pub open spec fn more_uri_headers_p(s: Seq<u8>, i: int) -> (int, Seq<UriHeaderM>)
    decreases s.len() - i,
{
    if byte_at(s, i, 0x26) {
        match uri_header_p(s, i + 1) {
            Some((e, h)) => if i < e <= s.len() {
                let (f, hs) = more_uri_headers_p(s, e);
                (f, seq![h] + hs)
            } else {
                (i, seq![])
            },
            None => (i, seq![]),
        }
    } else {
        (i, seq![])
    }
}

/// [ "?" header *( "&" header ) ]: once the `?` is there, a header must follow.
pub open spec fn uri_headers_p(s: Seq<u8>, i: int) -> Option<(int, Seq<UriHeaderM>)> {
    if byte_at(s, i, 0x3f) {
        match uri_header_p(s, i + 1) {
            Some((e, h)) => {
                let (f, hs) = more_uri_headers_p(s, e);
                Some((f, seq![h] + hs))
            },
            None => None,
        }
    } else {
        Some((i, seq![]))
    }
}

/// userinfo = user [ ":" password ] "@"
pub open spec fn userinfo_p(s: Seq<u8>, i: int) -> Option<(int, UserInfoM)> {
    match run_end(s, i, Class::User) {
        Some(u) => {
            let (a, password) = if byte_at(s, u, 0x3a) {
                let p = scan(s, u + 1, Class::Password);
                (p, Some(ascii_at(s, u + 1, p)))
            } else {
                (u, None)
            };
            if byte_at(s, a, 0x40) {
                Some((a + 1, UserInfoM { user: ascii_at(s, i, u), password }))
            } else {
                None
            }
        },
        None => None,
    }
}

/// hostport = host [ ":" port ], the port at most 65535.
pub open spec fn hostport_p(s: Seq<u8>, i: int) -> Option<(int, HostPortM)> {
    let h = scan(s, i, Class::Host);
    let hostname = ascii_at(s, i, h);
    if byte_at(s, h, 0x3a) {
        match number_end(s, h + 1, 65535) {
            Some((e, v)) => Some((e, HostPortM { hostname, port: Some(v as u16) })),
            None => None,
        }
    } else {
        Some((h, HostPortM { hostname, port: None }))
    }
}

/// [ userinfo ] hostport *uri-parameter [ headers ]; userinfo is all or nothing.
pub open spec fn sip_uri_p(s: Seq<u8>, i: int) -> Option<(int, SipUriM)> {
    let (a, userinfo) = match userinfo_p(s, i) {
        Some((e, u)) => (e, Some(u)),
        None => (i, None),
    };
    match hostport_p(s, a) {
        Some((b, hostport)) => {
            let (c, parameters) = uri_parameters_p(s, b);
            match uri_headers_p(s, c) {
                Some((d, headers)) => Some(
                    (d, SipUriM { userinfo, hostport, parameters, headers }),
                ),
                None => None,
            }
        },
        None => None,
    }
}

/// scheme = ALPHA *( ALPHA / DIGIT / "+" / "-" / "." ) ":"; the end of the scheme name.
pub open spec fn scheme_end(s: Seq<u8>, i: int) -> Option<int> {
    let e = scan(s, i, Class::Scheme);
    if 0 <= i < s.len() && is_alpha(s[i]) && byte_at(s, e, 0x3a) {
        Some(e)
    } else {
        None
    }
}

/// `sip:` SipUri, `sips:` SipUri, or scheme ":" 1*uric.
pub open spec fn uri_p(s: Seq<u8>, i: int) -> Option<(int, UriM)> {
    if lit_at(s, i, lit_sip()) {
        match sip_uri_p(s, i + 4) {
            Some((e, u)) => Some((e, UriM::Sip(u))),
            None => None,
        }
    } else if lit_at(s, i, lit_sips()) {
        match sip_uri_p(s, i + 5) {
            Some((e, u)) => Some((e, UriM::Sips(u))),
            None => None,
        }
    } else {
        match scheme_end(s, i) {
            Some(c) => match run_end(s, c + 1, Class::Uric) {
                Some(e) => Some((e, UriM::Absolute(ascii_at(s, i, c), ascii_at(s, c + 1, e)))),
                None => None,
            },
            None => None,
        }
    }
}

// ---------------------------------------------------------------------------
// The grammar, executable
// ---------------------------------------------------------------------------

fn text_run(s: &[u8], i: usize, e: usize, c: Class) -> (r: String)
    requires
        i <= s.len(),
        e == scan(s@, i as int, c),
        c != Class::Wsp && c != Class::NotDquote,
    ensures
        r@ == ascii_at(s@, i as int, e as int),
{
    proof {
        lemma_scan(s@, i as int, c);
    }
    ascii_text(s, i, e, c)
}

pub fn transport_param_at(s: &[u8], i: usize) -> (r: Option<(usize, TransportParam)>)
    requires
        i <= s.len(),
    ensures
        parsed(r, transport_param_p(s@, i as int), i as int, s@.len() as int),
{
    let udp: [u8; 3] = [0x75, 0x64, 0x70];
    let tcp: [u8; 3] = [0x74, 0x63, 0x70];
    let sctp: [u8; 4] = [0x73, 0x63, 0x74, 0x70];
    let tls: [u8; 3] = [0x74, 0x6c, 0x73];
    assert(udp@ =~= lit_udp());
    assert(tcp@ =~= lit_tcp());
    assert(sctp@ =~= lit_sctp());
    assert(tls@ =~= lit_tls());
    if starts_at(s, i, udp.as_slice()) {
        Some((i + 3, TransportParam::Udp))
    } else if starts_at(s, i, tcp.as_slice()) {
        Some((i + 3, TransportParam::Tcp))
    } else if starts_at(s, i, sctp.as_slice()) {
        Some((i + 4, TransportParam::Sctp))
    } else if starts_at(s, i, tls.as_slice()) {
        Some((i + 3, TransportParam::Tls))
    } else {
        match run_at(s, i, Class::Token) {
            Some(e) => Some((e, TransportParam::Other(text_run(s, i, e, Class::Token)))),
            None => None,
        }
    }
}

pub fn user_param_at(s: &[u8], i: usize) -> (r: Option<(usize, UserParam)>)
    requires
        i <= s.len(),
    ensures
        parsed(r, user_param_p(s@, i as int), i as int, s@.len() as int),
{
    let phone: [u8; 5] = [0x70, 0x68, 0x6f, 0x6e, 0x65];
    let ip: [u8; 2] = [0x69, 0x70];
    assert(phone@ =~= lit_phone());
    assert(ip@ =~= lit_ip());
    if starts_at(s, i, phone.as_slice()) {
        Some((i + 5, UserParam::Phone))
    } else if starts_at(s, i, ip.as_slice()) {
        Some((i + 2, UserParam::Ip))
    } else {
        match run_at(s, i, Class::Token) {
            Some(e) => Some((e, UserParam::Other(text_run(s, i, e, Class::Token)))),
            None => None,
        }
    }
}

fn transport_alt_at(s: &[u8], j: usize) -> (r: Option<(usize, UriParameter)>)
    requires
        j <= s.len(),
    ensures
        parsed(r, transport_alt(s@, j as int), j as int, s@.len() as int),
{
    let lit: [u8; 10] = [0x74, 0x72, 0x61, 0x6e, 0x73, 0x70, 0x6f, 0x72, 0x74, 0x3d];
    assert(lit@ =~= lit_transport());
    if starts_at(s, j, lit.as_slice()) {
        match transport_param_at(s, j + 10) {
            Some((e, t)) => Some((e, UriParameter::Transport(t))),
            None => None,
        }
    } else {
        None
    }
}

fn user_alt_at(s: &[u8], j: usize) -> (r: Option<(usize, UriParameter)>)
    requires
        j <= s.len(),
    ensures
        parsed(r, user_alt(s@, j as int), j as int, s@.len() as int),
{
    let lit: [u8; 5] = [0x75, 0x73, 0x65, 0x72, 0x3d];
    assert(lit@ =~= lit_user());
    if starts_at(s, j, lit.as_slice()) {
        match user_param_at(s, j + 5) {
            Some((e, u)) => Some((e, UriParameter::User(u))),
            None => None,
        }
    } else {
        None
    }
}

fn method_alt_at(s: &[u8], j: usize) -> (r: Option<(usize, UriParameter)>)
    requires
        j <= s.len(),
    ensures
        parsed(r, method_alt(s@, j as int), j as int, s@.len() as int),
{
    let lit: [u8; 7] = [0x6d, 0x65, 0x74, 0x68, 0x6f, 0x64, 0x3d];
    assert(lit@ =~= lit_method());
    if starts_at(s, j, lit.as_slice()) {
        match method_at(s, j + 7) {
            Some((e, m)) => Some((e, UriParameter::Method(m))),
            None => None,
        }
    } else {
        None
    }
}

fn ttl_alt_at(s: &[u8], j: usize) -> (r: Option<(usize, UriParameter)>)
    requires
        j <= s.len(),
    ensures
        parsed(r, ttl_alt(s@, j as int), j as int, s@.len() as int),
{
    let lit: [u8; 4] = [0x74, 0x74, 0x6c, 0x3d];
    assert(lit@ =~= lit_ttl());
    if starts_at(s, j, lit.as_slice()) {
        match number_at(s, j + 4, 255) {
            Some((e, v)) => Some((e, UriParameter::Ttl(v as u8))),
            None => None,
        }
    } else {
        None
    }
}

fn maddr_alt_at(s: &[u8], j: usize) -> (r: Option<(usize, UriParameter)>)
    requires
        j <= s.len(),
    ensures
        parsed(r, maddr_alt(s@, j as int), j as int, s@.len() as int),
{
    let lit: [u8; 6] = [0x6d, 0x61, 0x64, 0x64, 0x72, 0x3d];
    assert(lit@ =~= lit_maddr());
    if starts_at(s, j, lit.as_slice()) {
        let e = scan_at(s, j + 6, Class::Host);
        Some((e, UriParameter::Maddr(text_run(s, j + 6, e, Class::Host))))
    } else {
        None
    }
}

fn lr_alt_at(s: &[u8], j: usize) -> (r: Option<(usize, UriParameter)>)
    requires
        j <= s.len(),
    ensures
        parsed(r, lr_alt(s@, j as int), j as int, s@.len() as int),
{
    let lit: [u8; 2] = [0x6c, 0x72];
    assert(lit@ =~= lit_lr());
    if starts_at(s, j, lit.as_slice()) {
        Some((j + 2, UriParameter::Lr))
    } else {
        None
    }
}

fn other_alt_at(s: &[u8], j: usize) -> (r: Option<(usize, UriParameter)>)
    requires
        j <= s.len(),
    ensures
        parsed(r, other_alt(s@, j as int), j as int, s@.len() as int),
{
    match run_at(s, j, Class::ParamChar) {
        Some(n) => if byte_is(s, n, 0x3d) {
            let e = scan_at(s, n + 1, Class::ParamChar);
            let name = text_run(s, j, n, Class::ParamChar);
            let value = text_run(s, n + 1, e, Class::ParamChar);
            Some((e, UriParameter::Other { name, value }))
        } else {
            None
        },
        None => None,
    }
}

pub fn uri_parameter_at(s: &[u8], i: usize) -> (r: Option<(usize, UriParameter)>)
    requires
        i <= s.len(),
    ensures
        parsed(r, uri_parameter_p(s@, i as int), i as int, s@.len() as int),
        r matches Some((e, _)) ==> i < e,
{
    if !byte_is(s, i, 0x3b) {
        return None;
    }
    let j = i + 1;
    if let Some(x) = transport_alt_at(s, j) {
        return Some(x);
    }
    if let Some(x) = user_alt_at(s, j) {
        return Some(x);
    }
    if let Some(x) = method_alt_at(s, j) {
        return Some(x);
    }
    if let Some(x) = ttl_alt_at(s, j) {
        return Some(x);
    }
    if let Some(x) = maddr_alt_at(s, j) {
        return Some(x);
    }
    if let Some(x) = lr_alt_at(s, j) {
        return Some(x);
    }
    other_alt_at(s, j)
}

pub fn uri_parameters_at(s: &[u8], i: usize) -> (r: (usize, Vec<UriParameter>))
    requires
        i <= s.len(),
    ensures
        uri_parameters_p(s@, i as int) == (r.0 as int, views(r.1@)),
        i <= r.0 <= s.len(),
{
    let mut k = i;
    let mut acc: Vec<UriParameter> = Vec::new();
    while k <= s.len()
        invariant
            i <= k <= s.len(),
            uri_parameters_p(s@, i as int) == (
                uri_parameters_p(s@, k as int).0,
                views(acc@) + uri_parameters_p(s@, k as int).1,
            ),
        decreases s.len() + 1 - k,
    {
        match uri_parameter_at(s, k) {
            Some((e, p)) => {
                let ghost old_acc = acc@;
                acc.push(p);
                proof {
                    assert(views(acc@) =~= views(old_acc) + seq![p@]);
                    assert(views(acc@) + uri_parameters_p(s@, e as int).1 =~= views(old_acc) + (
                    seq![p@] + uri_parameters_p(s@, e as int).1));
                }
                k = e;
            },
            None => {
                assert(views(acc@) + seq![] =~= views(acc@));
                return (k, acc);
            },
        }
    }
    (k, acc)
}

pub proof fn lemma_hchars(s: Seq<u8>, i: int)
    requires
        0 <= i <= s.len(),
    ensures
        i <= hchars_end(s, i) <= s.len(),
        all_ascii(s.subrange(i, hchars_end(s, i))),
    decreases s.len() - i,
{
    let sub = s.subrange(i, hchars_end(s, i));
    if i < s.len() && (in_class(Class::Unreserved, s[i]) || in_class(Class::HnvUnreserved, s[i])) {
        lemma_hchars(s, i + 1);
        let tail = s.subrange(i + 1, hchars_end(s, i + 1));
        assert forall|k: int| 0 <= k < sub.len() implies #[trigger] sub[k] < 0x80 by {
            if k > 0 {
                assert(sub[k] == tail[k - 1]);
            }
        }
    } else if escaped_at(s, i) {
        lemma_hchars(s, i + 3);
        let tail = s.subrange(i + 3, hchars_end(s, i + 3));
        assert forall|k: int| 0 <= k < sub.len() implies #[trigger] sub[k] < 0x80 by {
            if k >= 3 {
                assert(sub[k] == tail[k - 3]);
            }
        }
    }
}

fn hchars_at(s: &[u8], i: usize) -> (r: usize)
    requires
        i <= s.len(),
    ensures
        r == hchars_end(s@, i as int),
        i <= r <= s.len(),
{
    proof {
        lemma_hchars(s@, i as int);
    }
    let mut k = i;
    while k < s.len()
        invariant
            i <= k <= s.len(),
            hchars_end(s@, k as int) == hchars_end(s@, i as int),
        decreases s.len() - k,
    {
        if class_of_hchar(s[k]) {
            k += 1;
        } else if escaped_is(s, k) {
            k += 3;
        } else {
            return k;
        }
    }
    k
}

fn class_of_hchar(b: u8) -> (r: bool)
    ensures
        r == (in_class(Class::Unreserved, b) || in_class(Class::HnvUnreserved, b)),
{
    crate::parse_utils::class_has(Class::Unreserved, b) || crate::parse_utils::class_has(
        Class::HnvUnreserved,
        b,
    )
}

fn hchars_text(s: &[u8], i: usize, e: usize) -> (r: String)
    requires
        i <= s.len(),
        e == hchars_end(s@, i as int),
    ensures
        r@ == ascii_at(s@, i as int, e as int),
{
    proof {
        lemma_hchars(s@, i as int);
    }
    ascii_text_of(s, i, e)
}

fn ascii_text_of(s: &[u8], i: usize, e: usize) -> (r: String)
    requires
        i <= e <= s.len(),
        all_ascii(s@.subrange(i as int, e as int)),
    ensures
        r@ == ascii_at(s@, i as int, e as int),
{
    proof {
        lemma_ascii_utf8(s@.subrange(i as int, e as int));
    }
    match crate::parse_utils::text_of(s, i, e) {
        Some(t) => t,
        None => String::new(),
    }
}

pub fn uri_header_at(s: &[u8], i: usize) -> (r: Option<(usize, UriHeader)>)
    requires
        i <= s.len(),
    ensures
        parsed(r, uri_header_p(s@, i as int), i as int, s@.len() as int),
        r matches Some((e, _)) ==> i < e,
{
    let n = hchars_at(s, i);
    if n > i && byte_is(s, n, 0x3d) {
        let e = hchars_at(s, n + 1);
        let name = hchars_text(s, i, n);
        let value = hchars_text(s, n + 1, e);
        Some((e, UriHeader { name, value }))
    } else {
        None
    }
}

pub fn uri_headers_at(s: &[u8], i: usize) -> (r: Option<(usize, Vec<UriHeader>)>)
    requires
        i <= s.len(),
    ensures
        match r {
            Some((e, hs)) => uri_headers_p(s@, i as int) == Some((e as int, views(hs@))) && i <= e
                <= s.len(),
            None => uri_headers_p(s@, i as int) is None,
        },
{
    if !byte_is(s, i, 0x3f) {
        let v: Vec<UriHeader> = Vec::new();
        assert(views(v@) =~= seq![]);
        return Some((i, v));
    }
    let (e0, first) = match uri_header_at(s, i + 1) {
        Some(x) => x,
        None => return None,
    };
    let mut acc: Vec<UriHeader> = Vec::new();
    acc.push(first);
    let mut k = e0;
    proof {
        assert(views(acc@) =~= seq![first@]);
    }
    while k <= s.len()
        invariant
            i < k <= s.len(),
            uri_headers_p(s@, i as int) == Some(
                (
                    more_uri_headers_p(s@, k as int).0,
                    views(acc@) + more_uri_headers_p(s@, k as int).1,
                ),
            ),
        decreases s.len() + 1 - k,
    {
        if !byte_is(s, k, 0x26) {
            assert(views(acc@) + seq![] =~= views(acc@));
            return Some((k, acc));
        }
        match uri_header_at(s, k + 1) {
            Some((e, h)) => {
                let ghost old_acc = acc@;
                acc.push(h);
                proof {
                    assert(views(acc@) =~= views(old_acc) + seq![h@]);
                    assert(views(acc@) + more_uri_headers_p(s@, e as int).1 =~= views(old_acc) + (
                    seq![h@] + more_uri_headers_p(s@, e as int).1));
                }
                k = e;
            },
            None => {
                assert(views(acc@) + seq![] =~= views(acc@));
                return Some((k, acc));
            },
        }
    }
    Some((k, acc))
}

pub fn userinfo_at(s: &[u8], i: usize) -> (r: Option<(usize, UserInfo)>)
    requires
        i <= s.len(),
    ensures
        parsed(r, userinfo_p(s@, i as int), i as int, s@.len() as int),
{
    let u = match run_at(s, i, Class::User) {
        Some(u) => u,
        None => return None,
    };
    let (a, password) = if byte_is(s, u, 0x3a) {
        let p = scan_at(s, u + 1, Class::Password);
        (p, Some(text_run(s, u + 1, p, Class::Password)))
    } else {
        (u, None)
    };
    if byte_is(s, a, 0x40) {
        let user = text_run(s, i, u, Class::User);
        Some((a + 1, UserInfo { user, password }))
    } else {
        None
    }
}

pub fn hostport_at(s: &[u8], i: usize) -> (r: Option<(usize, HostPort)>)
    requires
        i <= s.len(),
    ensures
        parsed(r, hostport_p(s@, i as int), i as int, s@.len() as int),
{
    let h = scan_at(s, i, Class::Host);
    let hostname = text_run(s, i, h, Class::Host);
    if byte_is(s, h, 0x3a) {
        match number_at(s, h + 1, 65535) {
            Some((e, v)) => Some((e, HostPort { hostname, port: Some(v as u16) })),
            None => None,
        }
    } else {
        Some((h, HostPort { hostname, port: None }))
    }
}

pub fn sip_uri_at(s: &[u8], i: usize) -> (r: Option<(usize, SipUri)>)
    requires
        i <= s.len(),
    ensures
        parsed(r, sip_uri_p(s@, i as int), i as int, s@.len() as int),
{
    let (a, userinfo) = match userinfo_at(s, i) {
        Some((e, u)) => (e, Some(u)),
        None => (i, None),
    };
    let (b, hostport) = match hostport_at(s, a) {
        Some(x) => x,
        None => return None,
    };
    let (c, parameters) = uri_parameters_at(s, b);
    let (d, headers) = match uri_headers_at(s, c) {
        Some(x) => x,
        None => return None,
    };
    Some((d, SipUri { userinfo, hostport, parameters, headers }))
}

pub fn uri_at(s: &[u8], i: usize) -> (r: Option<(usize, Uri)>)
    requires
        i <= s.len(),
    ensures
        parsed(r, uri_p(s@, i as int), i as int, s@.len() as int),
{
    let sip: [u8; 4] = [0x73, 0x69, 0x70, 0x3a];
    let sips: [u8; 5] = [0x73, 0x69, 0x70, 0x73, 0x3a];
    assert(sip@ =~= lit_sip());
    assert(sips@ =~= lit_sips());
    if starts_at(s, i, sip.as_slice()) {
        match sip_uri_at(s, i + 4) {
            Some((e, u)) => Some((e, Uri::Sip(u))),
            None => None,
        }
    } else if starts_at(s, i, sips.as_slice()) {
        match sip_uri_at(s, i + 5) {
            Some((e, u)) => Some((e, Uri::Sips(u))),
            None => None,
        }
    } else {
        if i >= s.len() || !is_alpha_byte(s[i]) {
            return None;
        }
        let c = scan_at(s, i, Class::Scheme);
        if !byte_is(s, c, 0x3a) {
            return None;
        }
        match run_at(s, c + 1, Class::Uric) {
            Some(e) => {
                let scheme = text_run(s, i, c, Class::Scheme);
                let opaque = text_run(s, c + 1, e, Class::Uric);
                Some((e, Uri::Absolute { scheme, opaque }))
            },
            None => None,
        }
    }
}

fn is_alpha_byte(b: u8) -> (r: bool)
    ensures
        r == is_alpha(b),
{
    (0x41 <= b && b <= 0x5a) || (0x61 <= b && b <= 0x7a)
}

// ---------------------------------------------------------------------------
// Slice-level entry points
// ---------------------------------------------------------------------------

impl TransportParam {
    pub fn parse(src: &[u8]) -> (r: ParseResult<TransportParam>)
        ensures
            slice_parsed(src@, transport_param_p(src@, 0), r),
    {
        let m = transport_param_at(src, 0);
        finish(src, m)
    }
}

impl UserParam {
    pub fn parse(src: &[u8]) -> (r: ParseResult<UserParam>)
        ensures
            slice_parsed(src@, user_param_p(src@, 0), r),
    {
        let m = user_param_at(src, 0);
        finish(src, m)
    }
}

impl UriParameter {
    pub fn parse(src: &[u8]) -> (r: ParseResult<UriParameter>)
        ensures
            slice_parsed(src@, uri_parameter_p(src@, 0), r),
    {
        let m = uri_parameter_at(src, 0);
        finish(src, m)
    }
}

/// The header part of a SIP URI; empty when there is no `?`.
pub fn parse_headers(src: &[u8]) -> (r: ParseResult<Vec<UriHeader>>)
    ensures
        match uri_headers_p(src@, 0) {
            Some((e, hs)) => r matches Ok((rest, v)) && rest@ == src@.subrange(
                e,
                src@.len() as int,
            ) && views(v@) == hs,
            None => r is Err,
        },
{
    let m = uri_headers_at(src, 0);
    finish(src, m)
}

impl UserInfo {
    pub fn parse(src: &[u8]) -> (r: ParseResult<UserInfo>)
        ensures
            slice_parsed(src@, userinfo_p(src@, 0), r),
    {
        let m = userinfo_at(src, 0);
        finish(src, m)
    }
}

impl HostPort {
    pub fn parse(src: &[u8]) -> (r: ParseResult<HostPort>)
        ensures
            slice_parsed(src@, hostport_p(src@, 0), r),
    {
        let m = hostport_at(src, 0);
        finish(src, m)
    }
}

impl SipUri {
    pub fn parse(src: &[u8]) -> (r: ParseResult<SipUri>)
        ensures
            slice_parsed(src@, sip_uri_p(src@, 0), r),
    {
        let m = sip_uri_at(src, 0);
        finish(src, m)
    }
}

impl Uri {
    pub fn parse(src: &[u8]) -> (r: ParseResult<Uri>)
        ensures
            slice_parsed(src@, uri_p(src@, 0), r),
    {
        let m = uri_at(src, 0);
        finish(src, m)
    }
}

} // verus!

verus! {

// ---------------------------------------------------------------------------
// Rendering
// ---------------------------------------------------------------------------

pub open spec fn transport_param_text(t: TransportParamM) -> Seq<char> {
    match t {
        TransportParamM::Udp => seq!['u', 'd', 'p'],
        TransportParamM::Tcp => seq!['t', 'c', 'p'],
        TransportParamM::Sctp => seq!['s', 'c', 't', 'p'],
        TransportParamM::Tls => seq!['t', 'l', 's'],
        TransportParamM::Other(o) => o,
    }
}

pub open spec fn user_param_text(u: UserParamM) -> Seq<char> {
    match u {
        UserParamM::Ip => seq!['i', 'p'],
        UserParamM::Phone => seq!['p', 'h', 'o', 'n', 'e'],
        UserParamM::Other(o) => o,
    }
}

/// `;name=value` as written on the wire.
pub open spec fn uri_parameter_text(p: UriParameterM) -> Seq<char> {
    seq![';'] + match p {
        UriParameterM::Transport(t) => seq!['t', 'r', 'a', 'n', 's', 'p', 'o', 'r', 't', '=']
            + transport_param_text(t),
        UriParameterM::User(u) => seq!['u', 's', 'e', 'r', '='] + user_param_text(u),
        UriParameterM::Method(m) => seq!['m', 'e', 't', 'h', 'o', 'd', '='] + method_text(m),
        UriParameterM::Ttl(t) => seq!['t', 't', 'l', '='] + decimal(t as nat),
        UriParameterM::Maddr(h) => seq!['m', 'a', 'd', 'd', 'r', '='] + h,
        UriParameterM::Lr => seq!['l', 'r'],
        UriParameterM::Other(n, v) => n + seq!['='] + v,
    }
}

pub open spec fn uri_parameters_text(ps: Seq<UriParameterM>) -> Seq<char>
    decreases ps.len(),
{
    if ps.len() == 0 {
        seq![]
    } else {
        uri_parameters_text(ps.drop_last()) + uri_parameter_text(ps.last())
    }
}

pub open spec fn uri_header_text(h: UriHeaderM) -> Seq<char> {
    h.name + seq!['='] + h.value
}

/// `h1&h2&...`
pub open spec fn uri_headers_list_text(hs: Seq<UriHeaderM>) -> Seq<char>
    decreases hs.len(),
{
    if hs.len() == 0 {
        seq![]
    } else if hs.len() == 1 {
        uri_header_text(hs[0])
    } else {
        uri_headers_list_text(hs.drop_last()) + seq!['&'] + uri_header_text(hs.last())
    }
}

/// `?h1&h2...`, or nothing without headers.
pub open spec fn uri_headers_text(hs: Seq<UriHeaderM>) -> Seq<char> {
    if hs.len() == 0 {
        seq![]
    } else {
        seq!['?'] + uri_headers_list_text(hs)
    }
}

pub open spec fn userinfo_text(u: UserInfoM) -> Seq<char> {
    u.user + match u.password {
        Some(p) => seq![':'] + p,
        None => seq![],
    } + seq!['@']
}

pub open spec fn hostport_text(h: HostPortM) -> Seq<char> {
    h.hostname + match h.port {
        Some(p) => seq![':'] + decimal(p as nat),
        None => seq![],
    }
}

pub open spec fn sip_uri_text(u: SipUriM) -> Seq<char> {
    (match u.userinfo {
        Some(ui) => userinfo_text(ui),
        None => seq![],
    }) + hostport_text(u.hostport) + uri_parameters_text(u.parameters) + uri_headers_text(
        u.headers,
    )
}

pub open spec fn uri_text(u: UriM) -> Seq<char> {
    match u {
        UriM::Sip(s) => seq!['s', 'i', 'p', ':'] + sip_uri_text(s),
        UriM::Sips(s) => seq!['s', 'i', 'p', 's', ':'] + sip_uri_text(s),
        UriM::Absolute(scheme, opaque) => scheme + seq![':'] + opaque,
    }
}

impl TransportParam {
    pub fn write(&self, out: &mut String)
        ensures
            final(out)@ == old(out)@ + transport_param_text(self@),
    {
        match self {
            TransportParam::Udp => {
                push_lit(out, "udp");
                proof {
                    reveal_strlit("udp");
                }
            },
            TransportParam::Tcp => {
                push_lit(out, "tcp");
                proof {
                    reveal_strlit("tcp");
                }
            },
            TransportParam::Sctp => {
                push_lit(out, "sctp");
                proof {
                    reveal_strlit("sctp");
                }
            },
            TransportParam::Tls => {
                push_lit(out, "tls");
                proof {
                    reveal_strlit("tls");
                }
            },
            TransportParam::Other(o) => push_lit(out, o.as_str()),
        }
    }

    pub fn to_string(&self) -> (r: String)
        ensures
            r@ == transport_param_text(self@),
    {
        let mut out = String::new();
        self.write(&mut out);
        out
    }
}

impl UserParam {
    pub fn write(&self, out: &mut String)
        ensures
            final(out)@ == old(out)@ + user_param_text(self@),
    {
        match self {
            UserParam::Ip => {
                push_lit(out, "ip");
                proof {
                    reveal_strlit("ip");
                }
            },
            UserParam::Phone => {
                push_lit(out, "phone");
                proof {
                    reveal_strlit("phone");
                }
            },
            UserParam::Other(o) => push_lit(out, o.as_str()),
        }
    }

    pub fn to_string(&self) -> (r: String)
        ensures
            r@ == user_param_text(self@),
    {
        let mut out = String::new();
        self.write(&mut out);
        out
    }
}

impl UriParameter {
    pub fn write(&self, out: &mut String)
        ensures
            final(out)@ == old(out)@ + uri_parameter_text(self@),
    {
        let ghost start = out@;
        push_lit(out, ";");
        proof {
            reveal_strlit(";");
        }
        match self {
            UriParameter::Transport(t) => {
                push_lit(out, "transport=");
                proof {
                    reveal_strlit("transport=");
                }
                t.write(out);
            },
            UriParameter::User(u) => {
                push_lit(out, "user=");
                proof {
                    reveal_strlit("user=");
                }
                u.write(out);
            },
            UriParameter::Method(m) => {
                push_lit(out, "method=");
                proof {
                    reveal_strlit("method=");
                }
                let t = m.to_string();
                push_lit(out, t.as_str());
            },
            UriParameter::Ttl(t) => {
                push_lit(out, "ttl=");
                proof {
                    reveal_strlit("ttl=");
                }
                push_decimal(out, *t as u64);
            },
            UriParameter::Maddr(h) => {
                push_lit(out, "maddr=");
                proof {
                    reveal_strlit("maddr=");
                }
                push_lit(out, h.as_str());
            },
            UriParameter::Lr => {
                push_lit(out, "lr");
                proof {
                    reveal_strlit("lr");
                }
            },
            UriParameter::Other { name, value } => {
                push_lit(out, name.as_str());
                push_lit(out, "=");
                proof {
                    reveal_strlit("=");
                }
                push_lit(out, value.as_str());
            },
        }
        assert(out@ =~= start + uri_parameter_text(self@));
    }

    pub fn to_string(&self) -> (r: String)
        ensures
            r@ == uri_parameter_text(self@),
    {
        let mut out = String::new();
        self.write(&mut out);
        out
    }
}

impl UriHeader {
    pub fn to_string(&self) -> (r: String)
        ensures
            r@ == uri_header_text(self@),
    {
        let mut out = String::new();
        push_lit(&mut out, self.name.as_str());
        push_lit(&mut out, "=");
        proof {
            reveal_strlit("=");
        }
        push_lit(&mut out, self.value.as_str());
        assert(out@ =~= uri_header_text(self@));
        out
    }
}

impl UserInfo {
    pub fn write(&self, out: &mut String)
        ensures
            final(out)@ == old(out)@ + userinfo_text(self@),
    {
        let ghost start = out@;
        push_lit(out, self.user.as_str());
        if let Some(p) = &self.password {
            push_lit(out, ":");
            proof {
                reveal_strlit(":");
            }
            push_lit(out, p.as_str());
        }
        push_lit(out, "@");
        proof {
            reveal_strlit("@");
        }
        assert(out@ =~= start + userinfo_text(self@));
    }

    /// `user[:password]@`
    pub fn to_string(&self) -> (r: String)
        ensures
            r@ == userinfo_text(self@),
    {
        let mut out = String::new();
        self.write(&mut out);
        out
    }
}

impl HostPort {
    pub fn write(&self, out: &mut String)
        ensures
            final(out)@ == old(out)@ + hostport_text(self@),
    {
        let ghost start = out@;
        push_lit(out, self.hostname.as_str());
        if let Some(p) = self.port {
            push_lit(out, ":");
            proof {
                reveal_strlit(":");
            }
            push_decimal(out, p as u64);
        }
        assert(out@ =~= start + hostport_text(self@));
    }

    pub fn to_string(&self) -> (r: String)
        ensures
            r@ == hostport_text(self@),
    {
        let mut out = String::new();
        self.write(&mut out);
        out
    }
}

impl SipUri {
    pub fn write(&self, out: &mut String)
        ensures
            final(out)@ == old(out)@ + sip_uri_text(self@),
    {
        let ghost start = out@;
        if let Some(u) = &self.userinfo {
            u.write(out);
        }
        let ghost after_user = out@;
        self.hostport.write(out);
        let ghost after_host = out@;
        let mut k: usize = 0;
        while k < self.parameters.len()
            invariant
                k <= self.parameters@.len(),
                out@ == after_host + uri_parameters_text(views(self.parameters@.subrange(0, k as int))),
            decreases self.parameters@.len() - k,
        {
            self.parameters[k].write(out);
            proof {
                let ps = views(self.parameters@.subrange(0, k + 1));
                assert(ps.drop_last() =~= views(self.parameters@.subrange(0, k as int)));
            }
            k += 1;
        }
        assert(self.parameters@.subrange(0, k as int) =~= self.parameters@);
        let ghost after_params = out@;
        let n = self.headers.len();
        if n > 0 {
            push_lit(out, "?");
            proof {
                reveal_strlit("?");
            }
            let mut j: usize = 0;
            while j < n
                invariant
                    n == self.headers@.len(),
                    j <= n,
                    out@ == after_params + seq!['?'] + uri_headers_list_text(
                        views(self.headers@.subrange(0, j as int)),
                    ),
                decreases n - j,
            {
                if j > 0 {
                    push_lit(out, "&");
                    proof {
                        reveal_strlit("&");
                    }
                }
                let t = self.headers[j].to_string();
                push_lit(out, t.as_str());
                proof {
                    let hs = views(self.headers@.subrange(0, j + 1));
                    assert(hs.drop_last() =~= views(self.headers@.subrange(0, j as int)));
                    assert(hs.last() == self.headers@[j as int]@);
                    if j == 0 {
                        assert(hs.len() == 1);
                    }
                }
                j += 1;
            }
            assert(self.headers@.subrange(0, n as int) =~= self.headers@);
        }
        proof {
            if n == 0 {
                assert(views(self.headers@).len() == 0);
            }
        }
        assert(out@ =~= start + sip_uri_text(self@));
    }

    pub fn to_string(&self) -> (r: String)
        ensures
            r@ == sip_uri_text(self@),
    {
        let mut out = String::new();
        self.write(&mut out);
        out
    }
}

impl Uri {
    pub fn write(&self, out: &mut String)
        ensures
            final(out)@ == old(out)@ + uri_text(self@),
    {
        let ghost start = out@;
        match self {
            Uri::Sip(u) => {
                push_lit(out, "sip:");
                proof {
                    reveal_strlit("sip:");
                }
                u.write(out);
            },
            Uri::Sips(u) => {
                push_lit(out, "sips:");
                proof {
                    reveal_strlit("sips:");
                }
                u.write(out);
            },
            Uri::Absolute { scheme, opaque } => {
                push_lit(out, scheme.as_str());
                push_lit(out, ":");
                proof {
                    reveal_strlit(":");
                }
                push_lit(out, opaque.as_str());
            },
        }
        assert(out@ =~= start + uri_text(self@));
    }

    /// The URI as written on the wire.
    pub fn to_string(&self) -> (r: String)
        ensures
            r@ == uri_text(self@),
    {
        let mut out = String::new();
        self.write(&mut out);
        out
    }
}

} // verus!
