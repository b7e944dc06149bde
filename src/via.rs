//! The Via header: a comma-separated list of sent-protocol, sent-by and
//! parameters.
use crate::address::{generic_param_at, generic_param_p, GenericParam, GenericParamM};
use crate::parse_utils::{
    ascii_chars, ascii_text, byte_at, byte_is, finish, first_of, lemma_scan, lit_at, lws_at,
    lws_end, number_at, number_end, parsed, run_at, same_end, scan, scan_at, sep_at, sep_end,
    slice_parsed, starts_at, token_end, views, Class, ParseResult, decimal, push_decimal, push_lit,
};
use crate::address::generic_param_text;
use vstd::prelude::*;

verus! {

broadcast use vstd::seq::group_seq_axioms;

/// The transport of a sent-protocol.
#[derive(Debug, Clone, PartialEq, Eq)]
pub enum Transport {
    Udp,
    Tcp,
    Tls,
    Sctp,
    Other(String),
}

pub enum TransportM {
    Udp,
    Tcp,
    Tls,
    Sctp,
    Other(Seq<char>),
}

impl View for Transport {
    type V = TransportM;

    open spec fn view(&self) -> TransportM {
        match self {
            Transport::Udp => TransportM::Udp,
            Transport::Tcp => TransportM::Tcp,
            Transport::Tls => TransportM::Tls,
            Transport::Sctp => TransportM::Sctp,
            Transport::Other(t) => TransportM::Other(t@),
        }
    }
}

/// The protocol name of a sent-protocol.
#[derive(Debug, Clone, PartialEq, Eq)]
pub enum ProtocolName {
    Sip,
    Protocol(String),
}

pub enum ProtocolNameM {
    Sip,
    Protocol(Seq<char>),
}

impl View for ProtocolName {
    type V = ProtocolNameM;

    open spec fn view(&self) -> ProtocolNameM {
        match self {
            ProtocolName::Sip => ProtocolNameM::Sip,
            ProtocolName::Protocol(t) => ProtocolNameM::Protocol(t@),
        }
    }
}

/// protocol-name "/" version "/" transport
#[derive(Debug, Clone, PartialEq, Eq)]
pub struct SentProtocol {
    pub name: ProtocolName,
    pub version: String,
    pub transport: Transport,
}

pub struct SentProtocolM {
    pub name: ProtocolNameM,
    pub version: Seq<char>,
    pub transport: TransportM,
}

impl View for SentProtocol {
    type V = SentProtocolM;

    open spec fn view(&self) -> SentProtocolM {
        SentProtocolM { name: self.name@, version: self.version@, transport: self.transport@ }
    }
}

/// host [ ":" port ]
#[derive(Debug, Clone, PartialEq, Eq)]
pub struct SentBy {
    pub host: String,
    pub port: Option<u16>,
}

pub struct SentByM {
    pub host: Seq<char>,
    pub port: Option<u16>,
}

impl View for SentBy {
    type V = SentByM;

    open spec fn view(&self) -> SentByM {
        SentByM { host: self.host@, port: self.port }
    }
}

/// A `;parameter` of a Via entry.
#[derive(Debug, Clone, PartialEq, Eq)]
pub enum ViaParam {
    Ttl(u8),
    Maddr(String),
    Received(String),
    Branch(String),
    Extension(GenericParam),
}

pub enum ViaParamM {
    Ttl(u8),
    Maddr(Seq<char>),
    Received(Seq<char>),
    Branch(Seq<char>),
    Extension(GenericParamM),
}

impl View for ViaParam {
    type V = ViaParamM;

    open spec fn view(&self) -> ViaParamM {
        match self {
            ViaParam::Ttl(t) => ViaParamM::Ttl(*t),
            ViaParam::Maddr(h) => ViaParamM::Maddr(h@),
            ViaParam::Received(h) => ViaParamM::Received(h@),
            ViaParam::Branch(b) => ViaParamM::Branch(b@),
            ViaParam::Extension(g) => ViaParamM::Extension(g@),
        }
    }
}

/// One entry of a Via header.
#[derive(Debug, Clone, PartialEq, Eq)]
pub struct ViaParm {
    pub sent_protocol: SentProtocol,
    pub sent_by: SentBy,
    pub params: Vec<ViaParam>,
}

pub struct ViaParmM {
    pub sent_protocol: SentProtocolM,
    pub sent_by: SentByM,
    pub params: Seq<ViaParamM>,
}

impl View for ViaParm {
    type V = ViaParmM;

    open spec fn view(&self) -> ViaParmM {
        ViaParmM {
            sent_protocol: self.sent_protocol@,
            sent_by: self.sent_by@,
            params: views(self.params@),
        }
    }
}

/// The entries of a Via header, in order.
#[derive(Debug, Clone, PartialEq, Eq)]
pub struct Via {
    pub inner: Vec<ViaParm>,
}

impl View for Via {
    type V = Seq<ViaParmM>;

    open spec fn view(&self) -> Seq<ViaParmM> {
        views(self.inner@)
    }
}

// ---------------------------------------------------------------------------
// The grammar, as spec functions
// ---------------------------------------------------------------------------

pub open spec fn lit_udp_upper() -> Seq<u8> {
    seq![0x55u8, 0x44u8, 0x50u8]
}

pub open spec fn lit_tcp_upper() -> Seq<u8> {
    seq![0x54u8, 0x43u8, 0x50u8]
}

pub open spec fn lit_tls_upper() -> Seq<u8> {
    seq![0x54u8, 0x4cu8, 0x53u8]
}

pub open spec fn lit_sctp_upper() -> Seq<u8> {
    seq![0x53u8, 0x43u8, 0x54u8, 0x50u8]
}

pub open spec fn lit_sip_upper() -> Seq<u8> {
    seq![0x53u8, 0x49u8, 0x50u8]
}

pub open spec fn lit_ttl_name() -> Seq<u8> {
    seq![0x74u8, 0x74u8, 0x6cu8]
}

pub open spec fn lit_maddr_name() -> Seq<u8> {
    seq![0x6du8, 0x61u8, 0x64u8, 0x64u8, 0x72u8]
}

pub open spec fn lit_received() -> Seq<u8> {
    seq![0x72u8, 0x65u8, 0x63u8, 0x65u8, 0x69u8, 0x76u8, 0x65u8, 0x64u8]
}

pub open spec fn lit_branch() -> Seq<u8> {
    seq![0x62u8, 0x72u8, 0x61u8, 0x6eu8, 0x63u8, 0x68u8]
}

/// transport = "UDP" / "TCP" / "TLS" / "SCTP" / token
pub open spec fn transport_p(s: Seq<u8>, i: int) -> Option<(int, TransportM)> {
    if lit_at(s, i, lit_udp_upper()) {
        Some((i + 3, TransportM::Udp))
    } else if lit_at(s, i, lit_tcp_upper()) {
        Some((i + 3, TransportM::Tcp))
    } else if lit_at(s, i, lit_tls_upper()) {
        Some((i + 3, TransportM::Tls))
    } else if lit_at(s, i, lit_sctp_upper()) {
        Some((i + 4, TransportM::Sctp))
    } else {
        match token_end(s, i) {
            Some(e) => Some((e, TransportM::Other(ascii_chars(s.subrange(i, e))))),
            None => None,
        }
    }
}

/// protocol-name = "SIP" / token
pub open spec fn protocol_name_p(s: Seq<u8>, i: int) -> Option<(int, ProtocolNameM)> {
    if lit_at(s, i, lit_sip_upper()) {
        Some((i + 3, ProtocolNameM::Sip))
    } else {
        match token_end(s, i) {
            Some(e) => Some((e, ProtocolNameM::Protocol(ascii_chars(s.subrange(i, e))))),
            None => None,
        }
    }
}

/// sent-protocol = protocol-name "/" token "/" transport
pub open spec fn sent_protocol_p(s: Seq<u8>, i: int) -> Option<(int, SentProtocolM)> {
    match protocol_name_p(s, i) {
        Some((a, name)) => if byte_at(s, a, 0x2f) {
            match token_end(s, a + 1) {
                Some(b) => if byte_at(s, b, 0x2f) {
                    match transport_p(s, b + 1) {
                        Some((e, transport)) => Some(
                            (
                                e,
                                SentProtocolM {
                                    name,
                                    version: ascii_chars(s.subrange(a + 1, b)),
                                    transport,
                                },
                            ),
                        ),
                        None => None,
                    }
                } else {
                    None
                },
                None => None,
            }
        } else {
            None
        },
        None => None,
    }
}

/// sent-by = host [ COLON port ]; a port that is not there or too large is left out.
pub open spec fn sent_by_p(s: Seq<u8>, i: int) -> (int, SentByM) {
    let h = scan(s, i, Class::Host);
    let host = ascii_chars(s.subrange(i, h));
    match sep_end(s, h, 0x3a) {
        Some(a) => match number_end(s, a, 65535) {
            Some((e, v)) => (e, SentByM { host, port: Some(v as u16) }),
            None => (h, SentByM { host, port: None }),
        },
        None => (h, SentByM { host, port: None }),
    }
}

/// `name` EQUAL, then the value's start.
pub open spec fn keyed_at(s: Seq<u8>, j: int, name: Seq<u8>) -> Option<int> {
    if lit_at(s, j, name) {
        sep_end(s, j + name.len(), 0x3d)
    } else {
        None
    }
}

pub open spec fn host_value(s: Seq<u8>, a: int) -> (int, Seq<char>) {
    let e = scan(s, a, Class::Host);
    (e, ascii_chars(s.subrange(a, e)))
}

pub open spec fn ttl_vp(s: Seq<u8>, j: int) -> Option<(int, ViaParamM)> {
    match keyed_at(s, j, lit_ttl_name()) {
        Some(a) => match number_end(s, a, 255) {
            Some((e, v)) => Some((e, ViaParamM::Ttl(v as u8))),
            None => None,
        },
        None => None,
    }
}

pub open spec fn maddr_vp(s: Seq<u8>, j: int) -> Option<(int, ViaParamM)> {
    match keyed_at(s, j, lit_maddr_name()) {
        Some(a) => Some((host_value(s, a).0, ViaParamM::Maddr(host_value(s, a).1))),
        None => None,
    }
}

pub open spec fn received_vp(s: Seq<u8>, j: int) -> Option<(int, ViaParamM)> {
    match keyed_at(s, j, lit_received()) {
        Some(a) => Some((host_value(s, a).0, ViaParamM::Received(host_value(s, a).1))),
        None => None,
    }
}

pub open spec fn branch_vp(s: Seq<u8>, j: int) -> Option<(int, ViaParamM)> {
    match keyed_at(s, j, lit_branch()) {
        Some(a) => match token_end(s, a) {
            Some(e) => Some((e, ViaParamM::Branch(ascii_chars(s.subrange(a, e))))),
            None => None,
        },
        None => None,
    }
}

pub open spec fn extension_vp(s: Seq<u8>, j: int) -> Option<(int, ViaParamM)> {
    match generic_param_p(s, j) {
        Some((e, g)) => Some((e, ViaParamM::Extension(g))),
        None => None,
    }
}

/// via-params = ttl / maddr / received / branch / extension, after SEMI;
/// the first alternative that matches.
pub open spec fn via_param_p(s: Seq<u8>, i: int) -> Option<(int, ViaParamM)> {
    match sep_end(s, i, 0x3b) {
        Some(j) => first_of(
            ttl_vp(s, j),
            first_of(
                maddr_vp(s, j),
                first_of(received_vp(s, j), first_of(branch_vp(s, j), extension_vp(s, j))),
            ),
        ),
        None => None,
    }
}

/// *via-params
pub open spec fn via_params_p(s: Seq<u8>, i: int) -> (int, Seq<ViaParamM>)
    decreases s.len() - i,
{
    match via_param_p(s, i) {
        Some((e, p)) => if i < e <= s.len() {
            let (f, ps) = via_params_p(s, e);
            (f, seq![p] + ps)
        } else {
            (i, seq![])
        },
        None => (i, seq![]),
    }
}

/// via-parm = sent-protocol LWS sent-by *via-params
pub open spec fn via_parm_p(s: Seq<u8>, i: int) -> Option<(int, ViaParmM)> {
    match sent_protocol_p(s, i) {
        Some((a, sent_protocol)) => match lws_end(s, a) {
            Some(b) => {
                let (c, sent_by) = sent_by_p(s, b);
                let (e, params) = via_params_p(s, c);
                Some((e, ViaParmM { sent_protocol, sent_by, params }))
            },
            None => None,
        },
        None => None,
    }
}

/// *( COMMA via-parm ); a comma not followed by an entry is left alone.
pub open spec fn more_via_parms_p(s: Seq<u8>, i: int) -> (int, Seq<ViaParmM>)
    decreases s.len() - i,
{
    match sep_end(s, i, 0x2c) {
        Some(a) => match via_parm_p(s, a) {
            Some((e, p)) => if i < e <= s.len() {
                let (f, ps) = more_via_parms_p(s, e);
                (f, seq![p] + ps)
            } else {
                (i, seq![])
            },
            None => (i, seq![]),
        },
        None => (i, seq![]),
    }
}

/// Via = via-parm *( COMMA via-parm )
pub open spec fn via_p(s: Seq<u8>, i: int) -> Option<(int, Seq<ViaParmM>)> {
    match via_parm_p(s, i) {
        Some((a, p)) => {
            let (e, ps) = more_via_parms_p(s, a);
            Some((e, seq![p] + ps))
        },
        None => None,
    }
}

// ---------------------------------------------------------------------------
// The grammar, executable
// ---------------------------------------------------------------------------

fn class_text(s: &[u8], i: usize, e: usize, c: Class) -> (r: String)
    requires
        i <= s.len(),
        e == scan(s@, i as int, c),
        c != Class::Wsp && c != Class::NotDquote,
    ensures
        r@ == ascii_chars(s@.subrange(i as int, e as int)),
{
    proof {
        lemma_scan(s@, i as int, c);
    }
    ascii_text(s, i, e, c)
}

pub fn transport_at(s: &[u8], i: usize) -> (r: Option<(usize, Transport)>)
    requires
        i <= s.len(),
    ensures
        parsed(r, transport_p(s@, i as int), i as int, s@.len() as int),
{
    let udp: [u8; 3] = [0x55, 0x44, 0x50];
    let tcp: [u8; 3] = [0x54, 0x43, 0x50];
    let tls: [u8; 3] = [0x54, 0x4c, 0x53];
    let sctp: [u8; 4] = [0x53, 0x43, 0x54, 0x50];
    assert(udp@ =~= lit_udp_upper());
    assert(tcp@ =~= lit_tcp_upper());
    assert(tls@ =~= lit_tls_upper());
    assert(sctp@ =~= lit_sctp_upper());
    if starts_at(s, i, udp.as_slice()) {
        Some((i + 3, Transport::Udp))
    } else if starts_at(s, i, tcp.as_slice()) {
        Some((i + 3, Transport::Tcp))
    } else if starts_at(s, i, tls.as_slice()) {
        Some((i + 3, Transport::Tls))
    } else if starts_at(s, i, sctp.as_slice()) {
        Some((i + 4, Transport::Sctp))
    } else {
        match run_at(s, i, Class::Token) {
            Some(e) => Some((e, Transport::Other(class_text(s, i, e, Class::Token)))),
            None => None,
        }
    }
}

pub fn protocol_name_at(s: &[u8], i: usize) -> (r: Option<(usize, ProtocolName)>)
    requires
        i <= s.len(),
    ensures
        parsed(r, protocol_name_p(s@, i as int), i as int, s@.len() as int),
{
    let sip: [u8; 3] = [0x53, 0x49, 0x50];
    assert(sip@ =~= lit_sip_upper());
    if starts_at(s, i, sip.as_slice()) {
        Some((i + 3, ProtocolName::Sip))
    } else {
        match run_at(s, i, Class::Token) {
            Some(e) => Some((e, ProtocolName::Protocol(class_text(s, i, e, Class::Token)))),
            None => None,
        }
    }
}

pub fn sent_protocol_at(s: &[u8], i: usize) -> (r: Option<(usize, SentProtocol)>)
    requires
        i <= s.len(),
    ensures
        parsed(r, sent_protocol_p(s@, i as int), i as int, s@.len() as int),
{
    let (a, name) = match protocol_name_at(s, i) {
        Some(x) => x,
        None => return None,
    };
    if !byte_is(s, a, 0x2f) {
        return None;
    }
    let b = match run_at(s, a + 1, Class::Token) {
        Some(b) => b,
        None => return None,
    };
    if !byte_is(s, b, 0x2f) {
        return None;
    }
    match transport_at(s, b + 1) {
        Some((e, transport)) => {
            let version = class_text(s, a + 1, b, Class::Token);
            Some((e, SentProtocol { name, version, transport }))
        },
        None => None,
    }
}

pub fn sent_by_at(s: &[u8], i: usize) -> (r: (usize, SentBy))
    requires
        i <= s.len(),
    ensures
        sent_by_p(s@, i as int) == (r.0 as int, r.1@),
        i <= r.0 <= s.len(),
{
    let h = scan_at(s, i, Class::Host);
    let host = class_text(s, i, h, Class::Host);
    match sep_at(s, h, 0x3a) {
        Some(a) => match number_at(s, a, 65535) {
            Some((e, v)) => (e, SentBy { host, port: Some(v as u16) }),
            None => (h, SentBy { host, port: None }),
        },
        None => (h, SentBy { host, port: None }),
    }
}

fn keyed(s: &[u8], j: usize, name: &[u8]) -> (r: Option<usize>)
    requires
        j <= s.len(),
    ensures
        same_end(r, keyed_at(s@, j as int, name@)),
        r matches Some(a) ==> j < a <= s.len(),
{
    if starts_at(s, j, name) {
        sep_at(s, j + name.len(), 0x3d)
    } else {
        None
    }
}

fn host_value_at(s: &[u8], a: usize) -> (r: (usize, String))
    requires
        a <= s.len(),
    ensures
        host_value(s@, a as int) == (r.0 as int, r.1@),
        a <= r.0 <= s.len(),
{
    let e = scan_at(s, a, Class::Host);
    (e, class_text(s, a, e, Class::Host))
}

fn ttl_vp_at(s: &[u8], j: usize) -> (r: Option<(usize, ViaParam)>)
    requires
        j <= s.len(),
    ensures
        parsed(r, ttl_vp(s@, j as int), j as int, s@.len() as int),
{
    let lit: [u8; 3] = [0x74, 0x74, 0x6c];
    assert(lit@ =~= lit_ttl_name());
    match keyed(s, j, lit.as_slice()) {
        Some(a) => match number_at(s, a, 255) {
            Some((e, v)) => Some((e, ViaParam::Ttl(v as u8))),
            None => None,
        },
        None => None,
    }
}

fn maddr_vp_at(s: &[u8], j: usize) -> (r: Option<(usize, ViaParam)>)
    requires
        j <= s.len(),
    ensures
        parsed(r, maddr_vp(s@, j as int), j as int, s@.len() as int),
{
    let lit: [u8; 5] = [0x6d, 0x61, 0x64, 0x64, 0x72];
    assert(lit@ =~= lit_maddr_name());
    match keyed(s, j, lit.as_slice()) {
        Some(a) => {
            let (e, h) = host_value_at(s, a);
            Some((e, ViaParam::Maddr(h)))
        },
        None => None,
    }
}

fn received_vp_at(s: &[u8], j: usize) -> (r: Option<(usize, ViaParam)>)
    requires
        j <= s.len(),
    ensures
        parsed(r, received_vp(s@, j as int), j as int, s@.len() as int),
{
    let lit: [u8; 8] = [0x72, 0x65, 0x63, 0x65, 0x69, 0x76, 0x65, 0x64];
    assert(lit@ =~= lit_received());
    match keyed(s, j, lit.as_slice()) {
        Some(a) => {
            let (e, h) = host_value_at(s, a);
            Some((e, ViaParam::Received(h)))
        },
        None => None,
    }
}

fn branch_vp_at(s: &[u8], j: usize) -> (r: Option<(usize, ViaParam)>)
    requires
        j <= s.len(),
    ensures
        parsed(r, branch_vp(s@, j as int), j as int, s@.len() as int),
{
    let lit: [u8; 6] = [0x62, 0x72, 0x61, 0x6e, 0x63, 0x68];
    assert(lit@ =~= lit_branch());
    match keyed(s, j, lit.as_slice()) {
        Some(a) => match run_at(s, a, Class::Token) {
            Some(e) => Some((e, ViaParam::Branch(class_text(s, a, e, Class::Token)))),
            None => None,
        },
        None => None,
    }
}

fn extension_vp_at(s: &[u8], j: usize) -> (r: Option<(usize, ViaParam)>)
    requires
        j <= s.len(),
    ensures
        parsed(r, extension_vp(s@, j as int), j as int, s@.len() as int),
{
    match generic_param_at(s, j) {
        Some((e, g)) => Some((e, ViaParam::Extension(g))),
        None => None,
    }
}

pub fn via_param_at(s: &[u8], i: usize) -> (r: Option<(usize, ViaParam)>)
    requires
        i <= s.len(),
    ensures
        parsed(r, via_param_p(s@, i as int), i as int, s@.len() as int),
        r matches Some((e, _)) ==> i < e,
{
    let j = match sep_at(s, i, 0x3b) {
        Some(j) => j,
        None => return None,
    };
    if let Some(x) = ttl_vp_at(s, j) {
        return Some(x);
    }
    if let Some(x) = maddr_vp_at(s, j) {
        return Some(x);
    }
    if let Some(x) = received_vp_at(s, j) {
        return Some(x);
    }
    if let Some(x) = branch_vp_at(s, j) {
        return Some(x);
    }
    extension_vp_at(s, j)
}

pub fn via_params_at(s: &[u8], i: usize) -> (r: (usize, Vec<ViaParam>))
    requires
        i <= s.len(),
    ensures
        via_params_p(s@, i as int) == (r.0 as int, views(r.1@)),
        i <= r.0 <= s.len(),
{
    let mut k = i;
    let mut acc: Vec<ViaParam> = Vec::new();
    while k <= s.len()
        invariant
            i <= k <= s.len(),
            via_params_p(s@, i as int) == (
                via_params_p(s@, k as int).0,
                views(acc@) + via_params_p(s@, k as int).1,
            ),
        decreases s.len() + 1 - k,
    {
        match via_param_at(s, k) {
            Some((e, p)) => {
                let ghost old_acc = acc@;
                acc.push(p);
                proof {
                    assert(views(acc@) =~= views(old_acc) + seq![p@]);
                    assert(views(acc@) + via_params_p(s@, e as int).1 =~= views(old_acc) + (seq![
                        p@,
                    ] + via_params_p(s@, e as int).1));
                }
                k = e;
            },
            None => {
                assert(views(acc@) + seq![] =~= views(acc@));
                return (k, acc);
            },
        }
    }
    (k, acc)
}

pub fn via_parm_at(s: &[u8], i: usize) -> (r: Option<(usize, ViaParm)>)
    requires
        i <= s.len(),
    ensures
        parsed(r, via_parm_p(s@, i as int), i as int, s@.len() as int),
{
    let (a, sent_protocol) = match sent_protocol_at(s, i) {
        Some(x) => x,
        None => return None,
    };
    let b = match lws_at(s, a) {
        Some(b) => b,
        None => return None,
    };
    let (c, sent_by) = sent_by_at(s, b);
    let (e, params) = via_params_at(s, c);
    Some((e, ViaParm { sent_protocol, sent_by, params }))
}

pub fn via_at(s: &[u8], i: usize) -> (r: Option<(usize, Via)>)
    requires
        i <= s.len(),
    ensures
        parsed(r, via_p(s@, i as int), i as int, s@.len() as int),
{
    let (a, first) = match via_parm_at(s, i) {
        Some(x) => x,
        None => return None,
    };
    let mut acc: Vec<ViaParm> = Vec::new();
    acc.push(first);
    assert(views(acc@) =~= seq![first@]);
    let mut k = a;
    while k <= s.len()
        invariant
            i <= a <= k <= s.len(),
            via_p(s@, i as int) == Some(
                (
                    more_via_parms_p(s@, k as int).0,
                    views(acc@) + more_via_parms_p(s@, k as int).1,
                ),
            ),
        decreases s.len() + 1 - k,
    {
        let c = match sep_at(s, k, 0x2c) {
            Some(c) => c,
            None => {
                assert(views(acc@) + seq![] =~= views(acc@));
                return Some((k, Via { inner: acc }));
            },
        };
        match via_parm_at(s, c) {
            Some((e, p)) => {
                let ghost old_acc = acc@;
                acc.push(p);
                proof {
                    assert(views(acc@) =~= views(old_acc) + seq![p@]);
                    assert(views(acc@) + more_via_parms_p(s@, e as int).1 =~= views(old_acc) + (
                    seq![p@] + more_via_parms_p(s@, e as int).1));
                }
                k = e;
            },
            None => {
                assert(views(acc@) + seq![] =~= views(acc@));
                return Some((k, Via { inner: acc }));
            },
        }
    }
    Some((k, Via { inner: acc }))
}

// ---------------------------------------------------------------------------
// Slice-level entry points
// ---------------------------------------------------------------------------

impl Transport {
    pub fn parse(src: &[u8]) -> (r: ParseResult<Transport>)
        ensures
            slice_parsed(src@, transport_p(src@, 0), r),
    {
        let m = transport_at(src, 0);
        finish(src, m)
    }
}

impl ProtocolName {
    pub fn parse(src: &[u8]) -> (r: ParseResult<ProtocolName>)
        ensures
            slice_parsed(src@, protocol_name_p(src@, 0), r),
    {
        let m = protocol_name_at(src, 0);
        finish(src, m)
    }
}

impl SentProtocol {
    pub fn parse(src: &[u8]) -> (r: ParseResult<SentProtocol>)
        ensures
            slice_parsed(src@, sent_protocol_p(src@, 0), r),
    {
        let m = sent_protocol_at(src, 0);
        finish(src, m)
    }
}

impl SentBy {
    /// Never fails: the host may be empty.
    pub fn parse(src: &[u8]) -> (r: ParseResult<SentBy>)
        ensures
            slice_parsed(src@, Some(sent_by_p(src@, 0)), r),
    {
        let (e, v) = sent_by_at(src, 0);
        finish(src, Some((e, v)))
    }
}

impl ViaParam {
    pub fn parse(src: &[u8]) -> (r: ParseResult<ViaParam>)
        ensures
            slice_parsed(src@, via_param_p(src@, 0), r),
    {
        let m = via_param_at(src, 0);
        finish(src, m)
    }
}

impl ViaParm {
    pub fn parse(src: &[u8]) -> (r: ParseResult<ViaParm>)
        ensures
            slice_parsed(src@, via_parm_p(src@, 0), r),
    {
        let m = via_parm_at(src, 0);
        finish(src, m)
    }
}

impl Via {
    pub fn parse(src: &[u8]) -> (r: ParseResult<Via>)
        ensures
            slice_parsed(src@, via_p(src@, 0), r),
    {
        let m = via_at(src, 0);
        finish(src, m)
    }
}

} // verus!

verus! {

// ---------------------------------------------------------------------------
// Rendering
// ---------------------------------------------------------------------------

pub open spec fn transport_text(t: TransportM) -> Seq<char> {
    match t {
        TransportM::Udp => seq!['U', 'D', 'P'],
        TransportM::Tcp => seq!['T', 'C', 'P'],
        TransportM::Tls => seq!['T', 'L', 'S'],
        TransportM::Sctp => seq!['S', 'C', 'T', 'P'],
        TransportM::Other(o) => o,
    }
}

pub open spec fn protocol_name_text(n: ProtocolNameM) -> Seq<char> {
    match n {
        ProtocolNameM::Sip => seq!['S', 'I', 'P'],
        ProtocolNameM::Protocol(p) => p,
    }
}

pub open spec fn sent_protocol_text(p: SentProtocolM) -> Seq<char> {
    protocol_name_text(p.name) + seq!['/'] + p.version + seq!['/'] + transport_text(p.transport)
}

pub open spec fn sent_by_text(b: SentByM) -> Seq<char> {
    b.host + match b.port {
        Some(p) => seq![':'] + decimal(p as nat),
        None => seq![],
    }
}

pub open spec fn via_param_text(p: ViaParamM) -> Seq<char> {
    seq![';'] + match p {
        ViaParamM::Ttl(t) => seq!['t', 't', 'l', '='] + decimal(t as nat),
        ViaParamM::Maddr(h) => seq!['m', 'a', 'd', 'd', 'r', '='] + h,
        ViaParamM::Received(h) => seq!['r', 'e', 'c', 'e', 'i', 'v', 'e', 'd', '='] + h,
        ViaParamM::Branch(b) => seq!['b', 'r', 'a', 'n', 'c', 'h', '='] + b,
        ViaParamM::Extension(g) => generic_param_text(g),
    }
}

pub open spec fn via_params_text(ps: Seq<ViaParamM>) -> Seq<char>
    decreases ps.len(),
{
    if ps.len() == 0 {
        seq![]
    } else {
        via_params_text(ps.drop_last()) + via_param_text(ps.last())
    }
}

/// `sent-protocol SP sent-by *params`
pub open spec fn via_parm_text(v: ViaParmM) -> Seq<char> {
    sent_protocol_text(v.sent_protocol) + seq![' '] + sent_by_text(v.sent_by) + via_params_text(
        v.params,
    )
}

/// The entries joined by `, `.
pub open spec fn via_text(vs: Seq<ViaParmM>) -> Seq<char>
    decreases vs.len(),
{
    if vs.len() == 0 {
        seq![]
    } else if vs.len() == 1 {
        via_parm_text(vs[0])
    } else {
        via_text(vs.drop_last()) + seq![',', ' '] + via_parm_text(vs.last())
    }
}

impl Transport {
    pub fn write(&self, out: &mut String)
        ensures
            final(out)@ == old(out)@ + transport_text(self@),
    {
        match self {
            Transport::Udp => {
                push_lit(out, "UDP");
                proof {
                    reveal_strlit("UDP");
                }
            },
            Transport::Tcp => {
                push_lit(out, "TCP");
                proof {
                    reveal_strlit("TCP");
                }
            },
            Transport::Tls => {
                push_lit(out, "TLS");
                proof {
                    reveal_strlit("TLS");
                }
            },
            Transport::Sctp => {
                push_lit(out, "SCTP");
                proof {
                    reveal_strlit("SCTP");
                }
            },
            Transport::Other(o) => push_lit(out, o.as_str()),
        }
    }
}

impl ProtocolName {
    pub fn write(&self, out: &mut String)
        ensures
            final(out)@ == old(out)@ + protocol_name_text(self@),
    {
        match self {
            ProtocolName::Sip => {
                push_lit(out, "SIP");
                proof {
                    reveal_strlit("SIP");
                }
            },
            ProtocolName::Protocol(p) => push_lit(out, p.as_str()),
        }
    }
}

impl SentProtocol {
    pub fn write(&self, out: &mut String)
        ensures
            final(out)@ == old(out)@ + sent_protocol_text(self@),
    {
        let ghost start = out@;
        self.name.write(out);
        push_lit(out, "/");
        proof {
            reveal_strlit("/");
        }
        push_lit(out, self.version.as_str());
        push_lit(out, "/");
        self.transport.write(out);
        assert(out@ =~= start + sent_protocol_text(self@));
    }
}

impl SentBy {
    pub fn write(&self, out: &mut String)
        ensures
            final(out)@ == old(out)@ + sent_by_text(self@),
    {
        let ghost start = out@;
        push_lit(out, self.host.as_str());
        if let Some(p) = self.port {
            push_lit(out, ":");
            proof {
                reveal_strlit(":");
            }
            push_decimal(out, p as u64);
        }
        assert(out@ =~= start + sent_by_text(self@));
    }
}

impl ViaParam {
    pub fn write(&self, out: &mut String)
        ensures
            final(out)@ == old(out)@ + via_param_text(self@),
    {
        let ghost start = out@;
        push_lit(out, ";");
        proof {
            reveal_strlit(";");
        }
        match self {
            ViaParam::Ttl(t) => {
                push_lit(out, "ttl=");
                proof {
                    reveal_strlit("ttl=");
                }
                push_decimal(out, *t as u64);
            },
            ViaParam::Maddr(h) => {
                push_lit(out, "maddr=");
                proof {
                    reveal_strlit("maddr=");
                }
                push_lit(out, h.as_str());
            },
            ViaParam::Received(h) => {
                push_lit(out, "received=");
                proof {
                    reveal_strlit("received=");
                }
                push_lit(out, h.as_str());
            },
            ViaParam::Branch(b) => {
                push_lit(out, "branch=");
                proof {
                    reveal_strlit("branch=");
                }
                push_lit(out, b.as_str());
            },
            ViaParam::Extension(g) => g.write(out),
        }
        assert(out@ =~= start + via_param_text(self@));
    }
}

impl ViaParm {
    pub fn write(&self, out: &mut String)
        ensures
            final(out)@ == old(out)@ + via_parm_text(self@),
    {
        let ghost start = out@;
        self.sent_protocol.write(out);
        push_lit(out, " ");
        proof {
            reveal_strlit(" ");
        }
        self.sent_by.write(out);
        let ghost after_by = out@;
        let mut k: usize = 0;
        while k < self.params.len()
            invariant
                k <= self.params@.len(),
                out@ == after_by + via_params_text(views(self.params@.subrange(0, k as int))),
            decreases self.params@.len() - k,
        {
            self.params[k].write(out);
            proof {
                let ps = views(self.params@.subrange(0, k + 1));
                assert(ps.drop_last() =~= views(self.params@.subrange(0, k as int)));
            }
            k += 1;
        }
        assert(self.params@.subrange(0, k as int) =~= self.params@);
        assert(out@ =~= start + via_parm_text(self@));
    }
}

impl Via {
    pub fn write(&self, out: &mut String)
        ensures
            final(out)@ == old(out)@ + via_text(self@),
    {
        let ghost start = out@;
        let n = self.inner.len();
        let mut k: usize = 0;
        while k < n
            invariant
                n == self.inner@.len(),
                k <= n,
                out@ == start + via_text(views(self.inner@.subrange(0, k as int))),
            decreases n - k,
        {
            if k > 0 {
                push_lit(out, ", ");
                proof {
                    reveal_strlit(", ");
                }
            }
            self.inner[k].write(out);
            proof {
                let vs = views(self.inner@.subrange(0, k + 1));
                assert(vs.drop_last() =~= views(self.inner@.subrange(0, k as int)));
                assert(vs.last() == self.inner@[k as int]@);
                if k == 0 {
                    assert(vs.len() == 1);
                    assert(views(self.inner@.subrange(0, 0)).len() == 0);
                }
            }
            k += 1;
        }
        assert(self.inner@.subrange(0, n as int) =~= self.inner@);
    }

    /// The entries as written on the wire, joined by `, `.
    pub fn to_string(&self) -> (r: String)
        ensures
            r@ == via_text(self@),
    {
        let mut out = String::new();
        self.write(&mut out);
        assert(out@ =~= via_text(self@));
        out
    }
}

} // verus!
