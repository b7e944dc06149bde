//! Header names, typed header values and header lines.
use crate::address::{
    lemma_bracketed_address_reads, lemma_simple_address_text, lit_tag, simple_address,
    simple_address_bytes, words_bytes,
    address_at, address_p, address_text, all_in_class, lemma_text_bytes_ascii,
    lemma_text_bytes_concat, param_p, param_text, tag_param_at, text_bytes, Address, AddressM,
    ParamM, TagParam,
};
use crate::method::{lit_invite, method_at, method_of, method_p, method_text, Method, MethodM};
use crate::parse_utils::{
    byte_at, byte_is, crlf, crlf_at, finish, hcolon_at, hcolon_end, lit_at, lws_at, lws_end,
    number_at, number_end, parsed, run_at, run_end, same_end, sep_at, sep_end, slice_parsed,
    text_byte_at, text_byte_is, text_of, token_end, views, Class, ParseResult, decimal,
    decimal_bytes, in_class, lemma_class_ascii, lemma_decimal_bytes, lemma_decimal_reads_at,
    lemma_scan_exact, push_decimal, push_lit, ErrorKind, ParseError, ascii_chars, lemma_no_ws,
    lemma_line_end, sws_end, push_bytes, push_text_bytes,
};
use crate::uri::lit_sip;
use crate::via::{
    lit_sip_upper, lit_udp_upper, more_via_parms_p, sent_by_p, sent_protocol_p, via_at, via_p,
    via_param_p, via_params_p, via_params_text, via_parm_p, via_parm_text, via_text, ProtocolNameM,
    SentByM, SentProtocolM, TransportM, Via, ViaParamM, ViaParmM,
};
use vstd::prelude::*;
use vstd::slice::{slice_subrange, slice_to_vec};
use vstd::utf8::{decode_utf8, encode_utf8, valid_utf8};

verus! {

broadcast use vstd::seq::group_seq_axioms;

// ---------------------------------------------------------------------------
// Names
// ---------------------------------------------------------------------------

/// A header name as written (a token).
#[derive(Debug, Clone, PartialEq, Eq)]
pub struct Name {
    inner: Vec<u8>,
}

impl View for Name {
    type V = Seq<u8>;

    closed spec fn view(&self) -> Seq<u8> {
        self.inner@
    }
}

impl Name {
    /// The name's bytes.
    pub fn as_bytes(&self) -> (r: &[u8])
        ensures
            r@ == self@,
    {
        self.inner.as_slice()
    }

    /// A header name, or the end of the header section: a token gives the
    /// name; CRLF gives `None` and is consumed.
    pub fn parse(src: &[u8]) -> (r: ParseResult<Option<Name>>)
        ensures
            if lit_at(src@, 0, crlf()) {
                r matches Ok((rest, n)) && n is None && rest@ == src@.subrange(
                    2,
                    src@.len() as int,
                )
            } else {
                match token_end(src@, 0) {
                    Some(e) => r matches Ok((rest, n)) && n matches Some(nm) && nm@
                        == src@.subrange(0, e) && rest@ == src@.subrange(e, src@.len() as int),
                    None => r is Err,
                }
            },
    {
        if crlf_at(src, 0) {
            return Ok((crate::parse_utils::rest_from(src, 2), None));
        }
        match run_at(src, 0, Class::Token) {
            Some(e) => {
                let inner = slice_to_vec(slice_subrange(src, 0, e));
                Ok((crate::parse_utils::rest_from(src, e), Some(Name { inner })))
            },
            None => Err(crate::parse_utils::ParseError::no_match()),
        }
    }

    /// The name as text.
    pub fn to_string(&self) -> (r: String)
        ensures
            valid_utf8(self@) ==> r@ == decode_utf8(self@),
    {
        let n = self.inner.len();
        assert(self.inner@.subrange(0, n as int) =~= self.inner@);
        match text_of(self.inner.as_slice(), 0, n) {
            Some(t) => t,
            None => String::new(),
        }
    }
}

// ---------------------------------------------------------------------------
// Which typed value a name selects
// ---------------------------------------------------------------------------

/// The typed decoders that a header name can select.
#[derive(Debug, Clone, Copy, PartialEq, Eq, Structural)]
pub enum HeaderKind {
    Via,
    To,
    From,
    CSeq,
    CallId,
    MaxForwards,
    ContentLength,
    Other,
}

pub open spec fn ascii_lower(b: u8) -> u8 {
    if 0x41 <= b <= 0x5a {
        (b + 0x20) as u8
    } else {
        b
    }
}

/// A name in lower case; names are compared in this form.
pub open spec fn lower(b: Seq<u8>) -> Seq<u8> {
    b.map_values(|x: u8| ascii_lower(x))
}

pub open spec fn lit_via() -> Seq<u8> {
    seq![0x76u8, 0x69u8, 0x61u8]
}

pub open spec fn lit_v() -> Seq<u8> {
    seq![0x76u8]
}

pub open spec fn lit_to() -> Seq<u8> {
    seq![0x74u8, 0x6fu8]
}

pub open spec fn lit_t() -> Seq<u8> {
    seq![0x74u8]
}

pub open spec fn lit_from() -> Seq<u8> {
    seq![0x66u8, 0x72u8, 0x6fu8, 0x6du8]
}

pub open spec fn lit_f() -> Seq<u8> {
    seq![0x66u8]
}

pub open spec fn lit_cseq() -> Seq<u8> {
    seq![0x63u8, 0x73u8, 0x65u8, 0x71u8]
}

pub open spec fn lit_call_id() -> Seq<u8> {
    seq![0x63u8, 0x61u8, 0x6cu8, 0x6cu8, 0x2du8, 0x69u8, 0x64u8]
}

pub open spec fn lit_i() -> Seq<u8> {
    seq![0x69u8]
}

pub open spec fn lit_max_forwards() -> Seq<u8> {
    seq![
        0x6du8, 0x61u8, 0x78u8, 0x2du8, 0x66u8, 0x6fu8, 0x72u8, 0x77u8, 0x61u8, 0x72u8, 0x64u8,
        0x73u8,
    ]
}

pub open spec fn lit_content_length() -> Seq<u8> {
    seq![
        0x63u8, 0x6fu8, 0x6eu8, 0x74u8, 0x65u8, 0x6eu8, 0x74u8, 0x2du8, 0x6cu8, 0x65u8, 0x6eu8,
        0x67u8, 0x74u8, 0x68u8,
    ]
}

pub open spec fn lit_l() -> Seq<u8> {
    seq![0x6cu8]
}

/// The decoder a name selects, with the compact forms `v`, `t`, `f`, `i`, `l`.
pub open spec fn kind_of(name: Seq<u8>) -> HeaderKind {
    let n = lower(name);
    if n == lit_via() || n == lit_v() {
        HeaderKind::Via
    } else if n == lit_to() || n == lit_t() {
        HeaderKind::To
    } else if n == lit_from() || n == lit_f() {
        HeaderKind::From
    } else if n == lit_cseq() {
        HeaderKind::CSeq
    } else if n == lit_call_id() || n == lit_i() {
        HeaderKind::CallId
    } else if n == lit_max_forwards() {
        HeaderKind::MaxForwards
    } else if n == lit_content_length() || n == lit_l() {
        HeaderKind::ContentLength
    } else {
        HeaderKind::Other
    }
}

pub fn lower_byte(b: u8) -> (r: u8)
    ensures
        r == ascii_lower(b),
{
    if 0x41 <= b && b <= 0x5a {
        b + 0x20
    } else {
        b
    }
}

/// `name` equals `lit` once put in lower case.
pub fn eq_lower(name: &[u8], lit: &[u8]) -> (r: bool)
    ensures
        r == (lower(name@) == lit@),
{
    if name.len() != lit.len() {
        assert(lower(name@).len() != lit@.len());
        return false;
    }
    let mut k: usize = 0;
    while k < name.len()
        invariant
            k <= name@.len(),
            name@.len() == lit@.len(),
            forall|j: int| 0 <= j < k ==> ascii_lower(name@[j]) == lit@[j],
        decreases name@.len() - k,
    {
        if lower_byte(name[k]) != lit[k] {
            assert(lower(name@)[k as int] != lit@[k as int]);
            return false;
        }
        k += 1;
    }
    assert(lower(name@) =~= lit@);
    true
}

/// The lower-case form of a name.
pub fn lower_vec(name: &[u8]) -> (r: Vec<u8>)
    ensures
        r@ == lower(name@),
{
    let mut out: Vec<u8> = Vec::new();
    let mut k: usize = 0;
    while k < name.len()
        invariant
            k <= name@.len(),
            out@ =~= lower(name@.subrange(0, k as int)),
        decreases name@.len() - k,
    {
        out.push(lower_byte(name[k]));
        k += 1;
        assert(out@ =~= lower(name@.subrange(0, k as int)));
    }
    assert(name@.subrange(0, name@.len() as int) =~= name@);
    out
}

pub fn header_kind(name: &[u8]) -> (r: HeaderKind)
    ensures
        r == kind_of(name@),
{
    let via: [u8; 3] = [0x76, 0x69, 0x61];
    let v: [u8; 1] = [0x76];
    let to: [u8; 2] = [0x74, 0x6f];
    let t: [u8; 1] = [0x74];
    let from: [u8; 4] = [0x66, 0x72, 0x6f, 0x6d];
    let f: [u8; 1] = [0x66];
    let cseq: [u8; 4] = [0x63, 0x73, 0x65, 0x71];
    let call_id: [u8; 7] = [0x63, 0x61, 0x6c, 0x6c, 0x2d, 0x69, 0x64];
    let i: [u8; 1] = [0x69];
    let max_forwards: [u8; 12] = [
        0x6d, 0x61, 0x78, 0x2d, 0x66, 0x6f, 0x72, 0x77, 0x61, 0x72, 0x64, 0x73,
    ];
    let content_length: [u8; 14] = [
        0x63, 0x6f, 0x6e, 0x74, 0x65, 0x6e, 0x74, 0x2d, 0x6c, 0x65, 0x6e, 0x67, 0x74, 0x68,
    ];
    let l: [u8; 1] = [0x6c];
    assert(via@ =~= lit_via());
    assert(v@ =~= lit_v());
    assert(to@ =~= lit_to());
    assert(t@ =~= lit_t());
    assert(from@ =~= lit_from());
    assert(f@ =~= lit_f());
    assert(cseq@ =~= lit_cseq());
    assert(call_id@ =~= lit_call_id());
    assert(i@ =~= lit_i());
    assert(max_forwards@ =~= lit_max_forwards());
    assert(content_length@ =~= lit_content_length());
    assert(l@ =~= lit_l());
    if eq_lower(name, via.as_slice()) || eq_lower(name, v.as_slice()) {
        HeaderKind::Via
    } else if eq_lower(name, to.as_slice()) || eq_lower(name, t.as_slice()) {
        HeaderKind::To
    } else if eq_lower(name, from.as_slice()) || eq_lower(name, f.as_slice()) {
        HeaderKind::From
    } else if eq_lower(name, cseq.as_slice()) {
        HeaderKind::CSeq
    } else if eq_lower(name, call_id.as_slice()) || eq_lower(name, i.as_slice()) {
        HeaderKind::CallId
    } else if eq_lower(name, max_forwards.as_slice()) {
        HeaderKind::MaxForwards
    } else if eq_lower(name, content_length.as_slice()) || eq_lower(name, l.as_slice()) {
        HeaderKind::ContentLength
    } else {
        HeaderKind::Other
    }
}

// ---------------------------------------------------------------------------
// Values
// ---------------------------------------------------------------------------

/// A header value, decoded as its name selects.
#[derive(Debug, Clone, PartialEq, Eq)]
pub enum Value {
    Via(Via),
    To { address: Address, params: Vec<TagParam> },
    From { address: Address, params: Vec<TagParam> },
    CSeq { num: u32, method: Method },
    CallId(Vec<u8>),
    MaxForwards(usize),
    ContentLength(usize),
    Raw(Vec<u8>),
}

pub enum ValueM {
    Via(Seq<ViaParmM>),
    To(AddressM, Seq<ParamM>),
    From(AddressM, Seq<ParamM>),
    CSeq(u32, MethodM),
    CallId(Seq<u8>),
    MaxForwards(usize),
    ContentLength(usize),
    Raw(Seq<u8>),
}

impl View for Value {
    type V = ValueM;

    open spec fn view(&self) -> ValueM {
        match self {
            Value::Via(v) => ValueM::Via(v@),
            Value::To { address, params } => ValueM::To(address@, views(params@)),
            Value::From { address, params } => ValueM::From(address@, views(params@)),
            Value::CSeq { num, method } => ValueM::CSeq(*num, method@),
            Value::CallId(id) => ValueM::CallId(id@),
            Value::MaxForwards(n) => ValueM::MaxForwards(*n),
            Value::ContentLength(n) => ValueM::ContentLength(*n),
            Value::Raw(r) => ValueM::Raw(r@),
        }
    }
}

/// *( SEMI tag-param )
pub open spec fn tag_params_p(s: Seq<u8>, i: int) -> (int, Seq<ParamM>)
    decreases s.len() - i,
{
    match sep_end(s, i, 0x3b) {
        Some(j) => match param_p(s, j) {
            Some((e, p)) => if i < e <= s.len() {
                let (f, ps) = tag_params_p(s, e);
                (f, seq![p] + ps)
            } else {
                (i, seq![])
            },
            None => (i, seq![]),
        },
        None => (i, seq![]),
    }
}

/// CSeq = 1*DIGIT LWS Method
pub open spec fn cseq_p(s: Seq<u8>, i: int) -> Option<(int, ValueM)> {
    match number_end(s, i, u32::MAX as nat) {
        Some((a, n)) => match lws_end(s, a) {
            Some(b) => match method_p(s, b) {
                Some((e, m)) => Some((e, ValueM::CSeq(n as u32, m))),
                None => None,
            },
            None => None,
        },
        None => None,
    }
}

/// callid = word [ "@" word ]
pub open spec fn call_id_end(s: Seq<u8>, i: int) -> Option<int> {
    match run_end(s, i, Class::Word) {
        Some(a) => if byte_at(s, a, 0x40) {
            match run_end(s, a + 1, Class::Word) {
                Some(e) => Some(e),
                None => Some(a),
            }
        } else {
            Some(a)
        },
        None => None,
    }
}

/// *( text-byte / LWS ), each fold read as one space.
pub open spec fn raw_p(s: Seq<u8>, i: int) -> (int, Seq<u8>)
    decreases s.len() - i,
{
    if text_byte_at(s, i) {
        let (e, r) = raw_p(s, i + 1);
        (e, seq![s[i]] + r)
    } else {
        match lws_end(s, i) {
            Some(a) => if i < a <= s.len() {
                let (e, r) = raw_p(s, a);
                (e, seq![0x20u8] + r)
            } else {
                (i, seq![])
            },
            None => (i, seq![]),
        }
    }
}

/// The value that follows the name's HCOLON.
pub open spec fn value_p(k: HeaderKind, s: Seq<u8>, i: int) -> Option<(int, ValueM)> {
    match k {
        HeaderKind::Via => match via_p(s, i) {
            Some((e, v)) => Some((e, ValueM::Via(v))),
            None => None,
        },
        HeaderKind::To => match address_p(s, i) {
            Some((a, addr)) => {
                let (e, ps) = tag_params_p(s, a);
                Some((e, ValueM::To(addr, ps)))
            },
            None => None,
        },
        HeaderKind::From => match address_p(s, i) {
            Some((a, addr)) => {
                let (e, ps) = tag_params_p(s, a);
                Some((e, ValueM::From(addr, ps)))
            },
            None => None,
        },
        HeaderKind::CSeq => cseq_p(s, i),
        HeaderKind::CallId => match call_id_end(s, i) {
            Some(e) => Some((e, ValueM::CallId(s.subrange(i, e)))),
            None => None,
        },
        HeaderKind::MaxForwards => match number_end(s, i, usize::MAX as nat) {
            Some((e, n)) => Some((e, ValueM::MaxForwards(n as usize))),
            None => None,
        },
        HeaderKind::ContentLength => match number_end(s, i, usize::MAX as nat) {
            Some((e, n)) => Some((e, ValueM::ContentLength(n as usize))),
            None => None,
        },
        HeaderKind::Other => {
            let (e, r) = raw_p(s, i);
            Some((e, ValueM::Raw(r)))
        },
    }
}

pub fn tag_params_at(s: &[u8], i: usize) -> (r: (usize, Vec<TagParam>))
    requires
        i <= s.len(),
    ensures
        tag_params_p(s@, i as int) == (r.0 as int, views(r.1@)),
        i <= r.0 <= s.len(),
{
    let mut k = i;
    let mut acc: Vec<TagParam> = Vec::new();
    while k <= s.len()
        invariant
            i <= k <= s.len(),
            tag_params_p(s@, i as int) == (
                tag_params_p(s@, k as int).0,
                views(acc@) + tag_params_p(s@, k as int).1,
            ),
        decreases s.len() + 1 - k,
    {
        let j = match sep_at(s, k, 0x3b) {
            Some(j) => j,
            None => {
                assert(views(acc@) + seq![] =~= views(acc@));
                return (k, acc);
            },
        };
        match tag_param_at(s, j) {
            Some((e, p)) => {
                let ghost old_acc = acc@;
                acc.push(p);
                proof {
                    assert(views(acc@) =~= views(old_acc) + seq![p@]);
                    assert(views(acc@) + tag_params_p(s@, e as int).1 =~= views(old_acc) + (seq![
                        p@,
                    ] + tag_params_p(s@, e as int).1));
                }
                k = e;
            },
            None => {
                assert(views(acc@) + seq![] =~= views(acc@));
                return (k, acc);
            },
        }
    }
    (k, acc)
}

fn cseq_at(s: &[u8], i: usize) -> (r: Option<(usize, Value)>)
    requires
        i <= s.len(),
    ensures
        parsed(r, cseq_p(s@, i as int), i as int, s@.len() as int),
{
    let (a, n) = match number_at(s, i, u32::MAX as u64) {
        Some(x) => x,
        None => return None,
    };
    let b = match lws_at(s, a) {
        Some(b) => b,
        None => return None,
    };
    match method_at(s, b) {
        Some((e, method)) => Some((e, Value::CSeq { num: n as u32, method })),
        None => None,
    }
}

fn call_id_at(s: &[u8], i: usize) -> (r: Option<usize>)
    requires
        i <= s.len(),
    ensures
        same_end(r, call_id_end(s@, i as int)),
        r matches Some(e) ==> i < e <= s.len(),
{
    let a = match run_at(s, i, Class::Word) {
        Some(a) => a,
        None => return None,
    };
    if byte_is(s, a, 0x40) {
        match run_at(s, a + 1, Class::Word) {
            Some(e) => Some(e),
            None => Some(a),
        }
    } else {
        Some(a)
    }
}

pub proof fn lemma_raw(s: Seq<u8>, i: int)
    requires
        0 <= i <= s.len(),
    ensures
        i <= raw_p(s, i).0 <= s.len(),
    decreases s.len() - i,
{
    if text_byte_at(s, i) {
        lemma_raw(s, i + 1);
    } else if let Some(a) = lws_end(s, i) {
        if i < a <= s.len() {
            lemma_raw(s, a);
        }
    }
}

pub fn raw_at(s: &[u8], i: usize) -> (r: (usize, Vec<u8>))
    requires
        i <= s.len(),
    ensures
        raw_p(s@, i as int) == (r.0 as int, r.1@),
        i <= r.0 <= s.len(),
{
    proof {
        lemma_raw(s@, i as int);
    }
    let mut k = i;
    let mut acc: Vec<u8> = Vec::new();
    while k <= s.len()
        invariant
            i <= k <= s.len(),
            raw_p(s@, i as int) == (raw_p(s@, k as int).0, acc@ + raw_p(s@, k as int).1),
        decreases s.len() + 1 - k,
    {
        if text_byte_is(s, k) {
            let ghost old_acc = acc@;
            acc.push(s[k]);
            proof {
                assert(acc@ + raw_p(s@, k + 1).1 =~= old_acc + (seq![s@[k as int]] + raw_p(
                    s@,
                    k + 1,
                ).1));
            }
            k += 1;
        } else {
            match lws_at(s, k) {
                Some(a) => {
                    let ghost old_acc = acc@;
                    acc.push(0x20);
                    proof {
                        assert(acc@ + raw_p(s@, a as int).1 =~= old_acc + (seq![0x20u8] + raw_p(
                            s@,
                            a as int,
                        ).1));
                    }
                    k = a;
                },
                None => {
                    assert(acc@ + seq![] =~= acc@);
                    return (k, acc);
                },
            }
        }
    }
    (k, acc)
}

fn to_or_from_at(s: &[u8], i: usize, to: bool) -> (r: Option<(usize, Value)>)
    requires
        i <= s.len(),
    ensures
        parsed(
            r,
            value_p(if to { HeaderKind::To } else { HeaderKind::From }, s@, i as int),
            i as int,
            s@.len() as int,
        ),
{
    let (a, address) = match address_at(s, i) {
        Some(x) => x,
        None => return None,
    };
    let (e, params) = tag_params_at(s, a);
    if to {
        Some((e, Value::To { address, params }))
    } else {
        Some((e, Value::From { address, params }))
    }
}

pub fn value_at(k: HeaderKind, s: &[u8], i: usize) -> (r: Option<(usize, Value)>)
    requires
        i <= s.len(),
    ensures
        parsed(r, value_p(k, s@, i as int), i as int, s@.len() as int),
{
    match k {
        HeaderKind::Via => match via_at(s, i) {
            Some((e, v)) => Some((e, Value::Via(v))),
            None => None,
        },
        HeaderKind::To => to_or_from_at(s, i, true),
        HeaderKind::From => to_or_from_at(s, i, false),
        HeaderKind::CSeq => cseq_at(s, i),
        HeaderKind::CallId => match call_id_at(s, i) {
            Some(e) => Some((e, Value::CallId(slice_to_vec(slice_subrange(s, i, e))))),
            None => None,
        },
        HeaderKind::MaxForwards => match number_at(s, i, usize::MAX as u64) {
            Some((e, n)) => Some((e, Value::MaxForwards(n as usize))),
            None => None,
        },
        HeaderKind::ContentLength => match number_at(s, i, usize::MAX as u64) {
            Some((e, n)) => Some((e, Value::ContentLength(n as usize))),
            None => None,
        },
        HeaderKind::Other => {
            let (e, r) = raw_at(s, i);
            Some((e, Value::Raw(r)))
        },
    }
}

impl Value {
    /// Decodes a value as the header name selects.
    pub fn parse_with_name<'a>(name: &[u8], src: &'a [u8]) -> (r: ParseResult<'a, Value>)
        ensures
            slice_parsed(src@, value_p(kind_of(name@), src@, 0), r),
    {
        let k = header_kind(name);
        let m = value_at(k, src, 0);
        finish(src, m)
    }

    /// The value of a header that no decoder claims: text, folds read as one space.
    pub fn parse_default(src: &[u8]) -> (r: ParseResult<Value>)
        ensures
            slice_parsed(src@, value_p(HeaderKind::Other, src@, 0), r),
    {
        let m = value_at(HeaderKind::Other, src, 0);
        finish(src, m)
    }
}

// ---------------------------------------------------------------------------
// Header lines
// ---------------------------------------------------------------------------

/// A header line: its name and its decoded value.
#[derive(Debug, Clone, PartialEq, Eq)]
pub struct Header {
    pub name: Name,
    pub value: Value,
}

pub struct HeaderM {
    pub name: Seq<u8>,
    pub value: ValueM,
}

impl View for Header {
    type V = HeaderM;

    open spec fn view(&self) -> HeaderM {
        HeaderM { name: self.name@, value: self.value@ }
    }
}

/// header = name HCOLON value CRLF.  At an empty line there is no header:
/// `Some((i, None))`, nothing consumed.
#[verifier::opaque]
pub open spec fn header_p(s: Seq<u8>, i: int) -> Option<(int, Option<HeaderM>)> {
    if lit_at(s, i, crlf()) {
        Some((i, None))
    } else {
        match token_end(s, i) {
            Some(n) => match hcolon_end(s, n) {
                Some(a) => match value_p(kind_of(s.subrange(i, n)), s, a) {
                    Some((e, v)) => if lit_at(s, e, crlf()) {
                        Some((e + 2, Some(HeaderM { name: s.subrange(i, n), value: v })))
                    } else {
                        None
                    },
                    None => None,
                },
                None => None,
            },
            None => None,
        }
    }
}

pub proof fn lemma_header_negative(s: Seq<u8>, i: int)
    requires
        i < 0,
    ensures
        header_p(s, i) is None,
{
    reveal(header_p);
}

pub fn header_at(s: &[u8], i: usize) -> (r: Option<(usize, Option<Header>)>)
    requires
        i <= s.len(),
    ensures
        match r {
            Some((e, Some(h))) => header_p(s@, i as int) == Some((e as int, Some(h@))) && i < e
                <= s.len(),
            Some((e, None)) => header_p(s@, i as int) == Some((e as int, None::<HeaderM>)) && e
                == i,
            None => header_p(s@, i as int) is None,
        },
{
    proof {
        reveal(header_p);
    }
    if crlf_at(s, i) {
        return Some((i, None));
    }
    let n = match run_at(s, i, Class::Token) {
        Some(n) => n,
        None => return None,
    };
    let a = match hcolon_at(s, n) {
        Some(a) => a,
        None => return None,
    };
    let name_bytes = slice_subrange(s, i, n);
    let kind = header_kind(name_bytes);
    let (e, value) = match value_at(kind, s, a) {
        Some(x) => x,
        None => return None,
    };
    if !crlf_at(s, e) {
        return None;
    }
    let name = Name { inner: slice_to_vec(name_bytes) };
    Some((e + 2, Some(Header { name, value })))
}

impl Header {
    /// A header line; `None`, with nothing consumed, at the empty line that
    /// ends the header section.
    pub fn parse(src: &[u8]) -> (r: ParseResult<Option<Header>>)
        ensures
            match header_p(src@, 0) {
                Some((e, h)) => r matches Ok((rest, v)) && rest@ == src@.subrange(
                    e,
                    src@.len() as int,
                ) && match v {
                    Some(x) => h == Some(x@),
                    None => h is None,
                },
                None => r is Err,
            },
    {
        match header_at(src, 0) {
            Some((e, h)) => Ok((crate::parse_utils::rest_from(src, e), h)),
            None => Err(crate::parse_utils::ParseError::no_match()),
        }
    }
}

} // verus!

verus! {

// ---------------------------------------------------------------------------
// Rendering
// ---------------------------------------------------------------------------

/// `;param` for each parameter of a To or From value.
pub open spec fn tag_params_text(ps: Seq<ParamM>) -> Seq<char>
    decreases ps.len(),
{
    if ps.len() == 0 {
        seq![]
    } else {
        tag_params_text(ps.drop_last()) + seq![';'] + param_text(ps.last())
    }
}

/// Byte values (Call-ID, untyped text) are rendered when they are UTF-8.
pub open spec fn value_renderable(v: ValueM) -> bool {
    match v {
        ValueM::CallId(id) => valid_utf8(id),
        ValueM::Raw(r) => valid_utf8(r),
        _ => true,
    }
}

pub open spec fn value_text(v: ValueM) -> Seq<char> {
    match v {
        ValueM::Via(vs) => via_text(vs),
        ValueM::To(a, ps) => address_text(a) + tag_params_text(ps),
        ValueM::From(a, ps) => address_text(a) + tag_params_text(ps),
        ValueM::CSeq(n, m) => decimal(n as nat) + seq![' '] + method_text(m),
        ValueM::CallId(id) => decode_utf8(id),
        ValueM::MaxForwards(n) => decimal(n as nat),
        ValueM::ContentLength(n) => decimal(n as nat),
        ValueM::Raw(r) => decode_utf8(r),
    }
}

/// `name: value`
pub open spec fn header_text(h: HeaderM) -> Seq<char> {
    decode_utf8(h.name) + seq![':', ' '] + value_text(h.value)
}

pub open spec fn header_renderable(h: HeaderM) -> bool {
    valid_utf8(h.name) && value_renderable(h.value)
}

fn push_bytes_text(out: &mut String, b: &Vec<u8>) -> (ok: bool)
    ensures
        ok == valid_utf8(b@),
        ok ==> final(out)@ == old(out)@ + decode_utf8(b@),
{
    let n = b.len();
    assert(b@.subrange(0, n as int) =~= b@);
    match text_of(b.as_slice(), 0, n) {
        Some(t) => {
            push_lit(out, t.as_str());
            true
        },
        None => false,
    }
}

fn write_tag_params(out: &mut String, ps: &Vec<TagParam>)
    ensures
        final(out)@ == old(out)@ + tag_params_text(views(ps@)),
{
    let ghost start = out@;
    let mut k: usize = 0;
    while k < ps.len()
        invariant
            k <= ps@.len(),
            out@ == start + tag_params_text(views(ps@.subrange(0, k as int))),
        decreases ps@.len() - k,
    {
        push_lit(out, ";");
        proof {
            reveal_strlit(";");
        }
        ps[k].write(out);
        proof {
            let v = views(ps@.subrange(0, k + 1));
            assert(v.drop_last() =~= views(ps@.subrange(0, k as int)));
        }
        k += 1;
    }
    assert(ps@.subrange(0, k as int) =~= ps@);
}

impl Value {
    /// Appends the value as written on the wire; `false`, with `out` in an
    /// unspecified state, when a byte value is not UTF-8.
    pub fn write(&self, out: &mut String) -> (ok: bool)
        ensures
            ok == value_renderable(self@),
            ok ==> final(out)@ == old(out)@ + value_text(self@),
    {
        let ghost start = out@;
        match self {
            Value::Via(v) => {
                v.write(out);
                true
            },
            Value::To { address, params } | Value::From { address, params } => {
                address.write(out);
                write_tag_params(out, params);
                assert(out@ =~= start + value_text(self@));
                true
            },
            Value::CSeq { num, method } => {
                push_decimal(out, *num as u64);
                push_lit(out, " ");
                proof {
                    reveal_strlit(" ");
                }
                let m = method.to_string();
                push_lit(out, m.as_str());
                assert(out@ =~= start + value_text(self@));
                true
            },
            Value::CallId(id) => push_bytes_text(out, id),
            Value::MaxForwards(n) | Value::ContentLength(n) => {
                push_decimal(out, *n as u64);
                true
            },
            Value::Raw(r) => push_bytes_text(out, r),
        }
    }

    /// The value as written on the wire, when its bytes are UTF-8.
    pub fn to_string(&self) -> (r: Option<String>)
        ensures
            match r {
                Some(t) => value_renderable(self@) && t@ == value_text(self@),
                None => !value_renderable(self@),
            },
    {
        let mut out = String::new();
        if self.write(&mut out) {
            assert(out@ =~= value_text(self@));
            Some(out)
        } else {
            None
        }
    }
}

impl Header {
    pub fn write(&self, out: &mut String) -> (ok: bool)
        ensures
            ok == header_renderable(self@),
            ok ==> final(out)@ == old(out)@ + header_text(self@),
    {
        let ghost start = out@;
        if !push_bytes_text(out, &self.name.inner) {
            return false;
        }
        push_lit(out, ": ");
        proof {
            reveal_strlit(": ");
        }
        let ok = self.value.write(out);
        assert(ok ==> out@ =~= start + header_text(self@));
        ok
    }

    /// `name: value`, when the name and the value's bytes are UTF-8.
    pub fn to_string(&self) -> (r: Option<String>)
        ensures
            match r {
                Some(t) => header_renderable(self@) && t@ == header_text(self@),
                None => !header_renderable(self@),
            },
    {
        let mut out = String::new();
        if self.write(&mut out) {
            assert(out@ =~= header_text(self@));
            Some(out)
        } else {
            None
        }
    }
}

} // verus!

verus! {

// ---------------------------------------------------------------------------
// Rendering reads back
// ---------------------------------------------------------------------------

/// The value of a Content-Length or Max-Forwards header.
pub open spec fn count_value(k: HeaderKind, n: usize) -> ValueM {
    if k == HeaderKind::ContentLength {
        ValueM::ContentLength(n)
    } else {
        ValueM::MaxForwards(n)
    }
}

/// The bytes `name ": " digits CRLF`.
pub open spec fn count_header_bytes(nb: Seq<u8>, n: usize) -> Seq<u8> {
    nb + seq![0x3au8, 0x20u8] + decimal_bytes(n as nat) + crlf()
}

proof fn lemma_count_header_text(nb: Seq<u8>, n: usize, k: HeaderKind)
    requires
        all_in_class(nb, Class::Token),
        k == HeaderKind::ContentLength || k == HeaderKind::MaxForwards,
    ensures
        text_bytes(header_text(HeaderM { name: nb, value: count_value(k, n) })) + crlf()
            == count_header_bytes(nb, n),
{
    lemma_class_ascii(nb, 0, nb.len() as int, Class::Token);
    assert(nb.subrange(0, nb.len() as int) =~= nb);
    lemma_text_bytes_ascii(nb);
    let t1 = decode_utf8(nb) + seq![':', ' '];
    lemma_text_bytes_concat(decode_utf8(nb), seq![':', ' ']);
    lemma_text_bytes_concat(t1, decimal(n as nat));
    assert(text_bytes(seq![':', ' ']) =~= seq![0x3au8, 0x20u8]);
    assert(text_bytes(decimal(n as nat)) == decimal_bytes(n as nat));
}

#[verifier::rlimit(100)]
pub proof fn lemma_count_header_reads(s: Seq<u8>, q: int, nb: Seq<u8>, n: usize, k: HeaderKind)
    requires
        0 <= q,
        nb.len() > 0,
        all_in_class(nb, Class::Token),
        kind_of(nb) == k,
        k == HeaderKind::ContentLength || k == HeaderKind::MaxForwards,
        q + nb.len() + 2 + decimal_bytes(n as nat).len() + 2 <= s.len(),
        s.subrange(q, q + nb.len()) == nb,
        s[q + nb.len()] == 0x3a,
        s[q + nb.len() + 1] == 0x20,
        s.subrange(q + nb.len() + 2, q + nb.len() + 2 + decimal_bytes(n as nat).len()) == decimal_bytes(
            n as nat,
        ),
        lit_at(s, q + nb.len() + 2 + decimal_bytes(n as nat).len(), crlf()),
    ensures
        header_p(s, q) == Some(
            (
                q + nb.len() + 2 + decimal_bytes(n as nat).len() + 2,
                Some(HeaderM { name: nb, value: count_value(k, n) }),
            ),
        ),
{
    reveal(header_p);
    let a = q + nb.len();
    let p = a + 2;
    let e = p + decimal_bytes(n as nat).len();
    lemma_decimal_bytes(n as nat);
    assert(s[q] == s.subrange(q, a)[0]);
    assert(!lit_at(s, q, crlf())) by {
        if lit_at(s, q, crlf()) {
            assert(s.subrange(q, q + 2)[0] == s[q]);
        }
    }
    assert forall|j: int| q <= j < a implies in_class(Class::Token, #[trigger] s[j]) by {
        assert(s[j] == s.subrange(q, a)[j - q]);
    }
    lemma_scan_exact(s, q, a, Class::Token);
    lemma_scan_exact(s, a, a, Class::Wsp);
    assert(s[p] == decimal_bytes(n as nat)[0]) by {
        assert(s[p] == s.subrange(p, e)[0]);
    }
    lemma_scan_exact(s, a + 1, p, Class::Wsp);
    assert(!lit_at(s, p, crlf())) by {
        if lit_at(s, p, crlf()) {
            assert(s.subrange(p, p + 2)[0] == s[p]);
        }
    }
    assert(lws_end(s, a + 1) == Some(p));
    assert(hcolon_end(s, a) == Some(p));
    assert(s[e] == 0x0d) by {
        assert(s.subrange(e, e + 2)[0] == s[e]);
    }
    lemma_decimal_reads_at(s, p, n as nat, usize::MAX as nat);
    assert(value_p(k, s, p) == Some((e, count_value(k, n))));
}

/// A Content-Length or Max-Forwards header, rendered with its CRLF and
/// followed by anything, reads back as the same header.
pub proof fn lemma_count_header_round_trip(nb: Seq<u8>, n: usize, k: HeaderKind, rest: Seq<u8>)
    requires
        nb.len() > 0,
        all_in_class(nb, Class::Token),
        kind_of(nb) == k,
        k == HeaderKind::ContentLength || k == HeaderKind::MaxForwards,
    ensures
        header_p(
            text_bytes(header_text(HeaderM { name: nb, value: count_value(k, n) })) + crlf() + rest,
            0,
        ) == Some(
            (
                count_header_bytes(nb, n).len() as int,
                Some(HeaderM { name: nb, value: count_value(k, n) }),
            ),
        ),
{
    lemma_count_header_text(nb, n, k);
    let c = count_header_bytes(nb, n);
    let s = c + rest;
    let a = nb.len() as int;
    let db = decimal_bytes(n as nat);
    let e = a + 2 + db.len();
    assert(s.subrange(0, a) =~= nb);
    assert(s[a] == 0x3a);
    assert(s[a + 1] == 0x20);
    assert(s.subrange(a + 2, e) =~= db);
    assert(s.subrange(e, e + 2) =~= crlf());
    lemma_count_header_reads(s, 0, nb, n, k);
}

} // verus!

verus! {

/// The number an untyped value spells: all of it decimal digits, fitting a `usize`.
pub open spec fn raw_count(v: ValueM) -> Option<usize> {
    match v {
        ValueM::Raw(r) => match number_end(r, 0, usize::MAX as nat) {
            Some((e, n)) => if e == r.len() {
                Some(n as usize)
            } else {
                None
            },
            None => None,
        },
        _ => None,
    }
}

impl<'a> TryFrom<&'a Value> for usize {
    type Error = ParseError;

    /// An untyped value read as a number.
    fn try_from(value: &'a Value) -> (r: Result<usize, ParseError>)
        ensures
            match raw_count(value@) {
                Some(n) => r == Ok::<usize, ParseError>(n),
                None => r is Err,
            },
    {
        match value {
            Value::Raw(raw) => match number_at(raw.as_slice(), 0, usize::MAX as u64) {
                Some((e, n)) => if e == raw.len() {
                    Ok(n as usize)
                } else {
                    Err(ParseError::no_match())
                },
                None => Err(ParseError::no_match()),
            },
            _ => Err(ParseError::no_match()),
        }
    }
}

impl<'a> vstd::std_specs::convert::TryFromSpecImpl<&'a Value> for usize {
    open spec fn obeys_try_from_spec() -> bool {
        true
    }

    open spec fn try_from_spec(v: &'a Value) -> Result<usize, ParseError> {
        match raw_count(v@) {
            Some(n) => Ok(n),
            None => Err(ParseError { kind: ErrorKind::NoMatch, offset: 0 }),
        }
    }
}

} // verus!

verus! {

/// The bytes `name ": " word CRLF`.
pub open spec fn call_id_header_bytes(nb: Seq<u8>, id: Seq<u8>) -> Seq<u8> {
    nb + seq![0x3au8, 0x20u8] + id + crlf()
}

proof fn lemma_call_id_header_text(nb: Seq<u8>, id: Seq<u8>)
    requires
        all_in_class(nb, Class::Token),
        all_in_class(id, Class::Word),
    ensures
        text_bytes(header_text(HeaderM { name: nb, value: ValueM::CallId(id) })) + crlf()
            == call_id_header_bytes(nb, id),
{
    lemma_class_ascii(nb, 0, nb.len() as int, Class::Token);
    assert(nb.subrange(0, nb.len() as int) =~= nb);
    lemma_class_ascii(id, 0, id.len() as int, Class::Word);
    assert(id.subrange(0, id.len() as int) =~= id);
    lemma_text_bytes_ascii(nb);
    lemma_text_bytes_ascii(id);
    let t1 = decode_utf8(nb) + seq![':', ' '];
    lemma_text_bytes_concat(decode_utf8(nb), seq![':', ' ']);
    lemma_text_bytes_concat(t1, decode_utf8(id));
    assert(text_bytes(seq![':', ' ']) =~= seq![0x3au8, 0x20u8]);
}

#[verifier::rlimit(100)]
pub proof fn lemma_call_id_header_reads(s: Seq<u8>, q: int, nb: Seq<u8>, id: Seq<u8>)
    requires
        0 <= q,
        nb.len() > 0,
        all_in_class(nb, Class::Token),
        kind_of(nb) == HeaderKind::CallId,
        id.len() > 0,
        all_in_class(id, Class::Word),
        q + nb.len() + 2 + id.len() + 2 <= s.len(),
        s.subrange(q, q + nb.len()) == nb,
        s[q + nb.len()] == 0x3a,
        s[q + nb.len() + 1] == 0x20,
        s.subrange(q + nb.len() + 2, q + nb.len() + 2 + id.len()) == id,
        lit_at(s, q + nb.len() + 2 + id.len(), crlf()),
    ensures
        header_p(s, q) == Some(
            (
                q + nb.len() + 2 + id.len() + 2,
                Some(HeaderM { name: nb, value: ValueM::CallId(id) }),
            ),
        ),
{
    reveal(header_p);
    let a = q + nb.len();
    let p = a + 2;
    let e = p + id.len();
    assert(s[q] == s.subrange(q, a)[0]);
    assert(!lit_at(s, q, crlf())) by {
        if lit_at(s, q, crlf()) {
            assert(s.subrange(q, q + 2)[0] == s[q]);
        }
    }
    assert forall|j: int| q <= j < a implies in_class(Class::Token, #[trigger] s[j]) by {
        assert(s[j] == s.subrange(q, a)[j - q]);
    }
    lemma_scan_exact(s, q, a, Class::Token);
    lemma_scan_exact(s, a, a, Class::Wsp);
    assert(s[p] == id[0]) by {
        assert(s[p] == s.subrange(p, e)[0]);
    }
    lemma_scan_exact(s, a + 1, p, Class::Wsp);
    assert(!lit_at(s, p, crlf())) by {
        if lit_at(s, p, crlf()) {
            assert(s.subrange(p, p + 2)[0] == s[p]);
        }
    }
    assert(lws_end(s, a + 1) == Some(p));
    assert(hcolon_end(s, a) == Some(p));
    assert(s[e] == 0x0d) by {
        assert(s.subrange(e, e + 2)[0] == s[e]);
    }
    assert forall|j: int| p <= j < e implies in_class(Class::Word, #[trigger] s[j]) by {
        assert(s[j] == s.subrange(p, e)[j - p]);
    }
    lemma_scan_exact(s, p, e, Class::Word);
    assert(call_id_end(s, p) == Some(e));
    assert(value_p(HeaderKind::CallId, s, p) == Some((e, ValueM::CallId(id))));
}

/// A Call-ID header holding one word, rendered with its CRLF and followed by
/// anything, reads back as the same header.
pub proof fn lemma_call_id_header_round_trip(nb: Seq<u8>, id: Seq<u8>, rest: Seq<u8>)
    requires
        nb.len() > 0,
        all_in_class(nb, Class::Token),
        kind_of(nb) == HeaderKind::CallId,
        id.len() > 0,
        all_in_class(id, Class::Word),
    ensures
        header_p(
            text_bytes(header_text(HeaderM { name: nb, value: ValueM::CallId(id) })) + crlf() + rest,
            0,
        ) == Some(
            (
                call_id_header_bytes(nb, id).len() as int,
                Some(HeaderM { name: nb, value: ValueM::CallId(id) }),
            ),
        ),
{
    lemma_call_id_header_text(nb, id);
    let s = call_id_header_bytes(nb, id) + rest;
    let a = nb.len() as int;
    let e = a + 2 + id.len();
    assert(s.subrange(0, a) =~= nb);
    assert(s[a] == 0x3a);
    assert(s[a + 1] == 0x20);
    assert(s.subrange(a + 2, e) =~= id);
    assert(s.subrange(e, e + 2) =~= crlf());
    lemma_call_id_header_reads(s, 0, nb, id);
}

} // verus!

verus! {

/// The bytes `name ": " digits SP method CRLF`.
pub open spec fn cseq_header_bytes(nb: Seq<u8>, n: u32, mb: Seq<u8>) -> Seq<u8> {
    nb + seq![0x3au8, 0x20u8] + decimal_bytes(n as nat) + seq![0x20u8] + mb + crlf()
}

proof fn lemma_cseq_header_text(nb: Seq<u8>, n: u32, mb: Seq<u8>)
    requires
        all_in_class(nb, Class::Token),
        all_in_class(mb, Class::Token),
    ensures
        text_bytes(header_text(HeaderM { name: nb, value: ValueM::CSeq(n, method_of(mb)) }))
            + crlf() == cseq_header_bytes(nb, n, mb),
{
    lemma_class_ascii(nb, 0, nb.len() as int, Class::Token);
    assert(nb.subrange(0, nb.len() as int) =~= nb);
    lemma_text_bytes_ascii(nb);
    if mb == lit_invite() {
        lemma_text_bytes_ascii(lit_invite());
    } else {
        lemma_text_bytes_ascii(mb);
    }
    let mt = method_text(method_of(mb));
    assert(text_bytes(mt) == mb);
    let t1 = decode_utf8(nb) + seq![':', ' '];
    let t2 = t1 + decimal(n as nat);
    let t3 = t2 + seq![' '];
    lemma_text_bytes_concat(decode_utf8(nb), seq![':', ' ']);
    lemma_text_bytes_concat(t1, decimal(n as nat));
    lemma_text_bytes_concat(t2, seq![' ']);
    lemma_text_bytes_concat(t3, mt);
    assert(text_bytes(seq![':', ' ']) =~= seq![0x3au8, 0x20u8]);
    assert(text_bytes(seq![' ']) =~= seq![0x20u8]);
    assert(text_bytes(decimal(n as nat)) == decimal_bytes(n as nat));
    assert(header_text(HeaderM { name: nb, value: ValueM::CSeq(n, method_of(mb)) }) =~= t3 + mt);
}

#[verifier::rlimit(100)]
pub proof fn lemma_cseq_header_reads(s: Seq<u8>, q: int, nb: Seq<u8>, n: u32, mb: Seq<u8>)
    requires
        0 <= q,
        nb.len() > 0,
        all_in_class(nb, Class::Token),
        kind_of(nb) == HeaderKind::CSeq,
        mb.len() > 0,
        all_in_class(mb, Class::Token),
        q + nb.len() + 2 + decimal_bytes(n as nat).len() + 1 + mb.len() + 2 <= s.len(),
        s.subrange(q, q + nb.len()) == nb,
        s[q + nb.len()] == 0x3a,
        s[q + nb.len() + 1] == 0x20,
        s.subrange(q + nb.len() + 2, q + nb.len() + 2 + decimal_bytes(n as nat).len())
            == decimal_bytes(n as nat),
        s[q + nb.len() + 2 + decimal_bytes(n as nat).len()] == 0x20,
        s.subrange(
            q + nb.len() + 3 + decimal_bytes(n as nat).len(),
            q + nb.len() + 3 + decimal_bytes(n as nat).len() + mb.len(),
        ) == mb,
        lit_at(s, q + nb.len() + 3 + decimal_bytes(n as nat).len() + mb.len(), crlf()),
    ensures
        header_p(s, q) == Some(
            (
                q + nb.len() + 3 + decimal_bytes(n as nat).len() + mb.len() + 2,
                Some(HeaderM { name: nb, value: ValueM::CSeq(n, method_of(mb)) }),
            ),
        ),
{
    reveal(header_p);
    let a = q + nb.len();
    let p = a + 2;
    let d = p + decimal_bytes(n as nat).len();
    let m0 = d + 1;
    let e = m0 + mb.len();
    lemma_decimal_bytes(n as nat);
    assert(s[q] == s.subrange(q, a)[0]);
    assert(!lit_at(s, q, crlf())) by {
        if lit_at(s, q, crlf()) {
            assert(s.subrange(q, q + 2)[0] == s[q]);
        }
    }
    assert forall|j: int| q <= j < a implies in_class(Class::Token, #[trigger] s[j]) by {
        assert(s[j] == s.subrange(q, a)[j - q]);
    }
    lemma_scan_exact(s, q, a, Class::Token);
    lemma_scan_exact(s, a, a, Class::Wsp);
    assert(s[p] == decimal_bytes(n as nat)[0]) by {
        assert(s[p] == s.subrange(p, d)[0]);
    }
    lemma_scan_exact(s, a + 1, p, Class::Wsp);
    assert(!lit_at(s, p, crlf())) by {
        if lit_at(s, p, crlf()) {
            assert(s.subrange(p, p + 2)[0] == s[p]);
        }
    }
    assert(lws_end(s, a + 1) == Some(p));
    assert(hcolon_end(s, a) == Some(p));
    lemma_decimal_reads_at(s, p, n as nat, u32::MAX as nat);
    assert(s[m0] == mb[0]) by {
        assert(s[m0] == s.subrange(m0, e)[0]);
    }
    lemma_scan_exact(s, d, m0, Class::Wsp);
    assert(!lit_at(s, m0, crlf())) by {
        if lit_at(s, m0, crlf()) {
            assert(s.subrange(m0, m0 + 2)[0] == s[m0]);
        }
    }
    assert(lws_end(s, d) == Some(m0));
    assert forall|j: int| m0 <= j < e implies in_class(Class::Token, #[trigger] s[j]) by {
        assert(s[j] == s.subrange(m0, e)[j - m0]);
    }
    assert(s[e] == 0x0d) by {
        assert(s.subrange(e, e + 2)[0] == s[e]);
    }
    lemma_scan_exact(s, m0, e, Class::Token);
    assert(method_p(s, m0) == Some((e, method_of(mb))));
    assert(cseq_p(s, p) == Some((e, ValueM::CSeq(n, method_of(mb)))));
}

/// A CSeq header, rendered with its CRLF and followed by anything, reads
/// back as the same header.
pub proof fn lemma_cseq_header_round_trip(nb: Seq<u8>, n: u32, mb: Seq<u8>, rest: Seq<u8>)
    requires
        nb.len() > 0,
        all_in_class(nb, Class::Token),
        kind_of(nb) == HeaderKind::CSeq,
        mb.len() > 0,
        all_in_class(mb, Class::Token),
    ensures
        header_p(
            text_bytes(header_text(HeaderM { name: nb, value: ValueM::CSeq(n, method_of(mb)) }))
                + crlf() + rest,
            0,
        ) == Some(
            (
                cseq_header_bytes(nb, n, mb).len() as int,
                Some(HeaderM { name: nb, value: ValueM::CSeq(n, method_of(mb)) }),
            ),
        ),
{
    lemma_cseq_header_text(nb, n, mb);
    let s = cseq_header_bytes(nb, n, mb) + rest;
    let a = nb.len() as int;
    let d = a + 2 + decimal_bytes(n as nat).len();
    let e = d + 1 + mb.len();
    assert(s.subrange(0, a) =~= nb);
    assert(s[a] == 0x3a);
    assert(s[a + 1] == 0x20);
    assert(s.subrange(a + 2, d) =~= decimal_bytes(n as nat));
    assert(s[d] == 0x20);
    assert(s.subrange(d + 1, e) =~= mb);
    assert(s.subrange(e, e + 2) =~= crlf());
    lemma_cseq_header_reads(s, 0, nb, n, mb);
}

} // verus!

verus! {

/// `;tag=t`, or no parameter.
pub open spec fn tag_list(tag: Option<Seq<u8>>) -> Seq<ParamM> {
    match tag {
        Some(t) => seq![ParamM::Tag(ascii_chars(t))],
        None => seq![],
    }
}

pub open spec fn tag_bytes(tag: Option<Seq<u8>>) -> Seq<u8> {
    match tag {
        Some(t) => seq![0x3bu8, 0x74u8, 0x61u8, 0x67u8, 0x3du8] + t,
        None => seq![],
    }
}

/// A To or From value: `<sip:user@host>` and perhaps a tag.
pub open spec fn party_value(to: bool, user: Seq<u8>, host: Seq<u8>, tag: Option<Seq<u8>>) -> ValueM {
    let a = simple_address(Seq::empty(), user, host);
    if to {
        ValueM::To(a, tag_list(tag))
    } else {
        ValueM::From(a, tag_list(tag))
    }
}

/// The bytes `name ": <sip:" user "@" host ">" [";tag=" t] CRLF`.
#[verifier::opaque]
pub open spec fn party_header_bytes(nb: Seq<u8>, user: Seq<u8>, host: Seq<u8>, tag: Option<Seq<u8>>) -> Seq<u8> {
    nb + seq![0x3au8, 0x20u8] + simple_address_bytes(Seq::empty(), user, host) + tag_bytes(tag)
        + crlf()
}

proof fn lemma_party_header_text(nb: Seq<u8>, to: bool, user: Seq<u8>, host: Seq<u8>, tag: Option<Seq<u8>>)
    requires
        all_in_class(nb, Class::Token),
        tag matches Some(t) ==> all_in_class(t, Class::Token),
    ensures
        text_bytes(header_text(HeaderM { name: nb, value: party_value(to, user, host, tag) }))
            + crlf() == party_header_bytes(nb, user, host, tag),
{
    reveal(party_header_bytes);
    lemma_class_ascii(nb, 0, nb.len() as int, Class::Token);
    assert(nb.subrange(0, nb.len() as int) =~= nb);
    lemma_text_bytes_ascii(nb);
    let ws = Seq::<Seq<u8>>::empty();
    lemma_simple_address_text(ws, user, host);
    let at = address_text(simple_address(ws, user, host));
    let tt = tag_params_text(tag_list(tag));
    assert(text_bytes(tt) == tag_bytes(tag)) by {
        match tag {
            Some(t) => {
                lemma_text_bytes_ascii(t);
                assert(tag_list(tag).drop_last().len() == 0);
                assert(tag_params_text(tag_list(tag).drop_last()) == Seq::<char>::empty());
                assert(tt =~= seq![';', 't', 'a', 'g', '='] + ascii_chars(t));
                lemma_text_bytes_concat(seq![';', 't', 'a', 'g', '='], ascii_chars(t));
                assert(text_bytes(seq![';', 't', 'a', 'g', '=']) =~= seq![
                    0x3bu8,
                    0x74u8,
                    0x61u8,
                    0x67u8,
                    0x3du8,
                ]);
            },
            None => {
                assert(tt == Seq::<char>::empty());
                assert(text_bytes(tt) =~= Seq::<u8>::empty());
            },
        }
    }
    let t1 = decode_utf8(nb) + seq![':', ' '];
    lemma_text_bytes_concat(decode_utf8(nb), seq![':', ' ']);
    lemma_text_bytes_concat(t1, at);
    lemma_text_bytes_concat(t1 + at, tt);
    assert(text_bytes(seq![':', ' ']) =~= seq![0x3au8, 0x20u8]);
    assert(header_text(HeaderM { name: nb, value: party_value(to, user, host, tag) }) =~= t1 + at
        + tt);
}

/// After `<sip:user@host>` at `n`: the tag parameter, if any, to the end `e`
/// of the line.
proof fn lemma_party_tail(s: Seq<u8>, n: int, tag: Option<Seq<u8>>)
    requires
        0 <= n,
        n + tag_bytes(tag).len() + 2 <= s.len(),
        tag matches Some(t) ==> t.len() > 0 && all_in_class(t, Class::Token),
        s.subrange(n, n + tag_bytes(tag).len()) == tag_bytes(tag),
        lit_at(s, n + tag_bytes(tag).len(), crlf()),
        n + tag_bytes(tag).len() + 2 == s.len() || !in_class(
            Class::Wsp,
            s[n + tag_bytes(tag).len() + 2],
        ),
    ensures
        lws_end(s, n) is None,
        !in_class(Class::Token, s[n]),
        tag_params_p(s, n) == (n + tag_bytes(tag).len(), tag_list(tag)),
{
    let e = n + tag_bytes(tag).len();
    lemma_line_end(s, e);
    match tag {
        Some(t) => {
            assert(s[n] == s.subrange(n, e)[0]);
            assert(s[n] == 0x3b);
            lemma_no_ws(s, n);
            assert(s[n + 1] == s.subrange(n, e)[1]);
            lemma_no_ws(s, n + 1);
            assert(sep_end(s, n, 0x3b) == Some(n + 1));
            assert(s.subrange(n + 1, n + 4) =~= lit_tag()) by {
                assert forall|k: int| 0 <= k < 3 implies #[trigger] s.subrange(n + 1, n + 4)[k]
                    == lit_tag()[k] by {
                    assert(s[n + 1 + k] == s.subrange(n, e)[1 + k]);
                }
            }
            assert(s[n + 4] == s.subrange(n, e)[4]);
            lemma_no_ws(s, n + 4);
            assert(s[n + 5] == s.subrange(n, e)[5]);
            assert(s[n + 5] == t[0]);
            lemma_no_ws(s, n + 5);
            assert(sep_end(s, n + 4, 0x3d) == Some(n + 5));
            assert forall|k: int| n + 5 <= k < e implies in_class(Class::Token, #[trigger] s[k]) by {
                assert(s[k] == s.subrange(n, e)[k - n]);
                assert(s[k] == t[k - n - 5]);
            }
            lemma_scan_exact(s, n + 5, e, Class::Token);
            assert(s.subrange(n + 5, e) =~= t) by {
                assert forall|k: int| 0 <= k < t.len() implies #[trigger] s.subrange(n + 5, e)[k]
                    == t[k] by {
                    assert(s[n + 5 + k] == s.subrange(n, e)[5 + k]);
                }
            }
            assert(param_p(s, n + 1) == Some((e, ParamM::Tag(ascii_chars(t)))));
            assert(sep_end(s, e, 0x3b) is None);
            assert(tag_params_p(s, e) == (e, Seq::<ParamM>::empty()));
            assert(tag_list(tag) =~= seq![ParamM::Tag(ascii_chars(t))] + Seq::<ParamM>::empty());
        },
        None => {
            assert(e == n);
            assert(sep_end(s, n, 0x3b) is None);
        },
    }
}

#[verifier::rlimit(100)]
pub proof fn lemma_party_header_reads(
    s: Seq<u8>,
    q: int,
    nb: Seq<u8>,
    to: bool,
    user: Seq<u8>,
    host: Seq<u8>,
    tag: Option<Seq<u8>>,
)
    requires
        0 <= q,
        nb.len() > 0,
        all_in_class(nb, Class::Token),
        kind_of(nb) == (if to { HeaderKind::To } else { HeaderKind::From }),
        user.len() > 0,
        all_in_class(user, Class::User),
        all_in_class(host, Class::Host),
        tag matches Some(t) ==> t.len() > 0 && all_in_class(t, Class::Token),
        q + nb.len() + 9 + user.len() + host.len() + tag_bytes(tag).len() + 2 <= s.len(),
        s.subrange(q, q + nb.len()) == nb,
        s[q + nb.len()] == 0x3a,
        s[q + nb.len() + 1] == 0x20,
        s[q + nb.len() + 2] == 0x3c,
        s.subrange(q + nb.len() + 3, q + nb.len() + 7) == lit_sip(),
        s.subrange(q + nb.len() + 7, q + nb.len() + 7 + user.len()) == user,
        s[q + nb.len() + 7 + user.len()] == 0x40,
        s.subrange(q + nb.len() + 8 + user.len(), q + nb.len() + 8 + user.len() + host.len())
            == host,
        s[q + nb.len() + 8 + user.len() + host.len()] == 0x3e,
        s.subrange(
            q + nb.len() + 9 + user.len() + host.len(),
            q + nb.len() + 9 + user.len() + host.len() + tag_bytes(tag).len(),
        ) == tag_bytes(tag),
        lit_at(s, q + nb.len() + 9 + user.len() + host.len() + tag_bytes(tag).len(), crlf()),
        q + nb.len() + 9 + user.len() + host.len() + tag_bytes(tag).len() + 2 == s.len() || !in_class(
            Class::Wsp,
            s[q + nb.len() + 9 + user.len() + host.len() + tag_bytes(tag).len() + 2],
        ),
    ensures
        header_p(s, q) == Some(
            (
                q + nb.len() + 9 + user.len() + host.len() + tag_bytes(tag).len() + 2,
                Some(HeaderM { name: nb, value: party_value(to, user, host, tag) }),
            ),
        ),
{
    reveal(header_p);
    let a = q + nb.len();
    let p = a + 2;
    let n = p + 7 + user.len() + host.len();
    let e = n + tag_bytes(tag).len();
    assert(s[q] == s.subrange(q, a)[0]);
    assert(!lit_at(s, q, crlf())) by {
        if lit_at(s, q, crlf()) {
            assert(s.subrange(q, q + 2)[0] == s[q]);
        }
    }
    assert forall|j: int| q <= j < a implies in_class(Class::Token, #[trigger] s[j]) by {
        assert(s[j] == s.subrange(q, a)[j - q]);
    }
    lemma_scan_exact(s, q, a, Class::Token);
    lemma_scan_exact(s, a, a, Class::Wsp);
    lemma_scan_exact(s, a + 1, p, Class::Wsp);
    lemma_no_ws(s, p);
    assert(lws_end(s, a + 1) == Some(p));
    assert(hcolon_end(s, a) == Some(p));
    lemma_party_tail(s, n, tag);
    lemma_bracketed_address_reads(s, p, user, host);
    lemma_line_end(s, e);
}

/// A To or From header of the shape `name: <sip:user@host>[;tag=t]`,
/// rendered with its CRLF and followed by anything that does not fold the
/// line, reads back as the same header.
pub proof fn lemma_party_header_round_trip(
    nb: Seq<u8>,
    to: bool,
    user: Seq<u8>,
    host: Seq<u8>,
    tag: Option<Seq<u8>>,
    rest: Seq<u8>,
)
    requires
        nb.len() > 0,
        all_in_class(nb, Class::Token),
        kind_of(nb) == (if to { HeaderKind::To } else { HeaderKind::From }),
        user.len() > 0,
        all_in_class(user, Class::User),
        all_in_class(host, Class::Host),
        tag matches Some(t) ==> t.len() > 0 && all_in_class(t, Class::Token),
        rest.len() == 0 || !in_class(Class::Wsp, rest[0]),
    ensures
        header_p(
            text_bytes(header_text(HeaderM { name: nb, value: party_value(to, user, host, tag) }))
                + crlf() + rest,
            0,
        ) == Some(
            (
                party_header_bytes(nb, user, host, tag).len() as int,
                Some(HeaderM { name: nb, value: party_value(to, user, host, tag) }),
            ),
        ),
{
    lemma_party_header_text(nb, to, user, host, tag);
    lemma_party_layout(nb, user, host, tag, rest);
    lemma_party_header_reads(
        party_header_bytes(nb, user, host, tag) + rest,
        0,
        nb,
        to,
        user,
        host,
        tag,
    );
}

proof fn lemma_party_layout(nb: Seq<u8>, user: Seq<u8>, host: Seq<u8>, tag: Option<Seq<u8>>, rest: Seq<u8>)
    requires
        rest.len() == 0 || !in_class(Class::Wsp, rest[0]),
    ensures
        ({
            let s = party_header_bytes(nb, user, host, tag) + rest;
            let a = nb.len() as int;
            let h = a + 8 + user.len() + host.len();
            let e = h + 1 + tag_bytes(tag).len();
            &&& party_header_bytes(nb, user, host, tag).len() == e + 2
            &&& s.subrange(0, a) == nb
            &&& s[a] == 0x3a
            &&& s[a + 1] == 0x20
            &&& s[a + 2] == 0x3c
            &&& s.subrange(a + 3, a + 7) == lit_sip()
            &&& s.subrange(a + 7, a + 7 + user.len()) == user
            &&& s[a + 7 + user.len()] == 0x40
            &&& s.subrange(a + 8 + user.len(), h) == host
            &&& s[h] == 0x3e
            &&& s.subrange(h + 1, e) == tag_bytes(tag)
            &&& lit_at(s, e, crlf())
            &&& (e + 2 == s.len() || !in_class(Class::Wsp, s[e + 2]))
        }),
{
    reveal(party_header_bytes);
    let s = party_header_bytes(nb, user, host, tag) + rest;
    let a = nb.len() as int;
    let h = a + 8 + user.len() + host.len();
    let e = h + 1 + tag_bytes(tag).len();
    assert(words_bytes(Seq::<Seq<u8>>::empty()) == Seq::<u8>::empty());
    assert(s.subrange(0, a) =~= nb);
    assert(s.subrange(a + 3, a + 7) =~= lit_sip());
    assert(s.subrange(a + 7, a + 7 + user.len()) =~= user);
    assert(s.subrange(a + 8 + user.len(), h) =~= host);
    assert(s.subrange(h + 1, e) =~= tag_bytes(tag));
    assert(s.subrange(e, e + 2) =~= crlf());
    if rest.len() > 0 {
        assert(s[e + 2] == rest[0]);
    }
}

} // verus!

verus! {

/// The Via entry `SIP/version/UDP host`.
pub open spec fn simple_via_parm(vb: Seq<u8>, host: Seq<u8>) -> ViaParmM {
    ViaParmM {
        sent_protocol: SentProtocolM {
            name: ProtocolNameM::Sip,
            version: ascii_chars(vb),
            transport: TransportM::Udp,
        },
        sent_by: SentByM { host: ascii_chars(host), port: None },
        params: seq![],
    }
}

/// The bytes `name ": SIP/" version "/UDP " host CRLF`.
#[verifier::opaque]
pub open spec fn via_header_bytes(nb: Seq<u8>, vb: Seq<u8>, host: Seq<u8>) -> Seq<u8> {
    nb + seq![0x3au8, 0x20u8] + lit_sip_upper() + seq![0x2fu8] + vb + seq![0x2fu8]
        + lit_udp_upper() + seq![0x20u8] + host + crlf()
}

proof fn lemma_via_header_text(nb: Seq<u8>, vb: Seq<u8>, host: Seq<u8>)
    requires
        all_in_class(nb, Class::Token),
    ensures
        text_bytes(header_text(HeaderM { name: nb, value: ValueM::Via(seq![simple_via_parm(vb, host)]) }))
            + crlf() == via_header_bytes(nb, vb, host),
{
    reveal(via_header_bytes);
    lemma_class_ascii(nb, 0, nb.len() as int, Class::Token);
    assert(nb.subrange(0, nb.len() as int) =~= nb);
    lemma_text_bytes_ascii(nb);
    lemma_text_bytes_ascii(vb);
    lemma_text_bytes_ascii(host);
    let parm = simple_via_parm(vb, host);
    assert(via_params_text(Seq::<ViaParamM>::empty()) == Seq::<char>::empty());
    let t0 = decode_utf8(nb) + seq![':', ' '];
    let t1 = t0 + seq!['S', 'I', 'P', '/'];
    let t2 = t1 + ascii_chars(vb);
    let t3 = t2 + seq!['/', 'U', 'D', 'P', ' '];
    let t4 = t3 + ascii_chars(host);
    assert(via_text(seq![parm]) == via_parm_text(parm));
    assert(header_text(HeaderM { name: nb, value: ValueM::Via(seq![parm]) }) =~= t4);
    lemma_text_bytes_concat(decode_utf8(nb), seq![':', ' ']);
    lemma_text_bytes_concat(t0, seq!['S', 'I', 'P', '/']);
    lemma_text_bytes_concat(t1, ascii_chars(vb));
    lemma_text_bytes_concat(t2, seq!['/', 'U', 'D', 'P', ' ']);
    lemma_text_bytes_concat(t3, ascii_chars(host));
    assert(text_bytes(seq![':', ' ']) =~= seq![0x3au8, 0x20u8]);
    assert(text_bytes(seq!['S', 'I', 'P', '/']) =~= lit_sip_upper() + seq![0x2fu8]);
    assert(text_bytes(seq!['/', 'U', 'D', 'P', ' ']) =~= seq![0x2fu8] + lit_udp_upper() + seq![
        0x20u8,
    ]);
    assert(text_bytes(t4) + crlf() =~= via_header_bytes(nb, vb, host));
}

proof fn lemma_via_layout(nb: Seq<u8>, vb: Seq<u8>, host: Seq<u8>, rest: Seq<u8>)
    requires
        rest.len() == 0 || !in_class(Class::Wsp, rest[0]),
    ensures
        ({
            let s = via_header_bytes(nb, vb, host) + rest;
            let a = nb.len() as int;
            let p = a + 2;
            let b = p + 4 + vb.len();
            let c = b + 4;
            let e = c + 1 + host.len();
            &&& via_header_bytes(nb, vb, host).len() == e + 2
            &&& s.subrange(0, a) == nb
            &&& s[a] == 0x3a
            &&& s[a + 1] == 0x20
            &&& s.subrange(p, p + 3) == lit_sip_upper()
            &&& s[p + 3] == 0x2f
            &&& s.subrange(p + 4, b) == vb
            &&& s[b] == 0x2f
            &&& s.subrange(b + 1, c) == lit_udp_upper()
            &&& s[c] == 0x20
            &&& s.subrange(c + 1, e) == host
            &&& lit_at(s, e, crlf())
            &&& (e + 2 == s.len() || !in_class(Class::Wsp, s[e + 2]))
        }),
{
    reveal(via_header_bytes);
    let s = via_header_bytes(nb, vb, host) + rest;
    let a = nb.len() as int;
    let p = a + 2;
    let b = p + 4 + vb.len();
    let c = b + 4;
    let e = c + 1 + host.len();
    assert(s.subrange(0, a) =~= nb);
    assert(s.subrange(p, p + 3) =~= lit_sip_upper());
    assert(s.subrange(p + 4, b) =~= vb);
    assert(s.subrange(b + 1, c) =~= lit_udp_upper());
    assert(s.subrange(c + 1, e) =~= host);
    assert(s.subrange(e, e + 2) =~= crlf());
    if rest.len() > 0 {
        assert(s[e + 2] == rest[0]);
    }
}

/// `SIP/version/UDP host` at `p`, ending at a CRLF that is no fold, reads
/// as one Via entry.
#[verifier::rlimit(100)]
pub proof fn lemma_via_value_reads(s: Seq<u8>, p: int, vb: Seq<u8>, host: Seq<u8>)
    requires
        0 <= p,
        vb.len() > 0,
        all_in_class(vb, Class::Token),
        host.len() > 0,
        all_in_class(host, Class::Host),
        p + 9 + vb.len() + host.len() + 2 <= s.len(),
        s.subrange(p, p + 3) == lit_sip_upper(),
        s[p + 3] == 0x2f,
        s.subrange(p + 4, p + 4 + vb.len()) == vb,
        s[p + 4 + vb.len()] == 0x2f,
        s.subrange(p + 5 + vb.len(), p + 8 + vb.len()) == lit_udp_upper(),
        s[p + 8 + vb.len()] == 0x20,
        s.subrange(p + 9 + vb.len(), p + 9 + vb.len() + host.len()) == host,
        lit_at(s, p + 9 + vb.len() + host.len(), crlf()),
        p + 9 + vb.len() + host.len() + 2 == s.len() || !in_class(
            Class::Wsp,
            s[p + 9 + vb.len() + host.len() + 2],
        ),
    ensures
        via_p(s, p) == Some((p + 9 + vb.len() + host.len(), seq![simple_via_parm(vb, host)])),
{
    let b = p + 4 + vb.len();
    let c = b + 4;
    let e = c + 1 + host.len();
    assert(lit_at(s, p, lit_sip_upper()));
    assert forall|j: int| p + 4 <= j < b implies in_class(Class::Token, #[trigger] s[j]) by {
        assert(s[j] == s.subrange(p + 4, b)[j - p - 4]);
    }
    lemma_scan_exact(s, p + 4, b, Class::Token);
    assert(lit_at(s, b + 1, lit_udp_upper()));
    assert(sent_protocol_p(s, p) == Some(
        (
            c,
            SentProtocolM {
                name: ProtocolNameM::Sip,
                version: ascii_chars(vb),
                transport: TransportM::Udp,
            },
        ),
    ));
    assert(s[c + 1] == s.subrange(c + 1, e)[0]);
    lemma_scan_exact(s, c, c + 1, Class::Wsp);
    assert(!lit_at(s, c + 1, crlf())) by {
        if lit_at(s, c + 1, crlf()) {
            assert(s.subrange(c + 1, c + 3)[0] == s[c + 1]);
        }
    }
    assert(lws_end(s, c) == Some(c + 1));
    assert forall|j: int| c + 1 <= j < e implies in_class(Class::Host, #[trigger] s[j]) by {
        assert(s[j] == s.subrange(c + 1, e)[j - c - 1]);
    }
    lemma_line_end(s, e);
    lemma_scan_exact(s, c + 1, e, Class::Host);
    assert(sep_end(s, e, 0x3a) is None);
    assert(sent_by_p(s, c + 1) == (e, SentByM { host: ascii_chars(host), port: None }));
    assert(sep_end(s, e, 0x3b) is None);
    assert(via_param_p(s, e) is None);
    assert(via_params_p(s, e) == (e, Seq::<ViaParamM>::empty()));
    assert(via_parm_p(s, p) == Some((e, simple_via_parm(vb, host))));
    assert(sep_end(s, e, 0x2c) is None);
    assert(more_via_parms_p(s, e) == (e, Seq::<ViaParmM>::empty()));
    assert(seq![simple_via_parm(vb, host)] + Seq::<ViaParmM>::empty() =~= seq![
        simple_via_parm(vb, host),
    ]);
}

#[verifier::rlimit(100)]
pub proof fn lemma_via_header_reads(s: Seq<u8>, q: int, nb: Seq<u8>, vb: Seq<u8>, host: Seq<u8>)
    requires
        0 <= q,
        nb.len() > 0,
        all_in_class(nb, Class::Token),
        kind_of(nb) == HeaderKind::Via,
        vb.len() > 0,
        all_in_class(vb, Class::Token),
        host.len() > 0,
        all_in_class(host, Class::Host),
        q + nb.len() + 11 + vb.len() + host.len() + 2 <= s.len(),
        s.subrange(q, q + nb.len()) == nb,
        s[q + nb.len()] == 0x3a,
        s[q + nb.len() + 1] == 0x20,
        s.subrange(q + nb.len() + 2, q + nb.len() + 5) == lit_sip_upper(),
        s[q + nb.len() + 5] == 0x2f,
        s.subrange(q + nb.len() + 6, q + nb.len() + 6 + vb.len()) == vb,
        s[q + nb.len() + 6 + vb.len()] == 0x2f,
        s.subrange(q + nb.len() + 7 + vb.len(), q + nb.len() + 10 + vb.len()) == lit_udp_upper(),
        s[q + nb.len() + 10 + vb.len()] == 0x20,
        s.subrange(q + nb.len() + 11 + vb.len(), q + nb.len() + 11 + vb.len() + host.len())
            == host,
        lit_at(s, q + nb.len() + 11 + vb.len() + host.len(), crlf()),
        q + nb.len() + 11 + vb.len() + host.len() + 2 == s.len() || !in_class(
            Class::Wsp,
            s[q + nb.len() + 11 + vb.len() + host.len() + 2],
        ),
    ensures
        header_p(s, q) == Some(
            (
                q + nb.len() + 11 + vb.len() + host.len() + 2,
                Some(HeaderM { name: nb, value: ValueM::Via(seq![simple_via_parm(vb, host)]) }),
            ),
        ),
{
    reveal(header_p);
    let a = q + nb.len();
    let p = a + 2;
    assert(s[q] == s.subrange(q, a)[0]);
    assert(!lit_at(s, q, crlf())) by {
        if lit_at(s, q, crlf()) {
            assert(s.subrange(q, q + 2)[0] == s[q]);
        }
    }
    assert forall|j: int| q <= j < a implies in_class(Class::Token, #[trigger] s[j]) by {
        assert(s[j] == s.subrange(q, a)[j - q]);
    }
    lemma_scan_exact(s, q, a, Class::Token);
    lemma_scan_exact(s, a, a, Class::Wsp);
    lemma_scan_exact(s, a + 1, p, Class::Wsp);
    assert(s[p] == s.subrange(p, p + 3)[0]);
    lemma_no_ws(s, p);
    assert(lws_end(s, a + 1) == Some(p));
    assert(hcolon_end(s, a) == Some(p));
    lemma_via_value_reads(s, p, vb, host);
}

/// A Via header of the shape `name: SIP/version/UDP host`, rendered with its
/// CRLF and followed by anything that does not fold the line, reads back as
/// the same header.
pub proof fn lemma_via_header_round_trip(nb: Seq<u8>, vb: Seq<u8>, host: Seq<u8>, rest: Seq<u8>)
    requires
        nb.len() > 0,
        all_in_class(nb, Class::Token),
        kind_of(nb) == HeaderKind::Via,
        vb.len() > 0,
        all_in_class(vb, Class::Token),
        host.len() > 0,
        all_in_class(host, Class::Host),
        rest.len() == 0 || !in_class(Class::Wsp, rest[0]),
    ensures
        header_p(
            text_bytes(header_text(HeaderM { name: nb, value: ValueM::Via(seq![simple_via_parm(vb, host)]) }))
                + crlf() + rest,
            0,
        ) == Some(
            (
                via_header_bytes(nb, vb, host).len() as int,
                Some(HeaderM { name: nb, value: ValueM::Via(seq![simple_via_parm(vb, host)]) }),
            ),
        ),
{
    lemma_via_header_text(nb, vb, host);
    lemma_via_layout(nb, vb, host, rest);
    lemma_via_header_reads(via_header_bytes(nb, vb, host) + rest, 0, nb, vb, host);
}

} // verus!

verus! {

/// A header line is no empty line.
pub proof fn lemma_header_line_not_empty(s: Seq<u8>, i: int)
    requires
        header_p(s, i) matches Some((_, Some(_))),
    ensures
        !lit_at(s, i, crlf()),
{
    reveal(header_p);
}

} // verus!

verus! {

// ---------------------------------------------------------------------------
// Text that is not UTF-8
// ---------------------------------------------------------------------------

/// The end of a header line's text from `j`: the first CRLF that is no fold
/// (no space or tab follows it), or the end of the input.
pub open spec fn line_end(s: Seq<u8>, j: int) -> int
    decreases s.len() - j,
{
    if j < 0 || j >= s.len() {
        s.len() as int
    } else if lit_at(s, j, crlf()) && !(j + 2 < s.len() && in_class(Class::Wsp, s[j + 2])) {
        j
    } else {
        line_end(s, j + 1)
    }
}

pub proof fn lemma_line_end_bounds(s: Seq<u8>, j: int)
    requires
        0 <= j <= s.len(),
    ensures
        j <= line_end(s, j) <= s.len(),
    decreases s.len() - j,
{
    if j < s.len() && !(lit_at(s, j, crlf()) && !(j + 2 < s.len() && in_class(
        Class::Wsp,
        s[j + 2],
    ))) {
        lemma_line_end_bounds(s, j + 1);
    }
}

/// Headers whose values are read as text: Via, To and From.
pub open spec fn text_kind(k: HeaderKind) -> bool {
    k == HeaderKind::Via || k == HeaderKind::To || k == HeaderKind::From
}

/// At a Via, To or From header line whose value, up to the end of the line,
/// is not UTF-8: the offset of the value.
pub open spec fn value_encoding_error(s: Seq<u8>, i: int) -> Option<int> {
    match token_end(s, i) {
        Some(n) => match hcolon_end(s, n) {
            Some(a) => if text_kind(kind_of(s.subrange(i, n))) && !valid_utf8(
                s.subrange(a, line_end(s, a)),
            ) {
                Some(a)
            } else {
                None
            },
            None => None,
        },
        None => None,
    }
}

fn line_end_at(s: &[u8], j: usize) -> (r: usize)
    requires
        j <= s.len(),
    ensures
        r == line_end(s@, j as int),
        j <= r <= s.len(),
{
    proof {
        lemma_line_end_bounds(s@, j as int);
    }
    let mut k = j;
    while k < s.len()
        invariant
            j <= k <= s.len(),
            line_end(s@, k as int) == line_end(s@, j as int),
        decreases s.len() - k,
    {
        let folded = s.len() - k > 2 && (s[k + 2] == 0x20 || s[k + 2] == 0x09);
        if crlf_at(s, k) && !folded {
            return k;
        }
        k += 1;
    }
    k
}

pub fn value_encoding_error_at(s: &[u8], i: usize) -> (r: Option<usize>)
    requires
        i <= s.len(),
    ensures
        same_end(r, value_encoding_error(s@, i as int)),
        r matches Some(a) ==> i < a <= s.len(),
{
    let n = match run_at(s, i, Class::Token) {
        Some(n) => n,
        None => return None,
    };
    let a = match hcolon_at(s, n) {
        Some(a) => a,
        None => return None,
    };
    let k = header_kind(slice_subrange(s, i, n));
    if !(k == HeaderKind::Via || k == HeaderKind::To || k == HeaderKind::From) {
        return None;
    }
    let e = line_end_at(s, a);
    match crate::parse_utils::utf8_str(slice_subrange(s, a, e)) {
        Some(_) => None,
        None => Some(a),
    }
}

} // verus!

verus! {

// ---------------------------------------------------------------------------
// Rendering to bytes
// ---------------------------------------------------------------------------

/// A value on the wire: text values in UTF-8, Call-ID and untyped values as
/// their bytes.
pub open spec fn value_bytes(v: ValueM) -> Seq<u8> {
    match v {
        ValueM::CallId(id) => id,
        ValueM::Raw(r) => r,
        _ => encode_utf8(value_text(v)),
    }
}

/// `name ": " value` on the wire.
pub open spec fn header_bytes(h: HeaderM) -> Seq<u8> {
    h.name + seq![0x3au8, 0x20u8] + value_bytes(h.value)
}

impl Value {
    /// Appends the value's bytes: never fails, byte values go out as they are.
    pub fn write_bytes(&self, out: &mut Vec<u8>)
        ensures
            final(out)@ == old(out)@ + value_bytes(self@),
    {
        match self {
            Value::CallId(id) => push_bytes(out, id.as_slice()),
            Value::Raw(r) => push_bytes(out, r.as_slice()),
            _ => {
                let mut t = String::new();
                let ok = self.write(&mut t);
                assert(ok);
                assert(t@ =~= value_text(self@));
                push_text_bytes(out, &t);
            },
        }
    }
}

impl Header {
    /// Appends `name: value` as bytes.
    pub fn write_bytes(&self, out: &mut Vec<u8>)
        ensures
            final(out)@ == old(out)@ + header_bytes(self@),
    {
        let ghost start = out@;
        push_bytes(out, self.name.as_bytes());
        let sep: [u8; 2] = [0x3a, 0x20];
        assert(sep@ =~= seq![0x3au8, 0x20u8]);
        push_bytes(out, sep.as_slice());
        self.value.write_bytes(out);
        assert(out@ =~= start + header_bytes(self@));
    }

    /// `name: value` as bytes.
    pub fn to_bytes(&self) -> (r: Vec<u8>)
        ensures
            r@ == header_bytes(self@),
    {
        let mut out: Vec<u8> = Vec::new();
        self.write_bytes(&mut out);
        assert(out@ =~= header_bytes(self@));
        out
    }
}

} // verus!
