//! The first line of a message: a request-line or a status-line.
use crate::address::{
    all_in_class, ends_host, lemma_simple_sip_uri_text, lemma_sip_uri_reads, lemma_text_bytes_ascii,
    lemma_text_bytes_concat, lemma_user_host, simple_sip_uri, text_bytes,
};
use crate::method::{
    lit_invite, method_at, method_of, method_p, method_text, status_code_at, status_code_p, Method, MethodM,
    StatusCode,
};
use crate::parse_utils::{
    byte_at, byte_is, crlf, crlf_at, finish, first_of, lit_at, parsed, same_end, sip_version,
    sip_version_at, slice_parsed, digit_char, digit_str, push_lit, text_of, ParseResult,
    ascii_chars, in_class, lemma_scan_exact, Class, decimal, push_decimal, ErrorKind, ParseError,
    push_bytes, push_text_bytes,
};
use crate::uri::{lit_sip, uri_at, uri_p, uri_text, Uri, UriM};
use vstd::prelude::*;
use vstd::slice::{slice_subrange, slice_to_vec};
use vstd::string::StringExecFns;
use vstd::utf8::{decode_utf8, encode_utf8, valid_utf8};

verus! {

broadcast use vstd::seq::group_seq_axioms;

/// Request-Line = Method SP Request-URI SP SIP-Version CRLF
#[derive(Debug, Clone, PartialEq, Eq)]
pub struct RequestLine {
    pub method: Method,
    pub uri: Uri,
}

pub struct RequestLineM {
    pub method: MethodM,
    pub uri: UriM,
}

impl View for RequestLine {
    type V = RequestLineM;

    open spec fn view(&self) -> RequestLineM {
        RequestLineM { method: self.method@, uri: self.uri@ }
    }
}

/// Status-Line = SIP-Version SP Status-Code SP Reason-Phrase CRLF
#[derive(Debug, Clone, PartialEq, Eq)]
pub struct StatusLine {
    pub status_code: StatusCode,
    pub reason_phrase: Vec<u8>,
}

pub struct StatusLineM {
    pub status_code: u16,
    pub reason_phrase: Seq<u8>,
}

impl View for StatusLine {
    type V = StatusLineM;

    open spec fn view(&self) -> StatusLineM {
        StatusLineM { status_code: self.status_code.value(), reason_phrase: self.reason_phrase@ }
    }
}

/// The first line of a message.
#[derive(Debug, Clone, PartialEq, Eq)]
pub enum StartLine {
    Request(RequestLine),
    Status(StatusLine),
}

pub enum StartLineM {
    Request(RequestLineM),
    Status(StatusLineM),
}

impl View for StartLine {
    type V = StartLineM;

    open spec fn view(&self) -> StartLineM {
        match self {
            StartLine::Request(r) => StartLineM::Request(r@),
            StartLine::Status(s) => StartLineM::Status(s@),
        }
    }
}

/// Request-Line; the version must be exactly `SIP/2.0`.
pub open spec fn request_line_p(s: Seq<u8>, i: int) -> Option<(int, RequestLineM)> {
    match method_p(s, i) {
        Some((a, method)) => if byte_at(s, a, 0x20) {
            match uri_p(s, a + 1) {
                Some((b, uri)) => if byte_at(s, b, 0x20) && lit_at(s, b + 1, sip_version())
                    && lit_at(s, b + 8, crlf()) {
                    Some((b + 10, RequestLineM { method, uri }))
                } else {
                    None
                },
                None => None,
            }
        } else {
            None
        },
        None => None,
    }
}

/// The first CRLF at or after `j`.
pub open spec fn find_crlf(s: Seq<u8>, j: int) -> Option<int>
    decreases s.len() - j,
{
    if j < 0 || j >= s.len() {
        None
    } else if lit_at(s, j, crlf()) {
        Some(j)
    } else {
        find_crlf(s, j + 1)
    }
}

/// Status-Line = SIP-Version SP Status-Code SP Reason-Phrase CRLF, the space
/// after the code read with it; the reason phrase is everything up to the
/// first CRLF.
pub open spec fn status_line_p(s: Seq<u8>, i: int) -> Option<(int, StatusLineM)> {
    if lit_at(s, i, sip_version()) && byte_at(s, i + 7, 0x20) {
        match status_code_p(s, i + 8) {
            Some((a, code)) => match find_crlf(s, a) {
                Some(c) => Some(
                    (c + 2, StatusLineM { status_code: code, reason_phrase: s.subrange(a, c) }),
                ),
                None => None,
            },
            None => None,
        }
    } else {
        None
    }
}

/// A status-line if one is there, else a request-line.
#[verifier::opaque]
pub open spec fn start_line_p(s: Seq<u8>, i: int) -> Option<(int, StartLineM)> {
    first_of(
        match status_line_p(s, i) {
            Some((e, l)) => Some((e, StartLineM::Status(l))),
            None => None,
        },
        match request_line_p(s, i) {
            Some((e, l)) => Some((e, StartLineM::Request(l))),
            None => None,
        },
    )
}

pub fn request_line_at(s: &[u8], i: usize) -> (r: Option<(usize, RequestLine)>)
    requires
        i <= s.len(),
    ensures
        parsed(r, request_line_p(s@, i as int), i as int, s@.len() as int),
{
    let (a, method) = match method_at(s, i) {
        Some(x) => x,
        None => return None,
    };
    if !byte_is(s, a, 0x20) {
        return None;
    }
    let (b, uri) = match uri_at(s, a + 1) {
        Some(x) => x,
        None => return None,
    };
    if byte_is(s, b, 0x20) && sip_version_at(s, b + 1) && crlf_at(s, b + 8) {
        Some((b + 10, RequestLine { method, uri }))
    } else {
        None
    }
}

pub proof fn lemma_find_crlf(s: Seq<u8>, j: int)
    requires
        0 <= j,
    ensures
        find_crlf(s, j) matches Some(c) ==> j <= c && c + 2 <= s.len() && lit_at(s, c, crlf()),
    decreases s.len() - j,
{
    if 0 <= j < s.len() && !lit_at(s, j, crlf()) {
        lemma_find_crlf(s, j + 1);
    }
}

fn find_crlf_at(s: &[u8], j: usize) -> (r: Option<usize>)
    requires
        j <= s.len(),
    ensures
        same_end(r, find_crlf(s@, j as int)),
        r matches Some(c) ==> j <= c && c + 2 <= s.len(),
{
    proof {
        lemma_find_crlf(s@, j as int);
    }
    let mut k = j;
    while k < s.len()
        invariant
            j <= k <= s.len(),
            find_crlf(s@, k as int) == find_crlf(s@, j as int),
        decreases s.len() - k,
    {
        if crlf_at(s, k) {
            return Some(k);
        }
        k += 1;
    }
    None
}

pub fn status_line_at(s: &[u8], i: usize) -> (r: Option<(usize, StatusLine)>)
    requires
        i <= s.len(),
    ensures
        parsed(r, status_line_p(s@, i as int), i as int, s@.len() as int),
{
    if !sip_version_at(s, i) || !byte_is(s, i + 7, 0x20) {
        return None;
    }
    let (a, status_code) = match status_code_at(s, i + 8) {
        Some(x) => x,
        None => return None,
    };
    match find_crlf_at(s, a) {
        Some(c) => {
            let reason_phrase = slice_to_vec(slice_subrange(s, a, c));
            Some((c + 2, StatusLine { status_code, reason_phrase }))
        },
        None => None,
    }
}

pub fn start_line_at(s: &[u8], i: usize) -> (r: Option<(usize, StartLine)>)
    requires
        i <= s.len(),
    ensures
        parsed(r, start_line_p(s@, i as int), i as int, s@.len() as int),
{
    proof {
        reveal(start_line_p);
    }
    if let Some((e, l)) = status_line_at(s, i) {
        return Some((e, StartLine::Status(l)));
    }
    match request_line_at(s, i) {
        Some((e, l)) => Some((e, StartLine::Request(l))),
        None => None,
    }
}

impl RequestLine {
    pub fn parse(src: &[u8]) -> (r: ParseResult<RequestLine>)
        ensures
            slice_parsed(src@, request_line_p(src@, 0), r),
    {
        let m = request_line_at(src, 0);
        finish(src, m)
    }
}

impl StatusLine {
    pub fn parse(src: &[u8]) -> (r: ParseResult<StatusLine>)
        ensures
            slice_parsed(src@, status_line_p(src@, 0), r),
    {
        let m = status_line_at(src, 0);
        finish(src, m)
    }
}

impl StartLine {
    /// A status-line if the input holds one, else a request-line; on failure
    /// the error is at the first element of the line that is missing.
    pub fn parse(src: &[u8]) -> (r: ParseResult<StartLine>)
        ensures
            slice_parsed(src@, start_line_p(src@, 0), r),
            start_line_p(src@, 0) is None ==> (r matches Err(e) && e.kind == ErrorKind::StartLine
                && e.offset as int == start_line_error(src@)),
    {
        match start_line_at(src, 0) {
            Some((e, l)) => Ok((crate::parse_utils::rest_from(src, e), l)),
            None => Err(ParseError { kind: ErrorKind::StartLine, offset: start_line_error_at(src) }),
        }
    }

    pub fn is_request(&self) -> (r: bool)
        ensures
            r == (self@ is Request),
    {
        matches!(self, StartLine::Request(_))
    }

    pub fn is_status(&self) -> (r: bool)
        ensures
            r == (self@ is Status),
    {
        matches!(self, StartLine::Status(_))
    }
}

} // verus!

verus! {

/// `SIP/2.0`
pub open spec fn version_text() -> Seq<char> {
    seq!['S', 'I', 'P', '/', '2', '.', '0']
}

/// `Method SP URI SP SIP/2.0`
pub open spec fn request_line_text(l: RequestLineM) -> Seq<char> {
    method_text(l.method) + seq![' '] + uri_text(l.uri) + seq![' '] + version_text()
}

/// The status code in three digits (leading zeros kept), or in full when it
/// is larger.
pub open spec fn code_text(c: u16) -> Seq<char> {
    if c < 1000 {
        seq![
            digit_char((c as nat / 100) % 10),
            digit_char((c as nat / 10) % 10),
            digit_char(c as nat % 10),
        ]
    } else {
        decimal(c as nat)
    }
}

/// `SIP/2.0 SP code SP reason`, the reason read as UTF-8.
pub open spec fn status_line_text(l: StatusLineM) -> Seq<char> {
    version_text() + seq![' '] + code_text(l.status_code) + seq![' '] + decode_utf8(
        l.reason_phrase,
    )
}

pub open spec fn start_line_text(l: StartLineM) -> Seq<char> {
    match l {
        StartLineM::Request(r) => request_line_text(r),
        StartLineM::Status(s) => status_line_text(s),
    }
}

impl RequestLine {
    /// The request-line without its CRLF.
    pub fn to_string(&self) -> (r: String)
        ensures
            r@ == request_line_text(self@),
    {
        let mut out = self.method.to_string();
        push_lit(&mut out, " ");
        proof {
            reveal_strlit(" ");
        }
        self.uri.write(&mut out);
        push_lit(&mut out, " SIP/2.0");
        proof {
            reveal_strlit(" SIP/2.0");
        }
        assert(out@ =~= request_line_text(self@));
        out
    }
}

impl StatusLine {
    /// `SIP/2.0 SP code SP`, the text before the reason phrase.
    pub fn write_head(&self, out: &mut String)
        ensures
            final(out)@ == old(out)@ + status_head_text(self@),
    {
        let ghost start = out@;
        push_lit(out, "SIP/2.0 ");
        proof {
            reveal_strlit("SIP/2.0 ");
        }
        let c = self.status_code.as_u16() as u64;
        if c < 1000 {
            out.append(digit_str((c / 100) % 10));
            out.append(digit_str((c / 10) % 10));
            out.append(digit_str(c % 10));
        } else {
            push_decimal(out, c);
        }
        push_lit(out, " ");
        proof {
            reveal_strlit(" ");
        }
        assert(out@ =~= start + status_head_text(self@));
    }

    /// The status-line without its CRLF; a reason phrase that is not UTF-8
    /// is left out (`to_bytes` keeps it as it is).
    pub fn to_string(&self) -> (r: String)
        ensures
            valid_utf8(self.reason_phrase@) ==> r@ == status_line_text(self@),
    {
        let mut out = String::new();
        self.write_head(&mut out);
        let n = self.reason_phrase.len();
        assert(self.reason_phrase@.subrange(0, n as int) =~= self.reason_phrase@);
        if let Some(t) = text_of(self.reason_phrase.as_slice(), 0, n) {
            push_lit(&mut out, t.as_str());
        }
        assert(valid_utf8(self.reason_phrase@) ==> out@ =~= status_line_text(self@));
        out
    }
}

impl StartLine {
    pub fn to_string(&self) -> (r: String)
        ensures
            self@ is Request ==> r@ == start_line_text(self@),
            self matches StartLine::Status(s) && valid_utf8(s.reason_phrase@) ==> r@
                == start_line_text(self@),
    {
        match self {
            StartLine::Request(l) => l.to_string(),
            StartLine::Status(l) => l.to_string(),
        }
    }
}

} // verus!

verus! {

/// The request-line `METHOD sip:user@host SIP/2.0`.
pub open spec fn simple_request_line(mb: Seq<u8>, user: Seq<u8>, host: Seq<u8>) -> RequestLineM {
    RequestLineM { method: method_of(mb), uri: UriM::Sip(simple_sip_uri(user, host)) }
}

/// The bytes `METHOD SP "sip:" user "@" host SP "SIP/2.0" CRLF`.
#[verifier::opaque]
pub open spec fn simple_request_line_bytes(mb: Seq<u8>, user: Seq<u8>, host: Seq<u8>) -> Seq<u8> {
    mb + seq![0x20u8] + lit_sip() + user + seq![0x40u8] + host + seq![0x20u8] + sip_version()
        + crlf()
}

proof fn lemma_simple_request_line_text(mb: Seq<u8>, user: Seq<u8>, host: Seq<u8>)
    requires
        all_in_class(mb, Class::Token),
    ensures
        text_bytes(request_line_text(simple_request_line(mb, user, host))) + crlf()
            == simple_request_line_bytes(mb, user, host),
{
    reveal(simple_request_line_bytes);
    let l = simple_request_line(mb, user, host);
    let mt = method_text(method_of(mb));
    let ut = uri_text(UriM::Sip(simple_sip_uri(user, host)));
    if mb == lit_invite() {
        lemma_text_bytes_ascii(lit_invite());
    } else {
        lemma_text_bytes_ascii(mb);
    }
    assert(text_bytes(mt) == mb);
    lemma_simple_sip_uri_text(user, host);
    assert(request_line_text(l) =~= mt + seq![' '] + ut + seq![' '] + version_text());
    lemma_text_bytes_concat(mt, seq![' ']);
    lemma_text_bytes_concat(mt + seq![' '], ut);
    lemma_text_bytes_concat(mt + seq![' '] + ut, seq![' ']);
    lemma_text_bytes_concat(mt + seq![' '] + ut + seq![' '], version_text());
    assert(text_bytes(seq![' ']) =~= seq![0x20u8]);
    assert(text_bytes(version_text()) =~= sip_version());
    assert(text_bytes(request_line_text(l)) + crlf() =~= simple_request_line_bytes(
        mb,
        user,
        host,
    ));
}

/// The request-line `METHOD sip:user@host SIP/2.0` CRLF at the start of `s`,
/// whatever follows it, reads as that request-line.
pub proof fn lemma_request_line_reads(s: Seq<u8>, mb: Seq<u8>, user: Seq<u8>, host: Seq<u8>)
    requires
        mb.len() > 0,
        all_in_class(mb, Class::Token),
        user.len() > 0,
        all_in_class(user, Class::User),
        all_in_class(host, Class::Host),
        s.len() >= mb.len() + 5 + user.len() + 1 + host.len() + 10,
        s.subrange(0, mb.len() as int) == mb,
        s[mb.len() as int] == 0x20,
        s.subrange(mb.len() as int + 1, mb.len() as int + 5) == lit_sip(),
        s.subrange(mb.len() as int + 5, mb.len() as int + 5 + user.len()) == user,
        s[mb.len() as int + 5 + user.len()] == 0x40,
        s.subrange(mb.len() as int + 6 + user.len(), mb.len() as int + 6 + user.len() + host.len()) == host,
        s[mb.len() as int + 6 + user.len() + host.len()] == 0x20,
        s.subrange(mb.len() as int + 7 + user.len() + host.len(), mb.len() as int + 14 + user.len() + host.len())
            == sip_version(),
        lit_at(s, mb.len() as int + 14 + user.len() + host.len(), crlf()),
    ensures
        request_line_p(s, 0) == Some(
            (mb.len() as int + 16 + user.len() + host.len(), simple_request_line(mb, user, host)),
        ),
{
    let a = mb.len() as int;
    let h = a + 6 + user.len() + host.len();
    assert forall|k: int| 0 <= k < a implies in_class(Class::Token, #[trigger] s[k]) by {
        assert(s[k] == s.subrange(0, a)[k]);
    }
    lemma_scan_exact(s, 0, a, Class::Token);
    assert(method_p(s, 0) == Some((a, method_of(mb))));
    assert(ends_host(s[h]));
    lemma_sip_uri_reads(s, a + 1, user, host);
    assert(lit_at(s, h + 1, sip_version()));
    assert(lit_at(s, h + 8, crlf()));
}

proof fn lemma_request_line_bytes_head(mb: Seq<u8>, user: Seq<u8>, host: Seq<u8>)
    ensures
        ({
            let s = simple_request_line_bytes(mb, user, host);
            let a = mb.len() as int;
            &&& s.len() == a + 5 + user.len() + 1 + host.len() + 10
            &&& s.subrange(0, a) == mb
            &&& s[a] == 0x20
            &&& s.subrange(a + 1, a + 5) == lit_sip()
        }),
{
    reveal(simple_request_line_bytes);
    let s = simple_request_line_bytes(mb, user, host);
    let a = mb.len() as int;
    assert(s.subrange(0, a) =~= mb);
    assert(s.subrange(a + 1, a + 5) =~= lit_sip());
}

proof fn lemma_request_line_bytes_uri(mb: Seq<u8>, user: Seq<u8>, host: Seq<u8>)
    ensures
        ({
            let s = simple_request_line_bytes(mb, user, host);
            let u0 = mb.len() as int + 5;
            let ua = u0 + user.len();
            &&& s.subrange(u0, ua) == user
            &&& s[ua] == 0x40
            &&& s.subrange(ua + 1, ua + 1 + host.len()) == host
        }),
{
    reveal(simple_request_line_bytes);
    let s = simple_request_line_bytes(mb, user, host);
    let u0 = mb.len() as int + 5;
    let ua = u0 + user.len();
    assert(s.subrange(u0, ua) =~= user);
    assert(s.subrange(ua + 1, ua + 1 + host.len()) =~= host);
}

proof fn lemma_request_line_bytes_tail(mb: Seq<u8>, user: Seq<u8>, host: Seq<u8>)
    ensures
        ({
            let s = simple_request_line_bytes(mb, user, host);
            let h = mb.len() as int + 6 + user.len() + host.len();
            &&& s[h] == 0x20
            &&& s.subrange(h + 1, h + 8) == sip_version()
            &&& s.subrange(h + 8, s.len() as int) == crlf()
        }),
{
    reveal(simple_request_line_bytes);
    let s = simple_request_line_bytes(mb, user, host);
    let h = mb.len() as int + 6 + user.len() + host.len();
    assert(s.subrange(h + 1, h + 8) =~= sip_version());
    assert(s.subrange(h + 8, s.len() as int) =~= crlf());
}

proof fn lemma_simple_request_line_parse(mb: Seq<u8>, user: Seq<u8>, host: Seq<u8>)
    requires
        mb.len() > 0,
        all_in_class(mb, Class::Token),
        user.len() > 0,
        all_in_class(user, Class::User),
        all_in_class(host, Class::Host),
    ensures
        request_line_p(simple_request_line_bytes(mb, user, host), 0) == Some(
            (
                simple_request_line_bytes(mb, user, host).len() as int,
                simple_request_line(mb, user, host),
            ),
        ),
{
    lemma_request_line_bytes_head(mb, user, host);
    lemma_request_line_bytes_uri(mb, user, host);
    lemma_request_line_bytes_tail(mb, user, host);
    let s = simple_request_line_bytes(mb, user, host);
    let h = mb.len() as int + 6 + user.len() + host.len();
    assert(lit_at(s, h + 8, crlf()));
    lemma_request_line_reads(s, mb, user, host);
}

/// Rendering a request-line of the shape `METHOD sip:user@host SIP/2.0` and
/// parsing it, with its CRLF, gives the same request-line back.
pub proof fn lemma_simple_request_line_round_trip(mb: Seq<u8>, user: Seq<u8>, host: Seq<u8>)
    requires
        mb.len() > 0,
        all_in_class(mb, Class::Token),
        user.len() > 0,
        all_in_class(user, Class::User),
        all_in_class(host, Class::Host),
    ensures
        request_line_p(
            text_bytes(request_line_text(simple_request_line(mb, user, host))) + crlf(),
            0,
        ) == Some(
            (
                (text_bytes(request_line_text(simple_request_line(mb, user, host))) + crlf()).len() as int,
                simple_request_line(mb, user, host),
            ),
        ),
{
    lemma_simple_request_line_text(mb, user, host);
    lemma_simple_request_line_parse(mb, user, host);
}

} // verus!

verus! {

/// A line that starts with a method token and a space is no status-line.
pub proof fn lemma_not_status_line(s: Seq<u8>, mb: Seq<u8>)
    requires
        mb.len() > 0,
        all_in_class(mb, Class::Token),
        mb.len() < s.len(),
        s.subrange(0, mb.len() as int) == mb,
        s[mb.len() as int] == 0x20,
    ensures
        status_line_p(s, 0) is None,
{
    if lit_at(s, 0, sip_version()) {
        let v = sip_version();
        let a = mb.len() as int;
        assert(s.subrange(0, 7) == v);
        if a > 3 {
            assert(s[3] == s.subrange(0, a)[3]);
            assert(s[3] == s.subrange(0, 7)[3]);
            assert(in_class(Class::Token, mb[3]));
        } else {
            assert(s[a] == s.subrange(0, 7)[a]);
        }
    }
}

/// A start-line that is the request-line `METHOD sip:user@host SIP/2.0`.
pub proof fn lemma_request_start_line_reads(s: Seq<u8>, mb: Seq<u8>, user: Seq<u8>, host: Seq<u8>)
    requires
        mb.len() > 0,
        all_in_class(mb, Class::Token),
        user.len() > 0,
        all_in_class(user, Class::User),
        all_in_class(host, Class::Host),
        s.len() >= mb.len() + 5 + user.len() + 1 + host.len() + 10,
        s.subrange(0, mb.len() as int) == mb,
        s[mb.len() as int] == 0x20,
        s.subrange(mb.len() as int + 1, mb.len() as int + 5) == lit_sip(),
        s.subrange(mb.len() as int + 5, mb.len() as int + 5 + user.len()) == user,
        s[mb.len() as int + 5 + user.len()] == 0x40,
        s.subrange(mb.len() as int + 6 + user.len(), mb.len() as int + 6 + user.len() + host.len()) == host,
        s[mb.len() as int + 6 + user.len() + host.len()] == 0x20,
        s.subrange(mb.len() as int + 7 + user.len() + host.len(), mb.len() as int + 14 + user.len() + host.len())
            == sip_version(),
        lit_at(s, mb.len() as int + 14 + user.len() + host.len(), crlf()),
    ensures
        start_line_p(s, 0) == Some(
            (
                mb.len() as int + 16 + user.len() + host.len(),
                StartLineM::Request(simple_request_line(mb, user, host)),
            ),
        ),
{
    reveal(start_line_p);
    lemma_not_status_line(s, mb);
    lemma_request_line_reads(s, mb, user, host);
}

} // verus!

verus! {

/// Where a request-line fails: the first of its elements that is missing
/// (method, space, URI, space, version, CRLF).
pub open spec fn request_line_error(s: Seq<u8>) -> int {
    match method_p(s, 0) {
        None => 0,
        Some((a, _)) => if !byte_at(s, a, 0x20) {
            a
        } else {
            match uri_p(s, a + 1) {
                None => a + 1,
                Some((b, _)) => if !byte_at(s, b, 0x20) {
                    b
                } else if !lit_at(s, b + 1, sip_version()) {
                    b + 1
                } else {
                    b + 8
                },
            }
        },
    }
}

/// Where a status-line that begins with `SIP/2.0` fails: the space, the
/// status code with its space, or the CRLF after the reason phrase.
pub open spec fn status_line_error(s: Seq<u8>) -> int {
    if !byte_at(s, 7, 0x20) {
        7
    } else {
        match status_code_p(s, 8) {
            None => 8,
            Some((a, _)) => a,
        }
    }
}

/// Where the start-line fails: in the status-line when the input begins
/// with `SIP/2.0`, else in the request-line.
pub open spec fn start_line_error(s: Seq<u8>) -> int {
    if lit_at(s, 0, sip_version()) {
        status_line_error(s)
    } else {
        request_line_error(s)
    }
}

pub fn start_line_error_at(s: &[u8]) -> (r: usize)
    ensures
        r as int == start_line_error(s@),
        r <= s.len(),
{
    if sip_version_at(s, 0) {
        if !byte_is(s, 7, 0x20) {
            return 7;
        }
        match status_code_at(s, 8) {
            None => 8,
            Some((a, _)) => a,
        }
    } else {
        match method_at(s, 0) {
            None => 0,
            Some((a, _)) => if !byte_is(s, a, 0x20) {
                a
            } else {
                match uri_at(s, a + 1) {
                    None => a + 1,
                    Some((b, _)) => if !byte_is(s, b, 0x20) {
                        b
                    } else if !sip_version_at(s, b + 1) {
                        b + 1
                    } else {
                        b + 8
                    },
                }
            },
        }
    }
}

} // verus!

verus! {

/// `SIP/2.0 SP code SP`
pub open spec fn status_head_text(l: StatusLineM) -> Seq<char> {
    version_text() + seq![' '] + code_text(l.status_code) + seq![' ']
}

/// The start-line on the wire, without its CRLF: text in UTF-8, the reason
/// phrase as its bytes.
pub open spec fn start_line_bytes(l: StartLineM) -> Seq<u8> {
    match l {
        StartLineM::Request(r) => encode_utf8(request_line_text(r)),
        StartLineM::Status(s) => encode_utf8(status_head_text(s)) + s.reason_phrase,
    }
}

impl StartLine {
    /// The start-line as bytes, without its CRLF; never fails.
    pub fn to_bytes(&self) -> (r: Vec<u8>)
        ensures
            r@ == start_line_bytes(self@),
    {
        let mut out: Vec<u8> = Vec::new();
        match self {
            StartLine::Request(l) => {
                let t = l.to_string();
                push_text_bytes(&mut out, &t);
            },
            StartLine::Status(l) => {
                let mut head = String::new();
                l.write_head(&mut head);
                assert(head@ =~= status_head_text(l@));
                push_text_bytes(&mut out, &head);
                push_bytes(&mut out, l.reason_phrase.as_slice());
            },
        }
        assert(out@ =~= start_line_bytes(self@));
        out
    }
}

} // verus!
