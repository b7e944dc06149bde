//! A whole message: start-line, header section and a body framed by
//! Content-Length; and the received datagram it is read from.
use crate::address::all_in_class;
use crate::header::{header_p, value_encoding_error, HeaderM};
use crate::map::{
    declared_length, header_map_at, header_section_bytes,
    lemma_header_lines_read, lemma_map_bounds, map_p, HeaderMap,
};
use crate::parse_utils::{
    crlf, lit_at, push_bytes, rest_from, sip_version, utf8_str, Class, ErrorKind, ParseError,
    ParseResult,
};
use crate::start_line::{
    lemma_request_start_line_reads, simple_request_line, start_line_at, start_line_error,
    start_line_bytes, start_line_error_at, start_line_p, StartLine, StartLineM,
};
use crate::uri::lit_sip;
use vstd::prelude::*;
use vstd::slice::{slice_subrange, slice_to_vec};
use vstd::utf8::{decode_utf8, valid_utf8};

verus! {

broadcast use vstd::seq::group_seq_axioms;

/// A parsed message.
#[derive(Debug)]
pub struct Message {
    pub start_line: StartLine,
    pub headers: HeaderMap,
    pub body: Vec<u8>,
}

pub struct MessageM {
    pub start_line: StartLineM,
    pub headers: Seq<HeaderM>,
    pub body: Seq<u8>,
}

impl View for Message {
    type V = MessageM;

    open spec fn view(&self) -> MessageM {
        MessageM { start_line: self.start_line@, headers: self.headers@, body: self.body@ }
    }
}

/// message = start-line header-section body, the body exactly as long as
/// declared; or the error: a bad start-line where it fails, the header section's error
/// (a text value that is not UTF-8, or a bad header line), or a body shorter
/// than declared at the body's offset.
pub open spec fn message_p(s: Seq<u8>) -> Result<(int, MessageM), ParseError> {
    match start_line_p(s, 0) {
        Some((a, start_line)) => match map_p(s, a) {
            Ok((b, headers)) => {
                let n = declared_length(headers);
                if b + n <= s.len() {
                    Ok((b + n, MessageM { start_line, headers, body: s.subrange(b, b + n) }))
                } else {
                    Err(ParseError { kind: ErrorKind::Truncated, offset: b as usize })
                }
            },
            Err((k, o)) => Err(ParseError { kind: k, offset: o as usize }),
        },
        None => Err(ParseError { kind: ErrorKind::StartLine, offset: start_line_error(s) as usize }),
    }
}

/// The body of a parsed message is exactly as long as its Content-Length
/// (0 when there is none).
pub proof fn lemma_body_length(s: Seq<u8>, e: int, m: MessageM)
    requires
        message_p(s) == Ok::<(int, MessageM), ParseError>((e, m)),
    ensures
        m.body.len() == declared_length(m.headers),
{
    let (a, sl) = start_line_p(s, 0)->Some_0;
    lemma_map_bounds(s, a);
}

impl Message {
    /// Parses a message at the start of `src`; the remainder follows the body.
    pub fn parse(src: &[u8]) -> (r: ParseResult<Message>)
        ensures
            match message_p(src@) {
                Ok((e, m)) => r matches Ok((rest, v)) && rest@ == src@.subrange(
                    e,
                    src@.len() as int,
                ) && v@ == m && v.headers.wf(),
                Err(err) => r == Err::<(&[u8], Message), ParseError>(err),
            },
    {
        let (a, start_line) = match start_line_at(src, 0) {
            Some(x) => x,
            None => return Err(
                ParseError { kind: ErrorKind::StartLine, offset: start_line_error_at(src) },
            ),
        };
        let (b, headers) = match header_map_at(src, a) {
            Ok(x) => x,
            Err((k, o)) => return Err(ParseError { kind: k, offset: o }),
        };
        let n = match headers.content_length() {
            Some(n) => n,
            None => 0,
        };
        if n > src.len() - b {
            return Err(ParseError { kind: ErrorKind::Truncated, offset: b });
        }
        let body = slice_to_vec(slice_subrange(src, b, b + n));
        Ok((rest_from(src, b + n), Message { start_line, headers, body }))
    }
}

/// One received datagram, owned.
pub struct Raw {
    data: Vec<u8>,
}

impl View for Raw {
    type V = Seq<u8>;

    closed spec fn view(&self) -> Seq<u8> {
        self.data@
    }
}

impl Raw {
    /// Copies the datagram.
    pub fn new(data: &[u8]) -> (r: Raw)
        ensures
            r@ == data@,
    {
        Raw { data: slice_to_vec(data) }
    }

    /// The datagram's bytes.
    pub fn as_bytes(&self) -> (r: &[u8])
        ensures
            r@ == self@,
    {
        self.data.as_slice()
    }

    /// The number of bytes.
    pub fn len(&self) -> (r: usize)
        ensures
            r == self@.len(),
    {
        self.data.len()
    }

    /// The datagram as text, if it is valid UTF-8.
    pub fn try_as_str(&self) -> (r: Result<&str, ParseError>)
        ensures
            match r {
                Ok(t) => valid_utf8(self@) && t@ == decode_utf8(self@),
                Err(e) => !valid_utf8(self@) && e.kind == ErrorKind::Encoding && e.offset == 0,
            },
    {
        match utf8_str(self.data.as_slice()) {
            Some(t) => Ok(t),
            None => Err(ParseError { kind: ErrorKind::Encoding, offset: 0 }),
        }
    }
}

} // verus!

verus! {

/// The message on the wire: start-line, CRLF, header section, body.  Text
/// goes out in UTF-8, and byte values (Call-ID, untyped header values, the
/// reason phrase) as they are.
pub open spec fn message_bytes(m: MessageM) -> Seq<u8> {
    start_line_bytes(m.start_line) + crlf() + header_section_bytes(m.headers) + m.body
}

impl Message {
    /// The message as bytes for the wire; never fails.
    pub fn to_bytes(&self) -> (r: Vec<u8>)
        ensures
            r@ == message_bytes(self@),
    {
        let mut out = self.start_line.to_bytes();
        let ghost start = out@;
        let crlf_bytes: [u8; 2] = [0x0d, 0x0a];
        assert(crlf_bytes@ =~= crlf());
        push_bytes(&mut out, crlf_bytes.as_slice());
        self.headers.write_bytes(&mut out);
        push_bytes(&mut out, self.body.as_slice());
        assert(out@ =~= message_bytes(self@));
        out
    }
}

} // verus!

verus! {

/// A request made of the request-line `METHOD sip:user@host SIP/2.0`, header
/// lines that each read back as the headers `hs`, the empty line, and a body
/// exactly as long as they declare reads back as that request: the same
/// start-line, the same headers in order, and the body bytes.
pub proof fn lemma_request_reads(
    s: Seq<u8>,
    mb: Seq<u8>,
    user: Seq<u8>,
    host: Seq<u8>,
    ps: Seq<int>,
    hs: Seq<HeaderM>,
)
    requires
        mb.len() > 0,
        all_in_class(mb, Class::Token),
        user.len() > 0,
        all_in_class(user, Class::User),
        all_in_class(host, Class::Host),
        s.len() >= mb.len() + 5 + user.len() + 1 + host.len() + 10,
        s.subrange(0, mb.len() as int) == mb,
        s[mb.len() as int] == 0x20,
        s.subrange(mb.len() as int + 1, mb.len() as int + 5) == lit_sip(),
        s.subrange(mb.len() as int + 5, mb.len() as int + 5 + user.len()) == user,
        s[mb.len() as int + 5 + user.len()] == 0x40,
        s.subrange(mb.len() as int + 6 + user.len(), mb.len() as int + 6 + user.len() + host.len())
            == host,
        s[mb.len() as int + 6 + user.len() + host.len()] == 0x20,
        s.subrange(
            mb.len() as int + 7 + user.len() + host.len(),
            mb.len() as int + 14 + user.len() + host.len(),
        ) == sip_version(),
        lit_at(s, mb.len() as int + 14 + user.len() + host.len(), crlf()),
        ps.len() == hs.len() + 1,
        ps[0] == mb.len() as int + 16 + user.len() + host.len(),
        forall|j: int| 0 <= j < hs.len() ==> #[trigger] ps[j] < ps[j + 1] <= s.len(),
        forall|j: int|
            0 <= j < hs.len() ==> header_p(s, #[trigger] ps[j]) == Some(
                (ps[j + 1], Some(hs[j])),
            ) && value_encoding_error(s, ps[j]) is None,
        lit_at(s, ps.last(), crlf()),
        ps.last() + 2 + declared_length(hs) == s.len(),
    ensures
        message_p(s) == Ok::<(int, MessageM), ParseError>(
            (
                s.len() as int,
                MessageM {
                    start_line: StartLineM::Request(simple_request_line(mb, user, host)),
                    headers: hs,
                    body: s.subrange(ps.last() + 2, s.len() as int),
                },
            ),
        ),
{
    lemma_request_start_line_reads(s, mb, user, host);
    lemma_header_lines_read(s, ps, hs);
}

} // verus!
