//! Request methods and status codes.
use crate::parse_utils::{
    ascii_chars, ascii_text, byte_at, byte_is, digits_value, is_digit, lemma_scan, lit_at,
    number_at, number_end, rest_from, run_at, starts_at, token_end, Class, ErrorKind, ParseError,
    ParseResult,
};
use vstd::prelude::*;

verus! {

/// A request method: `INVITE`, or any other token, kept as written.
#[derive(Debug, Clone, PartialEq, Eq)]
pub enum Method {
    Invite,
    Unknown(String),
}

/// What a `Method` stands for.
pub enum MethodM {
    Invite,
    Unknown(Seq<char>),
}

impl View for Method {
    type V = MethodM;

    open spec fn view(&self) -> MethodM {
        match self {
            Method::Invite => MethodM::Invite,
            Method::Unknown(s) => MethodM::Unknown(s@),
        }
    }
}

/// `INVITE`
pub open spec fn lit_invite() -> Seq<u8> {
    seq![0x49u8, 0x4eu8, 0x56u8, 0x49u8, 0x54u8, 0x45u8]
}

/// Method = token; `INVITE` is the one method told apart.
pub open spec fn method_p(s: Seq<u8>, i: int) -> Option<(int, MethodM)> {
    match token_end(s, i) {
        Some(e) => Some(
            (
                e,
                if s.subrange(i, e) == lit_invite() {
                    MethodM::Invite
                } else {
                    MethodM::Unknown(ascii_chars(s.subrange(i, e)))
                },
            ),
        ),
        None => None,
    }
}

/// The method that a token names.
pub open spec fn method_of(mb: Seq<u8>) -> MethodM {
    if mb == lit_invite() {
        MethodM::Invite
    } else {
        MethodM::Unknown(ascii_chars(mb))
    }
}

/// The text of a method on the wire.
pub open spec fn method_text(m: MethodM) -> Seq<char> {
    match m {
        MethodM::Invite => ascii_chars(lit_invite()),
        MethodM::Unknown(t) => t,
    }
}

pub fn method_at(s: &[u8], i: usize) -> (r: Option<(usize, Method)>)
    requires
        i <= s.len(),
    ensures
        match r {
            Some((e, m)) => method_p(s@, i as int) == Some((e as int, m@)) && i < e <= s.len(),
            None => method_p(s@, i as int) is None,
        },
{
    match run_at(s, i, Class::Token) {
        None => None,
        Some(e) => {
            proof {
                lemma_scan(s@, i as int, Class::Token);
            }
            let invite: [u8; 6] = [0x49, 0x4e, 0x56, 0x49, 0x54, 0x45];
            assert(invite@ =~= lit_invite());
            let is_invite = e - i == 6 && starts_at(s, i, invite.as_slice());
            if is_invite {
                Some((e, Method::Invite))
            } else {
                proof {
                    if s@.subrange(i as int, e as int) == lit_invite() {
                        assert(e - i == 6);
                        assert(lit_at(s@, i as int, lit_invite()));
                    }
                }
                Some((e, Method::Unknown(ascii_text(s, i, e, Class::Token))))
            }
        },
    }
}

impl Method {
    /// Parses a method name at the start of `src`.
    pub fn parse(src: &[u8]) -> (r: ParseResult<Method>)
        ensures
            match method_p(src@, 0) {
                Some((e, m)) => r matches Ok((rest, v)) && rest@ == src@.subrange(
                    e,
                    src@.len() as int,
                ) && v@ == m,
                None => r is Err,
            },
    {
        match method_at(src, 0) {
            Some((e, m)) => Ok((rest_from(src, e), m)),
            None => Err(ParseError::no_match()),
        }
    }

    /// The method as written on the wire.
    pub fn to_string(&self) -> (r: String)
        ensures
            r@ == method_text(self@),
    {
        match self {
            Method::Invite => {
                let r = String::from_str("INVITE");
                proof {
                    reveal_strlit("INVITE");
                    assert(r@ =~= ascii_chars(lit_invite()));
                }
                r
            },
            Method::Unknown(s) => s.clone(),
        }
    }
}

/// A status code.
#[derive(Debug, Clone, Copy, PartialEq, Eq, Structural)]
pub struct StatusCode {
    pub inner: u16,
}

impl StatusCode {
    pub open spec fn value(&self) -> u16 {
        self.inner
    }

    /// Status-Code = 3DIGIT, with the space that follows it; the rest comes
    /// after that space.
    pub fn parse(src: &[u8]) -> (r: ParseResult<StatusCode>)
        ensures
            match status_code_p(src@, 0) {
                Some((e, v)) => r matches Ok((rest, c)) && rest@ == src@.subrange(
                    e,
                    src@.len() as int,
                ) && c.value() == v,
                None => r is Err,
            },
    {
        match status_code_at(src, 0) {
            Some((e, c)) => Ok((rest_from(src, e), c)),
            None => Err(ParseError::no_match()),
        }
    }

    /// The code as a number.
    pub fn as_u16(&self) -> (r: u16)
        ensures
            r == self.value(),
    {
        self.inner
    }
}

/// Three digits and their value.
pub open spec fn three_digits_p(s: Seq<u8>, i: int) -> Option<(int, u16)> {
    if 0 <= i && i + 3 <= s.len() && is_digit(s[i]) && is_digit(s[i + 1]) && is_digit(s[i + 2]) {
        Some((i + 3, digits_value(s, i, i + 3) as u16))
    } else {
        None
    }
}

/// Status-Code SP: three digits and the space after them; the end is past
/// the space.
pub open spec fn status_code_p(s: Seq<u8>, i: int) -> Option<(int, u16)> {
    match three_digits_p(s, i) {
        Some((e, v)) => if byte_at(s, e, 0x20) {
            Some((e + 1, v))
        } else {
            None
        },
        None => None,
    }
}

fn three_digits_at(s: &[u8], i: usize) -> (r: Option<(usize, StatusCode)>)
    requires
        i <= s.len(),
    ensures
        match r {
            Some((e, c)) => three_digits_p(s@, i as int) == Some((e as int, c.value())) && e == i + 3
                && e <= s.len(),
            None => three_digits_p(s@, i as int) is None,
        },
{
    if s.len() - i < 3 {
        return None;
    }
    let a = s[i];
    let b = s[i + 1];
    let c = s[i + 2];
    if 0x30 <= a && a <= 0x39 && 0x30 <= b && b <= 0x39 && 0x30 <= c && c <= 0x39 {
        let v = ((a - 0x30) as u16) * 100 + ((b - 0x30) as u16) * 10 + ((c - 0x30) as u16);
        proof {
            assert(digits_value(s@, i as int, i + 3) == v as nat) by {
                assert(digits_value(s@, i as int, i as int) == 0);
                assert(digits_value(s@, i as int, i + 1) == (a - 0x30) as nat);
                assert(digits_value(s@, i as int, i + 2) == (a - 0x30) as nat * 10 + (b
                    - 0x30) as nat);
            }
        }
        Some((i + 3, StatusCode { inner: v }))
    } else {
        None
    }
}

pub fn status_code_at(s: &[u8], i: usize) -> (r: Option<(usize, StatusCode)>)
    requires
        i <= s.len(),
    ensures
        match r {
            Some((e, c)) => status_code_p(s@, i as int) == Some((e as int, c.value())) && e == i + 4
                && e <= s.len(),
            None => status_code_p(s@, i as int) is None,
        },
{
    match three_digits_at(s, i) {
        Some((e, c)) => if byte_is(s, e, 0x20) {
            Some((e + 1, c))
        } else {
            None
        },
        None => None,
    }
}

/// A whole input of decimal digits whose value fits a `u16`.
pub open spec fn code_number_p(s: Seq<u8>) -> Option<u16> {
    match number_end(s, 0, u16::MAX as nat) {
        Some((e, v)) => if e == s.len() {
            Some(v as u16)
        } else {
            None
        },
        None => None,
    }
}

impl From<StatusCode> for u16 {
    fn from(value: StatusCode) -> (r: u16)
        ensures
            r == value.value(),
    {
        value.inner
    }
}

impl vstd::std_specs::convert::FromSpecImpl<StatusCode> for u16 {
    open spec fn obeys_from_spec() -> bool {
        true
    }

    open spec fn from_spec(v: StatusCode) -> u16 {
        v.value()
    }
}

impl<'a> TryFrom<&'a [u8]> for StatusCode {
    type Error = ParseError;

    /// The status code that `value` spells: decimal digits and nothing else,
    /// at most 65535.
    fn try_from(value: &'a [u8]) -> (r: Result<StatusCode, ParseError>)
        ensures
            match code_number_p(value@) {
                Some(v) => r matches Ok(c) && c.value() == v,
                None => r is Err,
            },
    {
        match number_at(value, 0, 65535) {
            Some((e, v)) => if e == value.len() {
                Ok(StatusCode { inner: v as u16 })
            } else {
                Err(ParseError::no_match())
            },
            None => Err(ParseError::no_match()),
        }
    }
}

impl<'a> vstd::std_specs::convert::TryFromSpecImpl<&'a [u8]> for StatusCode {
    open spec fn obeys_try_from_spec() -> bool {
        true
    }

    open spec fn try_from_spec(v: &'a [u8]) -> Result<StatusCode, ParseError> {
        match code_number_p(v@) {
            Some(c) => Ok(StatusCode { inner: c }),
            None => Err(ParseError { kind: ErrorKind::NoMatch, offset: 0 }),
        }
    }
}

} // verus!
