//! Lexical layer of the SIP grammar: byte classes, literals, separators,
//! numbers and quoted strings.
//!
//! Every recognizer exists twice: as a spec function over a byte sequence and
//! a start position, which returns the end position of the match (or `None`),
//! and as an executable function over a slice and a start index that is proved
//! to return exactly that.  The slice-level functions (`token`, `lws`, ...)
//! hand back the unconsumed remainder together with the recognized fragment.
use vstd::prelude::*;
use vstd::slice::slice_subrange;
use vstd::string::StringExecFns;
use vstd::utf8::*;

verus! {

broadcast use vstd::seq::group_seq_axioms;

/// Which stage of the grammar rejected the input.
#[derive(Debug, Clone, Copy, PartialEq, Eq, Structural)]
pub enum ErrorKind {
    /// The rule asked for did not match at the start of the input.
    NoMatch,
    /// The start-line is malformed.
    StartLine,
    /// A header line is malformed.
    Header,
    /// The body is shorter than the declared Content-Length.
    Truncated,
    /// Bytes that were to be read as text are not valid UTF-8.
    Encoding,
}

/// A hard parse failure: what failed, and at which byte offset of the input.
#[derive(Debug, Clone, Copy, PartialEq, Eq, Structural)]
pub struct ParseError {
    pub kind: ErrorKind,
    pub offset: usize,
}

impl ParseError {
    pub fn no_match() -> (r: ParseError)
        ensures
            r.kind == ErrorKind::NoMatch,
            r.offset == 0,
    {
        ParseError { kind: ErrorKind::NoMatch, offset: 0 }
    }
}

/// Result of a slice-level recognizer: the remainder and the value.
pub type ParseResult<'a, T> = Result<(&'a [u8], T), ParseError>;

// ---------------------------------------------------------------------------
// Byte classes
// ---------------------------------------------------------------------------

/// The byte classes that the grammar scans over.
#[derive(Debug, Clone, Copy, PartialEq, Eq, Structural)]
pub enum Class {
    Wsp,
    Digit,
    Token,
    Word,
    Unreserved,
    HnvUnreserved,
    Host,
    User,
    Password,
    ParamChar,
    Scheme,
    Uric,
    NotDquote,
}

pub open spec fn is_alpha(b: u8) -> bool {
    (0x41 <= b <= 0x5a) || (0x61 <= b <= 0x7a)
}

pub open spec fn is_digit(b: u8) -> bool {
    0x30 <= b <= 0x39
}

pub open spec fn is_alnum(b: u8) -> bool {
    is_alpha(b) || is_digit(b)
}

/// Printable ASCII other than space.
pub open spec fn is_graphic(b: u8) -> bool {
    0x21 <= b <= 0x7e
}

/// `-` `.` `!` `%` `*` `_` `+` `` ` `` `'` `~`
pub open spec fn is_token_mark(b: u8) -> bool {
    b == 0x2d || b == 0x2e || b == 0x21 || b == 0x25 || b == 0x2a || b == 0x5f || b == 0x2b
        || b == 0x60 || b == 0x27 || b == 0x7e
}

/// `(` `)` `<` `>` `:` `\` `"` `/` `[` `]` `?` `{` `}`
pub open spec fn is_word_extra(b: u8) -> bool {
    b == 0x28 || b == 0x29 || b == 0x3c || b == 0x3e || b == 0x3a || b == 0x5c || b == 0x22
        || b == 0x2f || b == 0x5b || b == 0x5d || b == 0x3f || b == 0x7b || b == 0x7d
}

/// `-` `_` `.` `!` `~` `*` `'` `(` `)`
pub open spec fn is_mark(b: u8) -> bool {
    b == 0x2d || b == 0x5f || b == 0x2e || b == 0x21 || b == 0x7e || b == 0x2a || b == 0x27
        || b == 0x28 || b == 0x29
}

/// `[` `]` `/` `?` `:` `+` `$`
pub open spec fn is_hnv_unreserved(b: u8) -> bool {
    b == 0x5b || b == 0x5d || b == 0x2f || b == 0x3f || b == 0x3a || b == 0x2b || b == 0x24
}

/// `:` `;` `?` `(` `)` `[` `]` `<` `>`: bytes that end a host.
pub open spec fn is_host_delimiter(b: u8) -> bool {
    b == 0x3a || b == 0x3b || b == 0x3f || b == 0x28 || b == 0x29 || b == 0x5b || b == 0x5d
        || b == 0x3c || b == 0x3e
}

/// `[` `]` `/` `:` `&` `+` `$` `%`: what a URI parameter admits besides unreserved bytes.
pub open spec fn is_param_extra(b: u8) -> bool {
    b == 0x5b || b == 0x5d || b == 0x2f || b == 0x3a || b == 0x26 || b == 0x2b || b == 0x24
        || b == 0x25
}

/// `;` `/` `?` `:` `@` `&` `=` `+` `$` `,` `%`
pub open spec fn is_reserved_or_escape(b: u8) -> bool {
    b == 0x3b || b == 0x2f || b == 0x3f || b == 0x3a || b == 0x40 || b == 0x26 || b == 0x3d
        || b == 0x2b || b == 0x24 || b == 0x2c || b == 0x25
}

pub open spec fn in_class(c: Class, b: u8) -> bool {
    match c {
        Class::Wsp => b == 0x20 || b == 0x09,
        Class::Digit => is_digit(b),
        Class::Token => is_alnum(b) || is_token_mark(b),
        Class::Word => is_alnum(b) || is_token_mark(b) || is_word_extra(b),
        Class::Unreserved => is_alnum(b) || is_mark(b),
        Class::HnvUnreserved => is_hnv_unreserved(b),
        Class::Host => is_graphic(b) && !is_host_delimiter(b),
        Class::User => is_graphic(b) && b != 0x3a && b != 0x40,
        Class::Password => is_graphic(b) && b != 0x40,
        Class::ParamChar => is_alnum(b) || is_mark(b) || is_param_extra(b),
        Class::Scheme => is_alnum(b) || b == 0x2b || b == 0x2d || b == 0x2e,
        Class::Uric => is_alnum(b) || is_mark(b) || is_reserved_or_escape(b),
        Class::NotDquote => b != 0x22,
    }
}

/// Every class but `Wsp` and `NotDquote` holds printable ASCII only.
pub open spec fn ascii_class(c: Class) -> bool {
    c != Class::Wsp && c != Class::NotDquote
}

pub fn class_has(c: Class, b: u8) -> (r: bool)
    ensures
        r == in_class(c, b),
{
    let alpha = (0x41 <= b && b <= 0x5a) || (0x61 <= b && b <= 0x7a);
    let digit = 0x30 <= b && b <= 0x39;
    let alnum = alpha || digit;
    let graphic = 0x21 <= b && b <= 0x7e;
    let token_mark = b == 0x2d || b == 0x2e || b == 0x21 || b == 0x25 || b == 0x2a || b == 0x5f
        || b == 0x2b || b == 0x60 || b == 0x27 || b == 0x7e;
    let mark = b == 0x2d || b == 0x5f || b == 0x2e || b == 0x21 || b == 0x7e || b == 0x2a || b
        == 0x27 || b == 0x28 || b == 0x29;
    match c {
        Class::Wsp => b == 0x20 || b == 0x09,
        Class::Digit => digit,
        Class::Token => alnum || token_mark,
        Class::Word => alnum || token_mark || b == 0x28 || b == 0x29 || b == 0x3c || b == 0x3e
            || b == 0x3a || b == 0x5c || b == 0x22 || b == 0x2f || b == 0x5b || b == 0x5d || b
            == 0x3f || b == 0x7b || b == 0x7d,
        Class::Unreserved => alnum || mark,
        Class::HnvUnreserved => b == 0x5b || b == 0x5d || b == 0x2f || b == 0x3f || b == 0x3a
            || b == 0x2b || b == 0x24,
        Class::Host => graphic && !(b == 0x3a || b == 0x3b || b == 0x3f || b == 0x28 || b == 0x29
            || b == 0x5b || b == 0x5d || b == 0x3c || b == 0x3e),
        Class::User => graphic && b != 0x3a && b != 0x40,
        Class::Password => graphic && b != 0x40,
        Class::ParamChar => alnum || mark || b == 0x5b || b == 0x5d || b == 0x2f || b == 0x3a || b
            == 0x26 || b == 0x2b || b == 0x24 || b == 0x25,
        Class::Scheme => alnum || b == 0x2b || b == 0x2d || b == 0x2e,
        Class::Uric => alnum || mark || b == 0x3b || b == 0x2f || b == 0x3f || b == 0x3a || b
            == 0x40 || b == 0x26 || b == 0x3d || b == 0x2b || b == 0x24 || b == 0x2c || b == 0x25,
        Class::NotDquote => b != 0x22,
    }
}

/// The first position at or after `i` whose byte is not in class `c`.
pub open spec fn scan(s: Seq<u8>, i: int, c: Class) -> int
    decreases s.len() - i,
{
    if 0 <= i < s.len() && in_class(c, s[i]) {
        scan(s, i + 1, c)
    } else {
        i
    }
}

pub proof fn lemma_scan(s: Seq<u8>, i: int, c: Class)
    requires
        0 <= i <= s.len(),
    ensures
        i <= scan(s, i, c) <= s.len(),
        forall|k: int| i <= k < scan(s, i, c) ==> in_class(c, #[trigger] s[k]),
        scan(s, i, c) < s.len() ==> !in_class(c, s[scan(s, i, c)]),
    decreases s.len() - i,
{
    if i < s.len() && in_class(c, s[i]) {
        lemma_scan(s, i + 1, c);
    }
}

/// Advances from `i` over the bytes of class `c`.
pub fn scan_at(s: &[u8], i: usize, c: Class) -> (r: usize)
    requires
        i <= s.len(),
    ensures
        r == scan(s@, i as int, c),
        i <= r <= s.len(),
{
    proof {
        lemma_scan(s@, i as int, c);
    }
    let mut k = i;
    while k < s.len() && class_has(c, s[k])
        invariant
            i <= k <= s.len(),
            scan(s@, k as int, c) == scan(s@, i as int, c),
        decreases s@.len() - k,
    {
        k += 1;
    }
    k
}

// ---------------------------------------------------------------------------
// Literals
// ---------------------------------------------------------------------------

/// `lit` stands in `s` at position `i`.
pub open spec fn lit_at(s: Seq<u8>, i: int, lit: Seq<u8>) -> bool {
    0 <= i && i + lit.len() <= s.len() && s.subrange(i, i + lit.len()) == lit
}

/// The byte `b` stands in `s` at position `i`.
pub open spec fn byte_at(s: Seq<u8>, i: int, b: u8) -> bool {
    0 <= i < s.len() && s[i] == b
}

pub open spec fn crlf() -> Seq<u8> {
    seq![0x0du8, 0x0au8]
}

/// `SIP/2.0`
pub open spec fn sip_version() -> Seq<u8> {
    seq![0x53u8, 0x49u8, 0x50u8, 0x2fu8, 0x32u8, 0x2eu8, 0x30u8]
}

pub fn starts_at(s: &[u8], i: usize, lit: &[u8]) -> (r: bool)
    requires
        i <= s.len(),
    ensures
        r == lit_at(s@, i as int, lit@),
{
    if lit.len() > s.len() - i {
        return false;
    }
    let mut k: usize = 0;
    while k < lit.len()
        invariant
            k <= lit@.len(),
            i + lit@.len() <= s.len(),
            forall|j: int| 0 <= j < k ==> s@[i + j] == lit@[j],
        decreases lit@.len() - k,
    {
        if s[i + k] != lit[k] {
            assert(s@.subrange(i as int, i + lit@.len())[k as int] != lit@[k as int]);
            return false;
        }
        k += 1;
    }
    assert(s@.subrange(i as int, i + lit@.len()) =~= lit@);
    true
}

pub fn byte_is(s: &[u8], i: usize, b: u8) -> (r: bool)
    ensures
        r == byte_at(s@, i as int, b),
        r ==> i < s.len(),
{
    i < s.len() && s[i] == b
}

pub fn crlf_at(s: &[u8], i: usize) -> (r: bool)
    requires
        i <= s.len(),
    ensures
        r == lit_at(s@, i as int, crlf()),
        r ==> i + 2 <= s.len(),
{
    let r = s.len() - i >= 2 && s[i] == 0x0d && s[i + 1] == 0x0a;
    proof {
        if r {
            assert(s@.subrange(i as int, i + 2) =~= crlf());
        } else if i + 2 <= s.len() {
            assert(s@.subrange(i as int, i + 2)[0] == s@[i as int]);
            assert(s@.subrange(i as int, i + 2)[1] == s@[i + 1]);
        }
    }
    r
}

pub fn sip_version_at(s: &[u8], i: usize) -> (r: bool)
    requires
        i <= s.len(),
    ensures
        r == lit_at(s@, i as int, sip_version()),
{
    let v: [u8; 7] = [0x53, 0x49, 0x50, 0x2f, 0x32, 0x2e, 0x30];
    assert(v@ =~= sip_version());
    starts_at(s, i, v.as_slice())
}

// ---------------------------------------------------------------------------
// Whitespace and separators
// ---------------------------------------------------------------------------

/// LWS = [*WSP CRLF] 1*WSP
pub open spec fn lws_end(s: Seq<u8>, i: int) -> Option<int> {
    let a = scan(s, i, Class::Wsp);
    let j = if lit_at(s, a, crlf()) { a + 2 } else { i };
    let e = scan(s, j, Class::Wsp);
    if e > j { Some(e) } else { None }
}

/// SWS = [LWS]
pub open spec fn sws_end(s: Seq<u8>, i: int) -> int {
    match lws_end(s, i) {
        Some(e) => e,
        None => i,
    }
}

/// SWS `b` SWS
pub open spec fn sep_end(s: Seq<u8>, i: int, b: u8) -> Option<int> {
    let a = sws_end(s, i);
    if byte_at(s, a, b) { Some(sws_end(s, a + 1)) } else { None }
}

/// HCOLON = *WSP ":" SWS
pub open spec fn hcolon_end(s: Seq<u8>, i: int) -> Option<int> {
    let a = scan(s, i, Class::Wsp);
    if byte_at(s, a, 0x3a) { Some(sws_end(s, a + 1)) } else { None }
}

/// RAQUOT = ">" SWS
pub open spec fn raquot_end(s: Seq<u8>, i: int) -> Option<int> {
    if byte_at(s, i, 0x3e) { Some(sws_end(s, i + 1)) } else { None }
}

/// LAQUOT = SWS "<"
pub open spec fn laquot_end(s: Seq<u8>, i: int) -> Option<int> {
    let a = sws_end(s, i);
    if byte_at(s, a, 0x3c) { Some(a + 1) } else { None }
}

/// An executable end position agrees with the spec-level one.
pub open spec fn same_end(r: Option<usize>, m: Option<int>) -> bool {
    m == end_of(r)
}

pub open spec fn end_of(r: Option<usize>) -> Option<int> {
    match r {
        Some(e) => Some(e as int),
        None => None,
    }
}

pub proof fn lemma_lws(s: Seq<u8>, i: int)
    requires
        0 <= i <= s.len(),
    ensures
        lws_end(s, i) matches Some(e) ==> i < e <= s.len(),
        i <= sws_end(s, i) <= s.len(),
{
    lemma_scan(s, i, Class::Wsp);
    let a = scan(s, i, Class::Wsp);
    let j = if lit_at(s, a, crlf()) { a + 2 } else { i };
    lemma_scan(s, j, Class::Wsp);
}

pub fn lws_at(s: &[u8], i: usize) -> (r: Option<usize>)
    requires
        i <= s.len(),
    ensures
        same_end(r, lws_end(s@, i as int)),
        r matches Some(e) ==> i < e <= s.len(),
{
    proof {
        lemma_lws(s@, i as int);
    }
    let a = scan_at(s, i, Class::Wsp);
    let j = if crlf_at(s, a) {
        a + 2
    } else {
        i
    };
    let e = scan_at(s, j, Class::Wsp);
    if e > j {
        Some(e)
    } else {
        None
    }
}

pub fn sws_at(s: &[u8], i: usize) -> (r: usize)
    requires
        i <= s.len(),
    ensures
        r == sws_end(s@, i as int),
        i <= r <= s.len(),
{
    match lws_at(s, i) {
        Some(e) => e,
        None => i,
    }
}

pub fn sep_at(s: &[u8], i: usize, b: u8) -> (r: Option<usize>)
    requires
        i <= s.len(),
    ensures
        same_end(r, sep_end(s@, i as int, b)),
        r matches Some(e) ==> i < e <= s.len(),
{
    let a = sws_at(s, i);
    if byte_is(s, a, b) {
        Some(sws_at(s, a + 1))
    } else {
        None
    }
}

pub fn hcolon_at(s: &[u8], i: usize) -> (r: Option<usize>)
    requires
        i <= s.len(),
    ensures
        same_end(r, hcolon_end(s@, i as int)),
        r matches Some(e) ==> i < e <= s.len(),
{
    let a = scan_at(s, i, Class::Wsp);
    if byte_is(s, a, 0x3a) {
        Some(sws_at(s, a + 1))
    } else {
        None
    }
}

pub fn raquot_at(s: &[u8], i: usize) -> (r: Option<usize>)
    requires
        i <= s.len(),
    ensures
        same_end(r, raquot_end(s@, i as int)),
        r matches Some(e) ==> i < e <= s.len(),
{
    if byte_is(s, i, 0x3e) {
        Some(sws_at(s, i + 1))
    } else {
        None
    }
}

pub fn laquot_at(s: &[u8], i: usize) -> (r: Option<usize>)
    requires
        i <= s.len(),
    ensures
        same_end(r, laquot_end(s@, i as int)),
        r matches Some(e) ==> i < e <= s.len(),
{
    let a = sws_at(s, i);
    if byte_is(s, a, 0x3c) {
        Some(a + 1)
    } else {
        None
    }
}

// ---------------------------------------------------------------------------
// Runs of a class
// ---------------------------------------------------------------------------

/// One or more bytes of class `c`.
pub open spec fn run_end(s: Seq<u8>, i: int, c: Class) -> Option<int> {
    let e = scan(s, i, c);
    if e > i { Some(e) } else { None }
}

/// token = 1*(alphanum / "-" / "." / "!" / "%" / "*" / "_" / "+" / "`" / "'" / "~")
pub open spec fn token_end(s: Seq<u8>, i: int) -> Option<int> {
    run_end(s, i, Class::Token)
}

pub fn run_at(s: &[u8], i: usize, c: Class) -> (r: Option<usize>)
    requires
        i <= s.len(),
    ensures
        same_end(r, run_end(s@, i as int, c)),
        r matches Some(e) ==> i < e <= s.len(),
{
    let e = scan_at(s, i, c);
    if e > i {
        Some(e)
    } else {
        None
    }
}

/// escaped = "%" HEXDIG HEXDIG
pub open spec fn is_hex(b: u8) -> bool {
    is_digit(b) || (0x41 <= b <= 0x46) || (0x61 <= b <= 0x66)
}

pub open spec fn escaped_at(s: Seq<u8>, i: int) -> bool {
    0 <= i && i + 3 <= s.len() && s[i] == 0x25 && is_hex(s[i + 1]) && is_hex(s[i + 2])
}

pub fn escaped_is(s: &[u8], i: usize) -> (r: bool)
    ensures
        r == escaped_at(s@, i as int),
{
    if i < s.len() && s.len() - i >= 3 && s[i] == 0x25 {
        let a = s[i + 1];
        let b = s[i + 2];
        (0x30 <= a && a <= 0x39 || 0x41 <= a && a <= 0x46 || 0x61 <= a && a <= 0x66) && (0x30
            <= b && b <= 0x39 || 0x41 <= b && b <= 0x46 || 0x61 <= b && b <= 0x66)
    } else {
        false
    }
}

// ---------------------------------------------------------------------------
// Numbers
// ---------------------------------------------------------------------------

/// The decimal value of the digits `s[i..j]`.
pub open spec fn digits_value(s: Seq<u8>, i: int, j: int) -> nat
    decreases j - i,
{
    if j <= i {
        0
    } else {
        digits_value(s, i, j - 1) * 10 + (s[j - 1] - 0x30) as nat
    }
}

pub proof fn lemma_digits_monotone(s: Seq<u8>, i: int, j: int, k: int)
    requires
        i <= j <= k,
        forall|m: int| i <= m < k ==> is_digit(#[trigger] s[m]),
    ensures
        digits_value(s, i, j) <= digits_value(s, i, k),
    decreases k - j,
{
    if j < k {
        lemma_digits_monotone(s, i, j, k - 1);
    }
}

/// 1*DIGIT whose value is at most `max`: the end and the value.
pub open spec fn number_end(s: Seq<u8>, i: int, max: nat) -> Option<(int, nat)> {
    let e = scan(s, i, Class::Digit);
    if e > i && digits_value(s, i, e) <= max {
        Some((e, digits_value(s, i, e)))
    } else {
        None
    }
}

pub fn number_at(s: &[u8], i: usize, max: u64) -> (r: Option<(usize, u64)>)
    requires
        i <= s.len(),
    ensures
        match r {
            Some((e, v)) => number_end(s@, i as int, max as nat) == Some((e as int, v as nat)),
            None => number_end(s@, i as int, max as nat) is None,
        },
        r matches Some((e, v)) ==> i < e <= s.len() && v <= max,
{
    proof {
        lemma_scan(s@, i as int, Class::Digit);
    }
    let e = scan_at(s, i, Class::Digit);
    if e == i {
        return None;
    }
    let mut k = i;
    let mut acc: u64 = 0;
    while k < e
        invariant
            i <= k <= e <= s.len(),
            e == scan(s@, i as int, Class::Digit),
            forall|m: int| i <= m < e ==> is_digit(#[trigger] s@[m]),
            acc as nat == digits_value(s@, i as int, k as int),
            acc <= max,
        decreases e - k,
    {
        let d = (s[k] - 0x30) as u64;
        if d > max || acc > (max - d) / 10 {
            proof {
                assert(digits_value(s@, i as int, k + 1) == acc * 10 + d);
                if d <= max {
                    assert(acc * 10 + d > max) by (nonlinear_arith)
                        requires acc > (max - d) / 10, d <= max;
                }
                lemma_digits_monotone(s@, i as int, k + 1, e as int);
            }
            return None;
        }
        proof {
            assert(acc * 10 + d <= max) by (nonlinear_arith)
                requires acc <= (max - d) / 10, d <= max;
        }
        acc = acc * 10 + d;
        k += 1;
    }
    Some((e, acc))
}

// ---------------------------------------------------------------------------
// Text and quoted strings
// ---------------------------------------------------------------------------

/// The first position at or after `i` that is not a space or a tab.
pub open spec fn next_non_ws(s: Seq<u8>, i: int) -> int {
    scan(s, i, Class::Wsp)
}

/// A byte of header text at `i`: printable or non-ASCII, or a space or tab
/// that is not trailing whitespace before a CR.
pub open spec fn text_byte_at(s: Seq<u8>, i: int) -> bool {
    0 <= i < s.len() && {
        let b = s[i];
        ||| 0x21 <= b <= 0x7e
        ||| 0x80 <= b <= 0xfd
        ||| ((b == 0x20 || b == 0x09) && !byte_at(s, next_non_ws(s, i + 1), 0x0d))
    }
}

/// The first byte after the leading spaces and tabs of `src`, if any.
pub fn next_non_whitespace(src: &[u8]) -> (r: Option<u8>)
    ensures
        r == (if next_non_ws(src@, 0) < src@.len() {
            Some(src@[next_non_ws(src@, 0)])
        } else {
            None::<u8>
        }),
{
    proof {
        lemma_scan(src@, 0, Class::Wsp);
    }
    let k = scan_at(src, 0, Class::Wsp);
    if k < src.len() {
        Some(src[k])
    } else {
        None
    }
}

pub fn text_byte_is(s: &[u8], i: usize) -> (r: bool)
    requires
        i <= s.len(),
    ensures
        r == text_byte_at(s@, i as int),
{
    if i >= s.len() {
        return false;
    }
    let b = s[i];
    if (0x21 <= b && b <= 0x7e) || (0x80 <= b && b <= 0xfd) {
        true
    } else if b == 0x20 || b == 0x09 {
        let k = scan_at(s, i + 1, Class::Wsp);
        !byte_is(s, k, 0x0d)
    } else {
        false
    }
}

/// quoted-string = SWS DQUOTE *(non-DQUOTE) DQUOTE, with UTF-8 content.
/// Gives the end and the bounds of the content.
pub open spec fn quoted_end(s: Seq<u8>, i: int) -> Option<(int, int, int)> {
    let a = sws_end(s, i);
    let c = scan(s, a + 1, Class::NotDquote);
    if byte_at(s, a, 0x22) && byte_at(s, c, 0x22) && valid_utf8(s.subrange(a + 1, c)) {
        Some((c + 1, a + 1, c))
    } else {
        None
    }
}

/// Bytes read as ASCII characters.
pub open spec fn ascii_chars(b: Seq<u8>) -> Seq<char> {
    b.map_values(|x: u8| x as char)
}

/// Every byte is below 0x80.
pub open spec fn all_ascii(b: Seq<u8>) -> bool {
    forall|k: int| 0 <= k < b.len() ==> #[trigger] b[k] < 0x80
}

pub proof fn lemma_ascii_utf8(b: Seq<u8>)
    requires
        all_ascii(b),
    ensures
        valid_utf8(b),
        decode_utf8(b) == ascii_chars(b),
    decreases b.len(),
{
    if b.len() > 0 {
        let x = b[0];
        assert(x < 0x80);
        assert((x & 0x7f) == x) by (bit_vector)
            requires x < 0x80;
        assert(is_leading_byte_width_1(x));
        assert(valid_first_scalar(b));
        let rest = b.subrange(1, b.len() as int);
        assert(pop_first_scalar(b) =~= rest);
        assert(all_ascii(rest)) by {
            assert forall|k: int| 0 <= k < rest.len() implies #[trigger] rest[k] < 0x80 by {
                assert(rest[k] == b[k + 1]);
            }
        }
        lemma_ascii_utf8(rest);
        assert(decode_first_scalar(b) == x as u32);
        assert(decode_utf8(b) =~= ascii_chars(b)) by {
            assert(ascii_chars(b) =~= seq![x as char] + ascii_chars(rest));
        }
    }
}

pub proof fn lemma_class_ascii(s: Seq<u8>, i: int, e: int, c: Class)
    requires
        0 <= i <= e <= s.len(),
        ascii_class(c),
        forall|k: int| i <= k < e ==> in_class(c, #[trigger] s[k]),
    ensures
        all_ascii(s.subrange(i, e)),
        valid_utf8(s.subrange(i, e)),
        decode_utf8(s.subrange(i, e)) == ascii_chars(s.subrange(i, e)),
{
    let t = s.subrange(i, e);
    assert forall|k: int| 0 <= k < t.len() implies #[trigger] t[k] < 0x80 by {
        assert(t[k] == s[i + k]);
        assert(in_class(c, s[i + k]));
    }
    lemma_ascii_utf8(t);
}

/// Relies on `std::str::from_utf8`: it succeeds exactly on valid UTF-8, and
/// the string then holds the decoded characters.
#[verifier::external_body]
pub(crate) fn utf8_str(b: &[u8]) -> (r: Option<&str>)
    ensures
        r is Some <==> valid_utf8(b@),
        r matches Some(t) ==> t@ == decode_utf8(b@),
{
    std::str::from_utf8(b).ok()
}

/// The bytes `s[i..e]` as an owned string.
pub fn text_of(s: &[u8], i: usize, e: usize) -> (r: Option<String>)
    requires
        i <= e <= s.len(),
    ensures
        r is Some <==> valid_utf8(s@.subrange(i as int, e as int)),
        r matches Some(t) ==> t@ == decode_utf8(s@.subrange(i as int, e as int)),
{
    let part = slice_subrange(s, i, e);
    match utf8_str(part) {
        Some(t) => Some(t.to_owned()),
        None => None,
    }
}

/// The bytes `s[i..e]`, all of an ASCII class, as an owned string.
pub fn ascii_text(s: &[u8], i: usize, e: usize, c: Class) -> (r: String)
    requires
        i <= e <= s.len(),
        ascii_class(c),
        forall|k: int| i <= k < e ==> in_class(c, #[trigger] s@[k]),
    ensures
        r@ == ascii_chars(s@.subrange(i as int, e as int)),
{
    proof {
        lemma_class_ascii(s@, i as int, e as int, c);
    }
    let t = text_of(s, i, e);
    match t {
        Some(t) => t,
        None => String::new(),
    }
}

pub fn quoted_at(s: &[u8], i: usize) -> (r: Option<(usize, String)>)
    requires
        i <= s.len(),
    ensures
        r matches Some((e, t)) ==> quoted_end(s@, i as int) matches Some((e2, a, c)) && e == e2
            && t@ == decode_utf8(s@.subrange(a, c)),
        r is None ==> quoted_end(s@, i as int) is None,
        r matches Some((e, t)) ==> i < e <= s.len(),
{
    proof {
        lemma_lws(s@, i as int);
    }
    let a = sws_at(s, i);
    if !byte_is(s, a, 0x22) {
        return None;
    }
    proof {
        lemma_scan(s@, a + 1, Class::NotDquote);
    }
    let c = scan_at(s, a + 1, Class::NotDquote);
    if !byte_is(s, c, 0x22) {
        return None;
    }
    match text_of(s, a + 1, c) {
        Some(t) => Some((c + 1, t)),
        None => None,
    }
}

// ---------------------------------------------------------------------------
// Shapes of results
// ---------------------------------------------------------------------------

/// The views of a sequence of values.
pub open spec fn views<T: View>(v: Seq<T>) -> Seq<T::V> {
    v.map_values(|x: T| x@)
}

/// The first of two alternatives that matched.
pub open spec fn first_of<A>(a: Option<A>, b: Option<A>) -> Option<A> {
    if a is Some {
        a
    } else {
        b
    }
}

/// A position-level parser's result agrees with its spec function and stays
/// within the input.
pub open spec fn parsed<T: View>(r: Option<(usize, T)>, m: Option<(int, T::V)>, i: int, n: int) -> bool {
    match r {
        Some((e, v)) => m == Some((e as int, v@)) && i <= e <= n,
        None => m is None,
    }
}

/// A slice-level parser's result agrees with the spec function at offset 0.
pub open spec fn slice_parsed<T: View>(src: Seq<u8>, m: Option<(int, T::V)>, r: ParseResult<T>) -> bool {
    match m {
        Some((e, v)) => r matches Ok((rest, w)) && rest@ == src.subrange(e, src.len() as int)
            && w@ == v,
        None => r is Err,
    }
}

/// Turns a position-level result at offset 0 into a slice-level one.
pub fn finish<T: View>(src: &[u8], r: Option<(usize, T)>) -> (out: ParseResult<T>)
    requires
        r matches Some((e, _)) ==> e <= src.len(),
    ensures
        match r {
            Some((e, v)) => out matches Ok((rest, w)) && rest@ == src@.subrange(
                e as int,
                src@.len() as int,
            ) && w == v,
            None => out is Err,
        },
{
    match r {
        Some((e, v)) => Ok((rest_from(src, e), v)),
        None => Err(ParseError::no_match()),
    }
}

// ---------------------------------------------------------------------------
// Slice-level recognizers
// ---------------------------------------------------------------------------

/// The part of `s` from `e` on.
pub fn rest_from(s: &[u8], e: usize) -> (r: &[u8])
    requires
        e <= s.len(),
    ensures
        r@ == s@.subrange(e as int, s@.len() as int),
{
    slice_subrange(s, e, s.len())
}

/// Common shape of a slice-level recognizer's result.
pub open spec fn fragment_result(src: Seq<u8>, m: Option<int>, r: ParseResult<&[u8]>) -> bool {
    match m {
        Some(e) => r matches Ok((rest, frag)) && rest@ == src.subrange(e, src.len() as int)
            && frag@ == src.subrange(0, e),
        None => r is Err,
    }
}

/// Common shape of a separator's result: the remainder and the symbol.
pub open spec fn symbol_result(src: Seq<u8>, m: Option<int>, sym: u8, r: ParseResult<u8>) -> bool {
    match m {
        Some(e) => r matches Ok((rest, b)) && rest@ == src.subrange(e, src.len() as int) && b
            == sym,
        None => r is Err,
    }
}

fn fragment(src: &[u8], m: Option<usize>) -> (r: ParseResult<&[u8]>)
    requires
        m matches Some(e) ==> e <= src@.len(),
    ensures
        fragment_result(src@, end_of(m), r),
{
    match m {
        Some(e) => Ok((rest_from(src, e), slice_subrange(src, 0, e))),
        None => Err(ParseError::no_match()),
    }
}

fn symbol(src: &[u8], m: Option<usize>, sym: u8) -> (r: ParseResult<u8>)
    requires
        m matches Some(e) ==> e <= src@.len(),
    ensures
        symbol_result(src@, end_of(m), sym, r),
{
    match m {
        Some(e) => Ok((rest_from(src, e), sym)),
        None => Err(ParseError::no_match()),
    }
}

/// LWS, folded to a single space.
pub fn lws(src: &[u8]) -> (r: ParseResult<u8>)
    ensures
        symbol_result(src@, lws_end(src@, 0), 0x20, r),
{
    let m = lws_at(src, 0);
    symbol(src, m, 0x20)
}

/// SWS: never fails.
pub fn sws(src: &[u8]) -> (r: ParseResult<u8>)
    ensures
        symbol_result(src@, Some(sws_end(src@, 0)), 0x20, r),
{
    let e = sws_at(src, 0);
    symbol(src, Some(e), 0x20)
}

pub fn hcolon(src: &[u8]) -> (r: ParseResult<u8>)
    ensures
        symbol_result(src@, hcolon_end(src@, 0), 0x3a, r),
{
    let m = hcolon_at(src, 0);
    symbol(src, m, 0x3a)
}

pub fn colon(src: &[u8]) -> (r: ParseResult<u8>)
    ensures
        symbol_result(src@, sep_end(src@, 0, 0x3a), 0x3a, r),
{
    let m = sep_at(src, 0, 0x3a);
    symbol(src, m, 0x3a)
}

pub fn comma(src: &[u8]) -> (r: ParseResult<u8>)
    ensures
        symbol_result(src@, sep_end(src@, 0, 0x2c), 0x2c, r),
{
    let m = sep_at(src, 0, 0x2c);
    symbol(src, m, 0x2c)
}

pub fn semi(src: &[u8]) -> (r: ParseResult<u8>)
    ensures
        symbol_result(src@, sep_end(src@, 0, 0x3b), 0x3b, r),
{
    let m = sep_at(src, 0, 0x3b);
    symbol(src, m, 0x3b)
}

pub fn equal(src: &[u8]) -> (r: ParseResult<u8>)
    ensures
        symbol_result(src@, sep_end(src@, 0, 0x3d), 0x3d, r),
{
    let m = sep_at(src, 0, 0x3d);
    symbol(src, m, 0x3d)
}

pub fn raquot(src: &[u8]) -> (r: ParseResult<u8>)
    ensures
        symbol_result(src@, raquot_end(src@, 0), 0x3e, r),
{
    let m = raquot_at(src, 0);
    symbol(src, m, 0x3e)
}

pub fn laquot(src: &[u8]) -> (r: ParseResult<u8>)
    ensures
        symbol_result(src@, laquot_end(src@, 0), 0x3c, r),
{
    let m = laquot_at(src, 0);
    symbol(src, m, 0x3c)
}

pub fn token(src: &[u8]) -> (r: ParseResult<&[u8]>)
    ensures
        fragment_result(src@, token_end(src@, 0), r),
{
    let m = run_at(src, 0, Class::Token);
    fragment(src, m)
}

pub fn word(src: &[u8]) -> (r: ParseResult<&[u8]>)
    ensures
        fragment_result(src@, run_end(src@, 0, Class::Word), r),
{
    let m = run_at(src, 0, Class::Word);
    fragment(src, m)
}

pub fn unreserved1(src: &[u8]) -> (r: ParseResult<&[u8]>)
    ensures
        fragment_result(src@, run_end(src@, 0, Class::Unreserved), r),
{
    let m = run_at(src, 0, Class::Unreserved);
    fragment(src, m)
}

pub fn escaped(src: &[u8]) -> (r: ParseResult<&[u8]>)
    ensures
        fragment_result(src@, if escaped_at(src@, 0) { Some(3int) } else { None }, r),
{
    let m = if escaped_is(src, 0) {
        Some(3)
    } else {
        None
    };
    fragment(src, m)
}

/// host: the bytes up to a host delimiter (possibly none); never fails.
pub fn parse_host(src: &[u8]) -> (r: ParseResult<String>)
    ensures
        r matches Ok((rest, h)) && rest@ == src@.subrange(scan(src@, 0, Class::Host), src@.len() as int)
            && h@ == ascii_chars(src@.subrange(0, scan(src@, 0, Class::Host))),
{
    proof {
        lemma_scan(src@, 0, Class::Host);
    }
    let e = scan_at(src, 0, Class::Host);
    let h = ascii_text(src, 0, e, Class::Host);
    Ok((rest_from(src, e), h))
}

/// Common shape of a number recognizer's result.
pub open spec fn number_result(src: Seq<u8>, max: nat, r: ParseResult<u64>) -> bool {
    match number_end(src, 0, max) {
        Some((e, v)) => r matches Ok((rest, n)) && rest@ == src.subrange(e, src.len() as int)
            && n == v,
        None => r is Err,
    }
}

fn number(src: &[u8], max: u64) -> (r: ParseResult<u64>)
    ensures
        number_result(src@, max as nat, r),
        r matches Ok((_, n)) ==> n <= max,
{
    match number_at(src, 0, max) {
        Some((e, v)) => Ok((rest_from(src, e), v)),
        None => Err(ParseError::no_match()),
    }
}

pub fn parse_usize(src: &[u8]) -> (r: ParseResult<usize>)
    ensures
        match number_end(src@, 0, usize::MAX as nat) {
            Some((e, v)) => r matches Ok((rest, n)) && rest@ == src@.subrange(e, src@.len() as int)
                && n == v,
            None => r is Err,
        },
{
    match number(src, usize::MAX as u64) {
        Ok((rest, n)) => Ok((rest, n as usize)),
        Err(e) => Err(e),
    }
}

pub fn parse_port(src: &[u8]) -> (r: ParseResult<u16>)
    ensures
        match number_end(src@, 0, u16::MAX as nat) {
            Some((e, v)) => r matches Ok((rest, n)) && rest@ == src@.subrange(e, src@.len() as int)
                && n == v,
            None => r is Err,
        },
{
    match number(src, u16::MAX as u64) {
        Ok((rest, n)) => Ok((rest, n as u16)),
        Err(e) => Err(e),
    }
}

pub fn parse_u8(src: &[u8]) -> (r: ParseResult<u8>)
    ensures
        match number_end(src@, 0, u8::MAX as nat) {
            Some((e, v)) => r matches Ok((rest, n)) && rest@ == src@.subrange(e, src@.len() as int)
                && n == v,
            None => r is Err,
        },
{
    match number(src, u8::MAX as u64) {
        Ok((rest, n)) => Ok((rest, n as u8)),
        Err(e) => Err(e),
    }
}

/// One byte of header text.
pub fn text_utf8_byte(src: &[u8]) -> (r: ParseResult<u8>)
    ensures
        if text_byte_at(src@, 0) {
            r matches Ok((rest, b)) && rest@ == src@.subrange(1, src@.len() as int) && b == src@[0]
        } else {
            r is Err
        },
{
    if text_byte_is(src, 0) {
        Ok((rest_from(src, 1), src[0]))
    } else {
        Err(ParseError::no_match())
    }
}

pub fn parse_quoted_string(src: &[u8]) -> (r: ParseResult<String>)
    ensures
        match quoted_end(src@, 0) {
            Some((e, a, c)) => r matches Ok((rest, t)) && rest@ == src@.subrange(e, src@.len() as int)
                && t@ == decode_utf8(src@.subrange(a, c)),
            None => r is Err,
        },
{
    match quoted_at(src, 0) {
        Some((e, t)) => Ok((rest_from(src, e), t)),
        None => Err(ParseError::no_match()),
    }
}

} // verus!

verus! {

/// The character of a decimal digit.
pub open spec fn digit_char(d: nat) -> char {
    ((d % 10) + 0x30) as char
}

/// The decimal numeral of `n`, without leading zeros.
pub open spec fn decimal(n: nat) -> Seq<char>
    decreases n,
{
    if n < 10 {
        seq![digit_char(n)]
    } else {
        decimal(n / 10) + seq![digit_char(n % 10)]
    }
}

/// A string of one decimal digit.
pub fn digit_str(d: u64) -> (r: &'static str)
    requires
        d < 10,
    ensures
        r@ == seq![digit_char(d as nat)],
{
    let r = match d {
        0 => "0",
        1 => "1",
        2 => "2",
        3 => "3",
        4 => "4",
        5 => "5",
        6 => "6",
        7 => "7",
        8 => "8",
        _ => "9",
    };
    proof {
        reveal_strlit("0");
        reveal_strlit("1");
        reveal_strlit("2");
        reveal_strlit("3");
        reveal_strlit("4");
        reveal_strlit("5");
        reveal_strlit("6");
        reveal_strlit("7");
        reveal_strlit("8");
        reveal_strlit("9");
        assert(r@ =~= seq![digit_char(d as nat)]);
    }
    r
}

/// Appends the decimal numeral of `n`.
pub fn push_decimal(out: &mut String, n: u64)
    ensures
        final(out)@ == old(out)@ + decimal(n as nat),
    decreases n,
{
    if n >= 10 {
        push_decimal(out, n / 10);
    }
    out.append(digit_str(n % 10));
    proof {
        if n < 10 {
            assert(n % 10 == n);
        }
    }
}

/// Appends a literal.
pub fn push_lit(out: &mut String, lit: &str)
    ensures
        final(out)@ == old(out)@ + lit@,
{
    out.append(lit);
}

} // verus!

verus! {

/// The bytes of a numeral.
pub open spec fn decimal_bytes(n: nat) -> Seq<u8> {
    decimal(n).map_values(|c: char| c as u8)
}

pub proof fn lemma_decimal_bytes(n: nat)
    ensures
        decimal_bytes(n).len() >= 1,
        forall|k: int| 0 <= k < decimal_bytes(n).len() ==> is_digit(#[trigger] decimal_bytes(n)[k]),
        digits_value(decimal_bytes(n), 0, decimal_bytes(n).len() as int) == n,
    decreases n,
{
    let b = decimal_bytes(n);
    let d = (n % 10) as nat;
    assert(digit_char(d) as u8 == (d + 0x30) as u8);
    if n < 10 {
        assert(b =~= seq![(n + 0x30) as u8]);
        assert(digits_value(b, 0, 0) == 0);
    } else {
        let m = (n / 10) as nat;
        lemma_decimal_bytes(m);
        let p = decimal_bytes(m);
        assert(b =~= p + seq![(d + 0x30) as u8]);
        lemma_digits_prefix(b, p, 0, p.len() as int);
        assert(digits_value(b, 0, b.len() as int) == digits_value(b, 0, p.len() as int) * 10 + d);
    }
}

/// The value of digits depends on those digits only.
pub proof fn lemma_digits_prefix(s: Seq<u8>, t: Seq<u8>, i: int, j: int)
    requires
        0 <= i <= j <= s.len(),
        j <= t.len(),
        forall|k: int| i <= k < j ==> s[k] == t[k],
    ensures
        digits_value(s, i, j) == digits_value(t, i, j),
    decreases j - i,
{
    if i < j {
        lemma_digits_prefix(s, t, i, j - 1);
    }
}

/// `scan` stops exactly at the first byte outside the class.
pub proof fn lemma_scan_exact(s: Seq<u8>, i: int, e: int, c: Class)
    requires
        0 <= i <= e <= s.len(),
        forall|k: int| i <= k < e ==> in_class(c, #[trigger] s[k]),
        e == s.len() || !in_class(c, s[e]),
    ensures
        scan(s, i, c) == e,
    decreases e - i,
{
    if i < e {
        lemma_scan_exact(s, i + 1, e, c);
    }
}

} // verus!

verus! {

/// Digits read the same wherever they stand.
pub proof fn lemma_digits_shift(s: Seq<u8>, p: int, t: Seq<u8>, k: int)
    requires
        0 <= p,
        0 <= k <= t.len(),
        p + k <= s.len(),
        forall|j: int| 0 <= j < k ==> s[p + j] == t[j],
    ensures
        digits_value(s, p, p + k) == digits_value(t, 0, k),
    decreases k,
{
    if k > 0 {
        lemma_digits_shift(s, p, t, k - 1);
        assert(s[p + k - 1] == t[k - 1]);
    }
}

/// A rendered number reads back as itself wherever it stands, when no digit
/// follows it.
pub proof fn lemma_decimal_reads_at(s: Seq<u8>, p: int, n: nat, max: nat)
    requires
        0 <= p,
        n <= max,
        p + decimal_bytes(n).len() <= s.len(),
        s.subrange(p, p + decimal_bytes(n).len()) == decimal_bytes(n),
        p + decimal_bytes(n).len() == s.len() || !is_digit(s[p + decimal_bytes(n).len()]),
    ensures
        number_end(s, p, max) == Some((p + decimal_bytes(n).len(), n)),
{
    let b = decimal_bytes(n);
    lemma_decimal_bytes(n);
    assert forall|j: int| 0 <= j < b.len() implies s[p + j] == b[j] by {
        assert(s[p + j] == s.subrange(p, p + b.len())[j]);
    }
    assert forall|k: int| p <= k < p + b.len() implies in_class(Class::Digit, #[trigger] s[k]) by {
        assert(s[k] == b[k - p]);
    }
    lemma_scan_exact(s, p, p + b.len(), Class::Digit);
    lemma_digits_shift(s, p, b, b.len() as int);
}

} // verus!

verus! {

/// No whitespace at `i`: SWS there is empty.
pub proof fn lemma_no_ws(s: Seq<u8>, i: int)
    requires
        0 <= i < s.len(),
        !in_class(Class::Wsp, s[i]),
        s[i] != 0x0d,
    ensures
        lws_end(s, i) is None,
        sws_end(s, i) == i,
{
    lemma_scan_exact(s, i, i, Class::Wsp);
    assert(!lit_at(s, i, crlf())) by {
        if lit_at(s, i, crlf()) {
            assert(s.subrange(i, i + 2)[0] == s[i]);
        }
    }
}

/// A CRLF not followed by whitespace is no fold: SWS there is empty.
pub proof fn lemma_line_end(s: Seq<u8>, e: int)
    requires
        0 <= e,
        lit_at(s, e, crlf()),
        e + 2 == s.len() || !in_class(Class::Wsp, s[e + 2]),
    ensures
        lws_end(s, e) is None,
        sws_end(s, e) == e,
        s[e] == 0x0d,
{
    assert(s.subrange(e, e + 2)[0] == s[e]);
    lemma_scan_exact(s, e, e, Class::Wsp);
    lemma_scan_exact(s, e + 2, e + 2, Class::Wsp);
}

} // verus!

verus! {

/// Appends bytes.
pub fn push_bytes(out: &mut Vec<u8>, b: &[u8])
    ensures
        final(out)@ == old(out)@ + b@,
{
    let ghost start = out@;
    let mut k: usize = 0;
    while k < b.len()
        invariant
            k <= b@.len(),
            out@ == start + b@.subrange(0, k as int),
        decreases b@.len() - k,
    {
        out.push(b[k]);
        assert(out@ =~= start + b@.subrange(0, k + 1));
        k += 1;
    }
    assert(b@.subrange(0, k as int) =~= b@);
}

/// Appends a string's UTF-8 bytes.
pub fn push_text_bytes(out: &mut Vec<u8>, t: &String)
    ensures
        final(out)@ == old(out)@ + encode_utf8(t@),
{
    push_bytes(out, t.as_str().as_bytes());
}

} // verus!
