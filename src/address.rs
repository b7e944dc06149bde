//! Addresses (name-addr / addr-spec), display names and generic parameters.
use crate::parse_utils::{
    ascii_chars, ascii_text, first_of, lemma_scan, lit_at, laquot_at, laquot_end, lws_at, lws_end,
    parsed, quoted_at, quoted_end, raquot_at, raquot_end, run_at, run_end, scan, sep_at, sep_end,
    slice_parsed, starts_at, token_end, views, Class, ParseResult, finish, push_lit, in_class,
    crlf, lemma_scan_exact, all_ascii,
};
use crate::uri::{
    hostport_p, lit_sip, sip_uri_p, uri_at, uri_headers_p, uri_headers_text, uri_p, uri_parameter_p,
    uri_parameters_p, uri_parameters_text, uri_text, userinfo_p, HostPortM, SipUriM, Uri,
    UriHeaderM, UriM, UriParameterM, UserInfoM,
};
use vstd::prelude::*;
use vstd::string::StringExecFns;
use vstd::utf8::{
    decode_utf8, encode_utf8, is_ascii_chars, is_ascii_chars_concat, is_ascii_chars_encode_utf8,
};

verus! {

broadcast use vstd::seq::group_seq_axioms;

/// The value of a generic parameter.
#[derive(Debug, Clone, PartialEq, Eq)]
pub enum GenValue {
    Token(String),
    Host(String),
    Quoted(String),
}

pub enum GenValueM {
    Token(Seq<char>),
    Host(Seq<char>),
    Quoted(Seq<char>),
}

impl View for GenValue {
    type V = GenValueM;

    open spec fn view(&self) -> GenValueM {
        match self {
            GenValue::Token(t) => GenValueM::Token(t@),
            GenValue::Host(h) => GenValueM::Host(h@),
            GenValue::Quoted(q) => GenValueM::Quoted(q@),
        }
    }
}

/// `name[=value]`
#[derive(Debug, Clone, PartialEq, Eq)]
pub struct GenericParam {
    pub name: String,
    pub value: Option<GenValue>,
}

pub struct GenericParamM {
    pub name: Seq<char>,
    pub value: Option<GenValueM>,
}

impl View for GenericParam {
    type V = GenericParamM;

    open spec fn view(&self) -> GenericParamM {
        GenericParamM {
            name: self.name@,
            value: match &self.value {
                Some(v) => Some(v@),
                None => None,
            },
        }
    }
}

/// A display name before `<uri>`.
#[derive(Debug, Clone, PartialEq, Eq)]
pub enum DisplayName {
    Plain(String),
    Quoted(String),
}

pub enum DisplayNameM {
    Plain(Seq<char>),
    Quoted(Seq<char>),
}

impl View for DisplayName {
    type V = DisplayNameM;

    open spec fn view(&self) -> DisplayNameM {
        match self {
            DisplayName::Plain(t) => DisplayNameM::Plain(t@),
            DisplayName::Quoted(t) => DisplayNameM::Quoted(t@),
        }
    }
}

/// name-addr or addr-spec.
#[derive(Debug, Clone, PartialEq, Eq)]
pub enum Spec {
    NameAddr { display_name: DisplayName, addr_spec: Uri },
    AddrSpec(Uri),
}

pub enum SpecM {
    NameAddr(DisplayNameM, UriM),
    AddrSpec(UriM),
}

impl View for Spec {
    type V = SpecM;

    open spec fn view(&self) -> SpecM {
        match self {
            Spec::NameAddr { display_name, addr_spec } => SpecM::NameAddr(
                display_name@,
                addr_spec@,
            ),
            Spec::AddrSpec(u) => SpecM::AddrSpec(u@),
        }
    }
}

/// A parameter of an address: `tag=...` or a generic one.
#[derive(Debug, Clone, PartialEq, Eq)]
pub enum Param {
    Tag(String),
    Generic(GenericParam),
}

/// A parameter of a To or From header: `tag=...` or a generic one.
#[derive(Debug, Clone, PartialEq, Eq)]
pub enum TagParam {
    Tag(String),
    Generic(GenericParam),
}

/// What a `Param` or a `TagParam` stands for.
pub enum ParamM {
    Tag(Seq<char>),
    Generic(GenericParamM),
}

impl View for Param {
    type V = ParamM;

    open spec fn view(&self) -> ParamM {
        match self {
            Param::Tag(t) => ParamM::Tag(t@),
            Param::Generic(g) => ParamM::Generic(g@),
        }
    }
}

impl View for TagParam {
    type V = ParamM;

    open spec fn view(&self) -> ParamM {
        match self {
            TagParam::Tag(t) => ParamM::Tag(t@),
            TagParam::Generic(g) => ParamM::Generic(g@),
        }
    }
}

/// An address with its parameters.
#[derive(Debug, Clone, PartialEq, Eq)]
pub struct Address {
    pub spec: Spec,
    pub params: Vec<Param>,
}

pub struct AddressM {
    pub spec: SpecM,
    pub params: Seq<ParamM>,
}

impl View for Address {
    type V = AddressM;

    open spec fn view(&self) -> AddressM {
        AddressM { spec: self.spec@, params: views(self.params@) }
    }
}

// ---------------------------------------------------------------------------
// The grammar, as spec functions
// ---------------------------------------------------------------------------

/// `tag`
pub open spec fn lit_tag() -> Seq<u8> {
    seq![0x74u8, 0x61u8, 0x67u8]
}

/// gen-value = token / quoted-string / host (a non-empty one).
pub open spec fn gen_value_p(s: Seq<u8>, i: int) -> Option<(int, GenValueM)> {
    first_of(
        match token_end(s, i) {
            Some(e) => Some((e, GenValueM::Token(ascii_chars(s.subrange(i, e))))),
            None => None,
        },
        first_of(
            match quoted_end(s, i) {
                Some((e, a, c)) => Some((e, GenValueM::Quoted(decode_utf8(s.subrange(a, c))))),
                None => None,
            },
            match run_end(s, i, Class::Host) {
                Some(e) => Some((e, GenValueM::Host(ascii_chars(s.subrange(i, e))))),
                None => None,
            },
        ),
    )
}

/// generic-param = token [ EQUAL gen-value ]; without a value the `=` is not consumed.
pub open spec fn generic_param_p(s: Seq<u8>, i: int) -> Option<(int, GenericParamM)> {
    match token_end(s, i) {
        Some(n) => {
            let name = ascii_chars(s.subrange(i, n));
            match sep_end(s, n, 0x3d) {
                Some(a) => match gen_value_p(s, a) {
                    Some((e, v)) => Some((e, GenericParamM { name, value: Some(v) })),
                    None => Some((n, GenericParamM { name, value: None })),
                },
                None => Some((n, GenericParamM { name, value: None })),
            }
        },
        None => None,
    }
}

/// param = "tag" EQUAL token / generic-param
pub open spec fn param_p(s: Seq<u8>, i: int) -> Option<(int, ParamM)> {
    first_of(
        if lit_at(s, i, lit_tag()) {
            match sep_end(s, i + 3, 0x3d) {
                Some(a) => match token_end(s, a) {
                    Some(e) => Some((e, ParamM::Tag(ascii_chars(s.subrange(a, e))))),
                    None => None,
                },
                None => None,
            }
        } else {
            None
        },
        match generic_param_p(s, i) {
            Some((e, g)) => Some((e, ParamM::Generic(g))),
            None => None,
        },
    )
}

/// *( token LWS ): the end and the tokens.
pub open spec fn plain_words_p(s: Seq<u8>, i: int) -> (int, Seq<Seq<char>>)
    decreases s.len() - i,
{
    match token_end(s, i) {
        Some(t) => match lws_end(s, t) {
            Some(e) => if i < e <= s.len() {
                let (f, ws) = plain_words_p(s, e);
                (f, seq![ascii_chars(s.subrange(i, t))] + ws)
            } else {
                (i, seq![])
            },
            None => (i, seq![]),
        },
        None => (i, seq![]),
    }
}

/// Words joined by single spaces.
pub open spec fn join_words(w: Seq<Seq<char>>) -> Seq<char>
    decreases w.len(),
{
    if w.len() == 0 {
        seq![]
    } else if w.len() == 1 {
        w[0]
    } else {
        join_words(w.drop_last()) + seq![' '] + w.last()
    }
}

/// display-name = quoted-string / *( token LWS ); never fails.
pub open spec fn display_name_p(s: Seq<u8>, i: int) -> (int, DisplayNameM) {
    match quoted_end(s, i) {
        Some((e, a, c)) => (e, DisplayNameM::Quoted(decode_utf8(s.subrange(a, c)))),
        None => {
            let (e, ws) = plain_words_p(s, i);
            (e, DisplayNameM::Plain(join_words(ws)))
        },
    }
}

/// name-addr = display-name LAQUOT uri RAQUOT
pub open spec fn name_addr_p(s: Seq<u8>, i: int) -> Option<(int, SpecM)> {
    let (a, dn) = display_name_p(s, i);
    match laquot_end(s, a) {
        Some(b) => match uri_p(s, b) {
            Some((c, u)) => match raquot_end(s, c) {
                Some(e) => Some((e, SpecM::NameAddr(dn, u))),
                None => None,
            },
            None => None,
        },
        None => None,
    }
}

/// name-addr, else addr-spec.
pub open spec fn spec_p(s: Seq<u8>, i: int) -> Option<(int, SpecM)> {
    first_of(
        name_addr_p(s, i),
        match uri_p(s, i) {
            Some((e, u)) => Some((e, SpecM::AddrSpec(u))),
            None => None,
        },
    )
}

/// *param, right after one another.
pub open spec fn params_p(s: Seq<u8>, i: int) -> (int, Seq<ParamM>)
    decreases s.len() - i,
{
    match param_p(s, i) {
        Some((e, p)) => if i < e <= s.len() {
            let (f, ps) = params_p(s, e);
            (f, seq![p] + ps)
        } else {
            (i, seq![])
        },
        None => (i, seq![]),
    }
}

/// address = spec *param
pub open spec fn address_p(s: Seq<u8>, i: int) -> Option<(int, AddressM)> {
    match spec_p(s, i) {
        Some((a, sp)) => {
            let (e, params) = params_p(s, a);
            Some((e, AddressM { spec: sp, params }))
        },
        None => None,
    }
}

// ---------------------------------------------------------------------------
// The grammar, executable
// ---------------------------------------------------------------------------

fn class_text(s: &[u8], i: usize, e: usize, c: Class) -> (r: String)
    requires
        i <= s.len(),
        e == scan(s@, i as int, c),
        c != Class::Wsp && c != Class::NotDquote,
    ensures
        r@ == ascii_chars(s@.subrange(i as int, e as int)),
{
    proof {
        lemma_scan(s@, i as int, c);
    }
    ascii_text(s, i, e, c)
}

pub fn gen_value_at(s: &[u8], i: usize) -> (r: Option<(usize, GenValue)>)
    requires
        i <= s.len(),
    ensures
        parsed(r, gen_value_p(s@, i as int), i as int, s@.len() as int),
        r matches Some((e, _)) ==> i < e,
{
    if let Some(e) = run_at(s, i, Class::Token) {
        return Some((e, GenValue::Token(class_text(s, i, e, Class::Token))));
    }
    if let Some((e, t)) = quoted_at(s, i) {
        return Some((e, GenValue::Quoted(t)));
    }
    match run_at(s, i, Class::Host) {
        Some(e) => Some((e, GenValue::Host(class_text(s, i, e, Class::Host)))),
        None => None,
    }
}

pub fn generic_param_at(s: &[u8], i: usize) -> (r: Option<(usize, GenericParam)>)
    requires
        i <= s.len(),
    ensures
        parsed(r, generic_param_p(s@, i as int), i as int, s@.len() as int),
        r matches Some((e, _)) ==> i < e,
{
    let n = match run_at(s, i, Class::Token) {
        Some(n) => n,
        None => return None,
    };
    let name = class_text(s, i, n, Class::Token);
    match sep_at(s, n, 0x3d) {
        Some(a) => match gen_value_at(s, a) {
            Some((e, v)) => Some((e, GenericParam { name, value: Some(v) })),
            None => Some((n, GenericParam { name, value: None })),
        },
        None => Some((n, GenericParam { name, value: None })),
    }
}

/// `tag=token`, else a generic parameter: the pieces of a `Param` or `TagParam`.
fn param_pieces_at(s: &[u8], i: usize) -> (r: Option<(usize, Option<String>, Option<GenericParam>)>)
    requires
        i <= s.len(),
    ensures
        match r {
            Some((e, Some(t), None)) => param_p(s@, i as int) == Some(
                (e as int, ParamM::Tag(t@)),
            ),
            Some((e, None, Some(g))) => param_p(s@, i as int) == Some(
                (e as int, ParamM::Generic(g@)),
            ),
            Some(_) => false,
            None => param_p(s@, i as int) is None,
        },
        r matches Some((e, _, _)) ==> i < e <= s.len(),
{
    let tag: [u8; 3] = [0x74, 0x61, 0x67];
    assert(tag@ =~= lit_tag());
    if starts_at(s, i, tag.as_slice()) {
        if let Some(a) = sep_at(s, i + 3, 0x3d) {
            if let Some(e) = run_at(s, a, Class::Token) {
                return Some((e, Some(class_text(s, a, e, Class::Token)), None));
            }
        }
    }
    match generic_param_at(s, i) {
        Some((e, g)) => Some((e, None, Some(g))),
        None => None,
    }
}

pub fn param_at(s: &[u8], i: usize) -> (r: Option<(usize, Param)>)
    requires
        i <= s.len(),
    ensures
        parsed(r, param_p(s@, i as int), i as int, s@.len() as int),
        r matches Some((e, _)) ==> i < e,
{
    match param_pieces_at(s, i) {
        Some((e, Some(t), _)) => Some((e, Param::Tag(t))),
        Some((e, None, Some(g))) => Some((e, Param::Generic(g))),
        _ => None,
    }
}

pub fn tag_param_at(s: &[u8], i: usize) -> (r: Option<(usize, TagParam)>)
    requires
        i <= s.len(),
    ensures
        parsed(r, param_p(s@, i as int), i as int, s@.len() as int),
        r matches Some((e, _)) ==> i < e,
{
    match param_pieces_at(s, i) {
        Some((e, Some(t), _)) => Some((e, TagParam::Tag(t))),
        Some((e, None, Some(g))) => Some((e, TagParam::Generic(g))),
        _ => None,
    }
}

pub fn display_name_at(s: &[u8], i: usize) -> (r: (usize, DisplayName))
    requires
        i <= s.len(),
    ensures
        display_name_p(s@, i as int) == (r.0 as int, r.1@),
        i <= r.0 <= s.len(),
{
    if let Some((e, t)) = quoted_at(s, i) {
        return (e, DisplayName::Quoted(t));
    }
    let mut k = i;
    let mut out = String::new();
    let ghost words: Seq<Seq<char>> = seq![];
    let mut first = true;
    while k <= s.len()
        invariant
            i <= k <= s.len(),
            quoted_end(s@, i as int) is None,
            first == (words.len() == 0),
            plain_words_p(s@, i as int) == (
                plain_words_p(s@, k as int).0,
                words + plain_words_p(s@, k as int).1,
            ),
            out@ == join_words(words),
        decreases s.len() + 1 - k,
    {
        let t = match run_at(s, k, Class::Token) {
            Some(t) => t,
            None => {
                assert(token_end(s@, k as int) is None);
                assert(plain_words_p(s@, k as int) == (k as int, Seq::<Seq<char>>::empty()));
                assert(words + Seq::<Seq<char>>::empty() =~= words);
                assert(plain_words_p(s@, i as int) == (k as int, words));
                return (k, DisplayName::Plain(out));
            },
        };
        let e = match lws_at(s, t) {
            Some(e) => e,
            None => {
                assert(words + seq![] =~= words);
                return (k, DisplayName::Plain(out));
            },
        };
        let w = class_text(s, k, t, Class::Token);
        let ghost new_words = words.push(w@);
        proof {
            assert(new_words.drop_last() =~= words);
            assert(new_words + plain_words_p(s@, e as int).1 =~= words + (seq![w@]
                + plain_words_p(s@, e as int).1));
        }
        if !first {
            out.append(" ");
            proof {
                reveal_strlit(" ");
            }
        }
        out.append(w.as_str());
        proof {
            if words.len() == 0 {
                assert(join_words(new_words) == new_words[0]);
                assert(out@ =~= join_words(new_words));
            } else {
                assert(out@ =~= join_words(new_words));
            }
            words = new_words;
        }
        first = false;
        k = e;
    }
    (k, DisplayName::Plain(out))
}

pub fn name_addr_at(s: &[u8], i: usize) -> (r: Option<(usize, Spec)>)
    requires
        i <= s.len(),
    ensures
        parsed(r, name_addr_p(s@, i as int), i as int, s@.len() as int),
{
    let (a, display_name) = display_name_at(s, i);
    let b = match laquot_at(s, a) {
        Some(b) => b,
        None => return None,
    };
    let (c, addr_spec) = match uri_at(s, b) {
        Some(x) => x,
        None => return None,
    };
    match raquot_at(s, c) {
        Some(e) => Some((e, Spec::NameAddr { display_name, addr_spec })),
        None => None,
    }
}

pub fn spec_at(s: &[u8], i: usize) -> (r: Option<(usize, Spec)>)
    requires
        i <= s.len(),
    ensures
        parsed(r, spec_p(s@, i as int), i as int, s@.len() as int),
{
    if let Some(x) = name_addr_at(s, i) {
        return Some(x);
    }
    match uri_at(s, i) {
        Some((e, u)) => Some((e, Spec::AddrSpec(u))),
        None => None,
    }
}

pub fn params_at(s: &[u8], i: usize) -> (r: (usize, Vec<Param>))
    requires
        i <= s.len(),
    ensures
        params_p(s@, i as int) == (r.0 as int, views(r.1@)),
        i <= r.0 <= s.len(),
{
    let mut k = i;
    let mut params: Vec<Param> = Vec::new();
    while k <= s.len()
        invariant
            i <= k <= s.len(),
            params_p(s@, i as int) == (
                params_p(s@, k as int).0,
                views(params@) + params_p(s@, k as int).1,
            ),
        decreases s.len() + 1 - k,
    {
        match param_at(s, k) {
            Some((e, p)) => {
                let ghost old_params = params@;
                params.push(p);
                proof {
                    assert(views(params@) =~= views(old_params) + seq![p@]);
                    assert(views(params@) + params_p(s@, e as int).1 =~= views(old_params) + (
                    seq![p@] + params_p(s@, e as int).1));
                }
                k = e;
            },
            None => {
                assert(views(params@) + seq![] =~= views(params@));
                return (k, params);
            },
        }
    }
    (k, params)
}

pub fn address_at(s: &[u8], i: usize) -> (r: Option<(usize, Address)>)
    requires
        i <= s.len(),
    ensures
        parsed(r, address_p(s@, i as int), i as int, s@.len() as int),
{
    let (a, spec) = match spec_at(s, i) {
        Some(x) => x,
        None => return None,
    };
    let (e, params) = params_at(s, a);
    Some((e, Address { spec, params }))
}

// ---------------------------------------------------------------------------
// Slice-level entry points
// ---------------------------------------------------------------------------

impl GenValue {
    pub fn parse(src: &[u8]) -> (r: ParseResult<GenValue>)
        ensures
            slice_parsed(src@, gen_value_p(src@, 0), r),
    {
        let m = gen_value_at(src, 0);
        finish(src, m)
    }
}

impl GenericParam {
    pub fn parse(src: &[u8]) -> (r: ParseResult<GenericParam>)
        ensures
            slice_parsed(src@, generic_param_p(src@, 0), r),
    {
        let m = generic_param_at(src, 0);
        finish(src, m)
    }
}

impl Param {
    pub fn parse(src: &[u8]) -> (r: ParseResult<Param>)
        ensures
            slice_parsed(src@, param_p(src@, 0), r),
    {
        let m = param_at(src, 0);
        finish(src, m)
    }
}

impl TagParam {
    pub fn parse(src: &[u8]) -> (r: ParseResult<TagParam>)
        ensures
            slice_parsed(src@, param_p(src@, 0), r),
    {
        let m = tag_param_at(src, 0);
        finish(src, m)
    }
}

impl DisplayName {
    /// Never fails: with no display name it is the empty plain one.
    pub fn parse(src: &[u8]) -> (r: ParseResult<DisplayName>)
        ensures
            slice_parsed(src@, Some(display_name_p(src@, 0)), r),
    {
        let (e, d) = display_name_at(src, 0);
        finish(src, Some((e, d)))
    }
}

impl Spec {
    pub fn parse(src: &[u8]) -> (r: ParseResult<Spec>)
        ensures
            slice_parsed(src@, spec_p(src@, 0), r),
    {
        let m = spec_at(src, 0);
        finish(src, m)
    }
}

impl Address {
    pub fn parse(src: &[u8]) -> (r: ParseResult<Address>)
        ensures
            slice_parsed(src@, address_p(src@, 0), r),
    {
        let m = address_at(src, 0);
        finish(src, m)
    }
}

} // verus!

verus! {

// ---------------------------------------------------------------------------
// Rendering
// ---------------------------------------------------------------------------

pub open spec fn quoted_text(q: Seq<char>) -> Seq<char> {
    seq!['"'] + q + seq!['"']
}

pub open spec fn gen_value_text(v: GenValueM) -> Seq<char> {
    match v {
        GenValueM::Token(t) => t,
        GenValueM::Host(h) => h,
        GenValueM::Quoted(q) => quoted_text(q),
    }
}

pub open spec fn generic_param_text(g: GenericParamM) -> Seq<char> {
    g.name + match g.value {
        Some(v) => seq!['='] + gen_value_text(v),
        None => seq![],
    }
}

pub open spec fn param_text(p: ParamM) -> Seq<char> {
    match p {
        ParamM::Tag(t) => seq!['t', 'a', 'g', '='] + t,
        ParamM::Generic(g) => generic_param_text(g),
    }
}

/// The parameters one after another, as the address grammar reads them.
pub open spec fn params_text(ps: Seq<ParamM>) -> Seq<char>
    decreases ps.len(),
{
    if ps.len() == 0 {
        seq![]
    } else {
        params_text(ps.drop_last()) + param_text(ps.last())
    }
}

pub open spec fn display_name_text(d: DisplayNameM) -> Seq<char> {
    match d {
        DisplayNameM::Plain(t) => t,
        DisplayNameM::Quoted(q) => quoted_text(q),
    }
}

/// `[display-name SP] "<" uri ">"`, or the bare URI.
pub open spec fn spec_text(s: SpecM) -> Seq<char> {
    match s {
        SpecM::NameAddr(d, u) => {
            let dn = display_name_text(d);
            (if dn.len() == 0 {
                seq![]
            } else {
                dn + seq![' ']
            }) + seq!['<'] + uri_text(u) + seq!['>']
        },
        SpecM::AddrSpec(u) => uri_text(u),
    }
}

pub open spec fn address_text(a: AddressM) -> Seq<char> {
    spec_text(a.spec) + params_text(a.params)
}

fn push_quoted(out: &mut String, q: &String)
    ensures
        final(out)@ == old(out)@ + quoted_text(q@),
{
    push_lit(out, "\"");
    push_lit(out, q.as_str());
    push_lit(out, "\"");
    proof {
        reveal_strlit("\"");
    }
    assert(final(out)@ =~= old(out)@ + quoted_text(q@));
}

impl GenValue {
    pub fn write(&self, out: &mut String)
        ensures
            final(out)@ == old(out)@ + gen_value_text(self@),
    {
        match self {
            GenValue::Token(t) => push_lit(out, t.as_str()),
            GenValue::Host(h) => push_lit(out, h.as_str()),
            GenValue::Quoted(q) => push_quoted(out, q),
        }
    }

    pub fn to_string(&self) -> (r: String)
        ensures
            r@ == gen_value_text(self@),
    {
        let mut out = String::new();
        self.write(&mut out);
        out
    }
}

impl GenericParam {
    pub fn write(&self, out: &mut String)
        ensures
            final(out)@ == old(out)@ + generic_param_text(self@),
    {
        let ghost start = out@;
        push_lit(out, self.name.as_str());
        if let Some(v) = &self.value {
            push_lit(out, "=");
            proof {
                reveal_strlit("=");
            }
            v.write(out);
        }
        assert(out@ =~= start + generic_param_text(self@));
    }

    pub fn to_string(&self) -> (r: String)
        ensures
            r@ == generic_param_text(self@),
    {
        let mut out = String::new();
        self.write(&mut out);
        out
    }
}

fn write_tag_or_generic(out: &mut String, tag: Option<&String>, generic: Option<&GenericParam>)
    requires
        tag is Some || generic is Some,
    ensures
        final(out)@ == old(out)@ + match tag {
            Some(t) => param_text(ParamM::Tag(t@)),
            None => param_text(ParamM::Generic(generic->0@)),
        },
{
    let ghost start = out@;
    match tag {
        Some(t) => {
            push_lit(out, "tag=");
            proof {
                reveal_strlit("tag=");
            }
            push_lit(out, t.as_str());
            assert(out@ =~= start + param_text(ParamM::Tag(t@)));
        },
        None => {
            if let Some(g) = generic {
                g.write(out);
            }
        },
    }
}

impl Param {
    pub fn write(&self, out: &mut String)
        ensures
            final(out)@ == old(out)@ + param_text(self@),
    {
        match self {
            Param::Tag(t) => write_tag_or_generic(out, Some(t), None),
            Param::Generic(g) => write_tag_or_generic(out, None, Some(g)),
        }
    }

    pub fn to_string(&self) -> (r: String)
        ensures
            r@ == param_text(self@),
    {
        let mut out = String::new();
        self.write(&mut out);
        out
    }
}

impl TagParam {
    pub fn write(&self, out: &mut String)
        ensures
            final(out)@ == old(out)@ + param_text(self@),
    {
        match self {
            TagParam::Tag(t) => write_tag_or_generic(out, Some(t), None),
            TagParam::Generic(g) => write_tag_or_generic(out, None, Some(g)),
        }
    }

    pub fn to_string(&self) -> (r: String)
        ensures
            r@ == param_text(self@),
    {
        let mut out = String::new();
        self.write(&mut out);
        out
    }
}

impl DisplayName {
    pub fn to_string(&self) -> (r: String)
        ensures
            r@ == display_name_text(self@),
    {
        match self {
            DisplayName::Plain(t) => t.clone(),
            DisplayName::Quoted(q) => {
                let mut out = String::new();
                push_quoted(&mut out, q);
                assert(out@ =~= display_name_text(self@));
                out
            },
        }
    }
}

impl Spec {
    pub fn write(&self, out: &mut String)
        ensures
            final(out)@ == old(out)@ + spec_text(self@),
    {
        let ghost start = out@;
        match self {
            Spec::NameAddr { display_name, addr_spec } => {
                let d = display_name.to_string();
                if !d.as_str().is_empty() {
                    push_lit(out, d.as_str());
                    push_lit(out, " ");
                    proof {
                        reveal_strlit(" ");
                    }
                }
                push_lit(out, "<");
                proof {
                    reveal_strlit("<");
                }
                addr_spec.write(out);
                push_lit(out, ">");
                proof {
                    reveal_strlit(">");
                }
            },
            Spec::AddrSpec(u) => u.write(out),
        }
        assert(out@ =~= start + spec_text(self@));
    }

    pub fn to_string(&self) -> (r: String)
        ensures
            r@ == spec_text(self@),
    {
        let mut out = String::new();
        self.write(&mut out);
        out
    }
}

impl Address {
    pub fn write(&self, out: &mut String)
        ensures
            final(out)@ == old(out)@ + address_text(self@),
    {
        let ghost start = out@;
        self.spec.write(out);
        let ghost after_spec = out@;
        let mut k: usize = 0;
        while k < self.params.len()
            invariant
                k <= self.params@.len(),
                out@ == after_spec + params_text(views(self.params@.subrange(0, k as int))),
            decreases self.params@.len() - k,
        {
            self.params[k].write(out);
            proof {
                let ps = views(self.params@.subrange(0, k + 1));
                assert(ps.drop_last() =~= views(self.params@.subrange(0, k as int)));
            }
            k += 1;
        }
        assert(self.params@.subrange(0, k as int) =~= self.params@);
        assert(out@ =~= start + address_text(self@));
    }

    /// The address as written on the wire.
    pub fn to_string(&self) -> (r: String)
        ensures
            r@ == address_text(self@),
    {
        let mut out = String::new();
        self.write(&mut out);
        out
    }
}

} // verus!

verus! {

// ---------------------------------------------------------------------------
// Rendering reads back
// ---------------------------------------------------------------------------

/// The bytes of ASCII text.
pub open spec fn text_bytes(t: Seq<char>) -> Seq<u8> {
    t.map_values(|c: char| c as u8)
}

/// Every byte of `b` is in class `c`.
pub open spec fn all_in_class(b: Seq<u8>, c: Class) -> bool {
    forall|k: int| 0 <= k < b.len() ==> in_class(c, #[trigger] b[k])
}

/// Non-empty tokens.
pub open spec fn token_words(ws: Seq<Seq<u8>>) -> bool {
    forall|k: int| 0 <= k < ws.len() ==> #[trigger] ws[k].len() > 0 && all_in_class(ws[k], Class::Token)
}

/// Each token followed by one space.
pub open spec fn words_bytes(ws: Seq<Seq<u8>>) -> Seq<u8>
    decreases ws.len(),
{
    if ws.len() == 0 {
        seq![]
    } else {
        words_bytes(ws.drop_last()) + ws.last() + seq![0x20u8]
    }
}

pub open spec fn ascii_words(ws: Seq<Seq<u8>>) -> Seq<Seq<char>> {
    ws.map_values(|w: Seq<u8>| ascii_chars(w))
}

pub proof fn lemma_text_bytes_concat(a: Seq<char>, b: Seq<char>)
    ensures
        text_bytes(a + b) == text_bytes(a) + text_bytes(b),
{
    assert(text_bytes(a + b) =~= text_bytes(a) + text_bytes(b));
}

pub proof fn lemma_text_bytes_ascii(b: Seq<u8>)
    ensures
        text_bytes(ascii_chars(b)) == b,
{
    assert forall|k: int| 0 <= k < b.len() implies #[trigger] text_bytes(ascii_chars(b))[k] == b[k] by {
        let x = b[k];
        assert((x as char) as u8 == x);
    }
    assert(text_bytes(ascii_chars(b)) =~= b);
}

/// Rendering the words of a plain display name, with the space before `<`,
/// gives each token followed by a space.
pub proof fn lemma_words_text(ws: Seq<Seq<u8>>)
    requires
        ws.len() > 0,
        token_words(ws),
    ensures
        text_bytes(join_words(ascii_words(ws)) + seq![' ']) == words_bytes(ws),
        join_words(ascii_words(ws)).len() > 0,
    decreases ws.len(),
{
    let aw = ascii_words(ws);
    let last = ws.last();
    assert(ws[ws.len() - 1].len() > 0);
    lemma_text_bytes_ascii(last);
    if ws.len() == 1 {
        assert(join_words(aw) == aw[0]);
        lemma_text_bytes_concat(aw[0], seq![' ']);
        assert(ws.drop_last().len() == 0);
        assert(words_bytes(ws.drop_last()) == Seq::<u8>::empty());
        assert(words_bytes(ws) =~= last + seq![0x20u8]);
        assert(text_bytes(seq![' ']) =~= seq![0x20u8]);
    } else {
        let init = ws.drop_last();
        assert(token_words(init)) by {
            assert forall|k: int| 0 <= k < init.len() implies #[trigger] init[k].len() > 0
                && all_in_class(init[k], Class::Token) by {
                assert(init[k] == ws[k]);
            }
        }
        lemma_words_text(init);
        assert(aw.drop_last() =~= ascii_words(init));
        let ji = join_words(ascii_words(init));
        assert(join_words(aw) == ji + seq![' '] + aw.last());
        lemma_text_bytes_concat(ji + seq![' '], aw.last());
        lemma_text_bytes_concat(ji + seq![' '] + aw.last(), seq![' ']);
        assert(text_bytes(seq![' ']) =~= seq![0x20u8]);
        assert(join_words(aw) + seq![' '] =~= (ji + seq![' '] + aw.last()) + seq![' ']);
    }
}

} // verus!

verus! {

pub proof fn lemma_words_front(ws: Seq<Seq<u8>>)
    requires
        ws.len() > 0,
    ensures
        words_bytes(ws) == ws[0] + seq![0x20u8] + words_bytes(ws.drop_first()),
    decreases ws.len(),
{
    if ws.len() == 1 {
        assert(ws.drop_last().len() == 0);
        assert(words_bytes(ws.drop_last()) == Seq::<u8>::empty());
        assert(ws.drop_first().len() == 0);
        assert(words_bytes(ws.drop_first()) == Seq::<u8>::empty());
        assert(words_bytes(ws) =~= ws[0] + seq![0x20u8] + words_bytes(ws.drop_first()));
    } else {
        let init = ws.drop_last();
        lemma_words_front(init);
        let tail = ws.drop_first();
        assert(tail.drop_last() =~= init.drop_first());
        assert(tail.last() == ws.last());
        assert(words_bytes(tail) == words_bytes(tail.drop_last()) + tail.last() + seq![0x20u8]);
        assert(init[0] == ws[0]);
        assert(words_bytes(ws) =~= ws[0] + seq![0x20u8] + words_bytes(tail));
    }
}

/// A byte that ends a plain display name: not a token byte, space, tab or CR.
pub open spec fn ends_words(b: u8) -> bool {
    !in_class(Class::Token, b) && b != 0x20 && b != 0x09 && b != 0x0d
}

pub proof fn lemma_words_bytes_first(ws: Seq<Seq<u8>>)
    requires
        ws.len() > 0,
        token_words(ws),
    ensures
        words_bytes(ws).len() > 0,
        in_class(Class::Token, words_bytes(ws)[0]),
{
    lemma_words_front(ws);
    assert(ws[0].len() > 0);
    assert(words_bytes(ws)[0] == ws[0][0]);
}

/// Tokens each followed by a space, then a byte that ends the name, read as
/// a plain display name give back the tokens.
pub proof fn lemma_plain_words(s: Seq<u8>, p: int, ws: Seq<Seq<u8>>)
    requires
        0 <= p,
        token_words(ws),
        p + words_bytes(ws).len() < s.len(),
        s.subrange(p, p + words_bytes(ws).len()) == words_bytes(ws),
        ends_words(s[p + words_bytes(ws).len()]),
    ensures
        plain_words_p(s, p) == (p + words_bytes(ws).len(), ascii_words(ws)),
    decreases ws.len(),
{
    let wb = words_bytes(ws);
    if ws.len() == 0 {
        assert(wb.len() == 0);
        assert(scan(s, p, Class::Token) == p);
        assert(ascii_words(ws) =~= Seq::<Seq<char>>::empty());
    } else {
        lemma_words_front(ws);
        let w0 = ws[0];
        let rest = ws.drop_first();
        let rb = words_bytes(rest);
        assert(w0.len() > 0 && all_in_class(w0, Class::Token));
        let t = p + w0.len();
        assert forall|k: int| p <= k < t implies in_class(Class::Token, #[trigger] s[k]) by {
            assert(s[k] == s.subrange(p, p + wb.len())[k - p]);
            assert(wb[k - p] == w0[k - p]);
        }
        assert(s[t] == 0x20) by {
            assert(s[t] == s.subrange(p, p + wb.len())[t - p]);
        }
        lemma_scan_exact(s, p, t, Class::Token);
        assert(token_end(s, p) == Some(t));
        assert(token_words(rest)) by {
            assert forall|k: int| 0 <= k < rest.len() implies #[trigger] rest[k].len() > 0
                && all_in_class(rest[k], Class::Token) by {
                assert(rest[k] == ws[k + 1]);
            }
        }
        assert(s.subrange(t + 1, t + 1 + rb.len()) =~= rb) by {
            assert forall|k: int| 0 <= k < rb.len() implies #[trigger] s.subrange(
                t + 1,
                t + 1 + rb.len(),
            )[k] == rb[k] by {
                assert(s[t + 1 + k] == s.subrange(p, p + wb.len())[w0.len() + 1 + k]);
            }
        }
        let nb = s[t + 1];
        if rest.len() > 0 {
            lemma_words_bytes_first(rest);
            assert(nb == rb[0]);
        } else {
            assert(t + 1 == p + wb.len());
        }
        assert(!in_class(Class::Wsp, nb) && nb != 0x0d);
        lemma_scan_exact(s, t, t + 1, Class::Wsp);
        lemma_scan_exact(s, t + 1, t + 1, Class::Wsp);
        assert(!lit_at(s, t + 1, crlf())) by {
            if lit_at(s, t + 1, crlf()) {
                assert(s.subrange(t + 1, t + 3)[0] == s[t + 1]);
            }
        }
        assert(lws_end(s, t) == Some(t + 1));
        lemma_plain_words(s, t + 1, rest);
        assert(ascii_words(ws) =~= seq![ascii_chars(w0)] + ascii_words(rest));
        assert(s.subrange(p, t) =~= w0) by {
            assert forall|k: int| 0 <= k < w0.len() implies #[trigger] s.subrange(p, t)[k]
                == w0[k] by {
                assert(s[p + k] == s.subrange(p, p + wb.len())[k]);
            }
        }
    }
}

} // verus!

verus! {

/// The address `token... <sip:user@host>`: a plain display name, a SIP URI
/// with a user and a host and nothing else, no parameters.
pub open spec fn simple_address(ws: Seq<Seq<u8>>, user: Seq<u8>, host: Seq<u8>) -> AddressM {
    AddressM {
        spec: SpecM::NameAddr(
            DisplayNameM::Plain(join_words(ascii_words(ws))),
            UriM::Sip(simple_sip_uri(user, host)),
        ),
        params: seq![],
    }
}

/// The bytes `token SP ... "<sip:" user "@" host ">"`.
pub open spec fn simple_address_bytes(ws: Seq<Seq<u8>>, user: Seq<u8>, host: Seq<u8>) -> Seq<u8> {
    words_bytes(ws) + seq![0x3cu8] + lit_sip() + user + seq![0x40u8] + host + seq![0x3eu8]
}

pub proof fn lemma_simple_sip_uri_text(user: Seq<u8>, host: Seq<u8>)
    ensures
        text_bytes(uri_text(UriM::Sip(simple_sip_uri(user, host)))) == lit_sip() + user + seq![
            0x40u8,
        ] + host,
{
    assert(uri_parameters_text(Seq::<UriParameterM>::empty()) == Seq::<char>::empty());
    assert(uri_headers_text(Seq::<UriHeaderM>::empty()) == Seq::<char>::empty());
    let r1 = seq!['s', 'i', 'p', ':'];
    let r2 = r1 + ascii_chars(user);
    let r3 = r2 + seq!['@'];
    assert(uri_text(UriM::Sip(simple_sip_uri(user, host))) =~= r3 + ascii_chars(host));
    lemma_text_bytes_ascii(user);
    lemma_text_bytes_ascii(host);
    lemma_text_bytes_concat(r1, ascii_chars(user));
    lemma_text_bytes_concat(r2, seq!['@']);
    lemma_text_bytes_concat(r3, ascii_chars(host));
    assert(text_bytes(r1) =~= lit_sip());
    assert(text_bytes(seq!['@']) =~= seq![0x40u8]);
}

pub proof fn lemma_simple_address_text(ws: Seq<Seq<u8>>, user: Seq<u8>, host: Seq<u8>)
    requires
        token_words(ws),
    ensures
        text_bytes(address_text(simple_address(ws, user, host))) == simple_address_bytes(
            ws,
            user,
            host,
        ),
{
    let m = simple_address(ws, user, host);
    let dn = join_words(ascii_words(ws));
    let pre = if dn.len() == 0 {
        Seq::<char>::empty()
    } else {
        dn + seq![' ']
    };
    let rest = seq!['<'] + seq!['s', 'i', 'p', ':'] + ascii_chars(user) + seq!['@'] + ascii_chars(
        host,
    ) + seq!['>'];
    assert(uri_parameters_text(Seq::<UriParameterM>::empty()) == Seq::<char>::empty());
    assert(uri_headers_text(Seq::<UriHeaderM>::empty()) == Seq::<char>::empty());
    assert(params_text(m.params) == Seq::<char>::empty());
    assert(address_text(m) =~= pre + rest);
    lemma_text_bytes_concat(pre, rest);
    if ws.len() == 0 {
        assert(ascii_words(ws).len() == 0);
        assert(words_bytes(ws) == Seq::<u8>::empty());
        assert(text_bytes(pre) =~= words_bytes(ws));
    } else {
        lemma_words_text(ws);
    }
    lemma_text_bytes_ascii(user);
    lemma_text_bytes_ascii(host);
    let r1 = seq!['<'] + seq!['s', 'i', 'p', ':'];
    let r2 = r1 + ascii_chars(user);
    let r3 = r2 + seq!['@'];
    let r4 = r3 + ascii_chars(host);
    lemma_text_bytes_concat(r1, ascii_chars(user));
    lemma_text_bytes_concat(r2, seq!['@']);
    lemma_text_bytes_concat(r3, ascii_chars(host));
    lemma_text_bytes_concat(r4, seq!['>']);
    assert(text_bytes(r1) =~= seq![0x3cu8] + lit_sip());
    assert(text_bytes(seq!['@']) =~= seq![0x40u8]);
    assert(text_bytes(seq!['>']) =~= seq![0x3eu8]);
    assert(text_bytes(rest) =~= seq![0x3cu8] + lit_sip() + user + seq![0x40u8] + host + seq![
        0x3eu8,
    ]);
    assert(text_bytes(address_text(m)) =~= simple_address_bytes(ws, user, host));
}

proof fn lemma_display_then_laquot(s: Seq<u8>, ws: Seq<Seq<u8>>)
    requires
        token_words(ws),
        words_bytes(ws).len() < s.len(),
        s.subrange(0, words_bytes(ws).len() as int) == words_bytes(ws),
        s[words_bytes(ws).len() as int] == 0x3c,
    ensures
        display_name_p(s, 0) == (
            words_bytes(ws).len() as int,
            DisplayNameM::Plain(join_words(ascii_words(ws))),
        ),
        laquot_end(s, words_bytes(ws).len() as int) == Some(words_bytes(ws).len() + 1int),
{
    let wb = words_bytes(ws);
    let q = wb.len() as int;
    lemma_plain_words(s, 0, ws);
    if ws.len() > 0 {
        lemma_words_bytes_first(ws);
        assert(s[0] == s.subrange(0, q)[0]);
    }
    assert(!in_class(Class::Wsp, s[0]) && s[0] != 0x0d && s[0] != 0x22);
    lemma_scan_exact(s, 0, 0, Class::Wsp);
    assert(!lit_at(s, 0, crlf())) by {
        if lit_at(s, 0, crlf()) {
            assert(s.subrange(0, 2)[0] == s[0]);
        }
    }
    assert(lws_end(s, 0) is None);
    assert(quoted_end(s, 0) is None);
    lemma_scan_exact(s, q, q, Class::Wsp);
    assert(!lit_at(s, q, crlf())) by {
        if lit_at(s, q, crlf()) {
            assert(s.subrange(q, q + 2)[0] == s[q]);
        }
    }
    assert(lws_end(s, q) is None);
}

/// `user@host`, nothing more, as a SIP URI.
pub open spec fn simple_sip_uri(user: Seq<u8>, host: Seq<u8>) -> SipUriM {
    SipUriM {
        userinfo: Some(UserInfoM { user: ascii_chars(user), password: None }),
        hostport: HostPortM { hostname: ascii_chars(host), port: None },
        parameters: seq![],
        headers: seq![],
    }
}

/// A byte that ends `user@host` when neither port, parameters nor headers follow.
pub open spec fn ends_host(b: u8) -> bool {
    !in_class(Class::Host, b) && b != 0x3a && b != 0x3b && b != 0x3f
}

pub proof fn lemma_user_host(s: Seq<u8>, u0: int, user: Seq<u8>, host: Seq<u8>)
    requires
        0 <= u0,
        user.len() > 0,
        all_in_class(user, Class::User),
        all_in_class(host, Class::Host),
        u0 + user.len() + 1 + host.len() < s.len(),
        s.subrange(u0, u0 + user.len()) == user,
        s[u0 + user.len()] == 0x40,
        s.subrange(u0 + user.len() + 1, u0 + user.len() + 1 + host.len()) == host,
        ends_host(s[u0 + user.len() + 1 + host.len()]),
    ensures
        sip_uri_p(s, u0) == Some((u0 + user.len() + 1 + host.len(), simple_sip_uri(user, host))),
{
    let ua = u0 + user.len();
    let h = ua + 1 + host.len();
    assert forall|k: int| u0 <= k < ua implies in_class(Class::User, #[trigger] s[k]) by {
        assert(s[k] == s.subrange(u0, ua)[k - u0]);
    }
    lemma_scan_exact(s, u0, ua, Class::User);
    assert(userinfo_p(s, u0) == Some(
        (ua + 1, UserInfoM { user: ascii_chars(user), password: None }),
    ));
    assert forall|k: int| ua + 1 <= k < h implies in_class(Class::Host, #[trigger] s[k]) by {
        assert(s[k] == s.subrange(ua + 1, h)[k - ua - 1]);
    }
    lemma_scan_exact(s, ua + 1, h, Class::Host);
    assert(hostport_p(s, ua + 1) == Some(
        (h, HostPortM { hostname: ascii_chars(host), port: None }),
    ));
    assert(uri_parameter_p(s, h) is None);
    assert(uri_parameters_p(s, h) == (h, Seq::<UriParameterM>::empty()));
    assert(uri_headers_p(s, h) == Some((h, Seq::<UriHeaderM>::empty())));
}

proof fn lemma_simple_address_reads(s: Seq<u8>, ws: Seq<Seq<u8>>, user: Seq<u8>, host: Seq<u8>)
    requires
        token_words(ws),
        user.len() > 0,
        all_in_class(user, Class::User),
        all_in_class(host, Class::Host),
        s.len() == words_bytes(ws).len() + 7 + user.len() + host.len(),
        s.subrange(0, words_bytes(ws).len() as int) == words_bytes(ws),
        s[words_bytes(ws).len() as int] == 0x3c,
        s.subrange(words_bytes(ws).len() as int + 1, words_bytes(ws).len() as int + 5) == lit_sip(),
        s.subrange(words_bytes(ws).len() as int + 5, words_bytes(ws).len() as int + 5 + user.len()) == user,
        s[words_bytes(ws).len() as int + 5 + user.len()] == 0x40,
        s.subrange(
            words_bytes(ws).len() as int + 6 + user.len(),
            words_bytes(ws).len() as int + 6 + user.len() + host.len(),
        ) == host,
        s[words_bytes(ws).len() as int + 6 + user.len() + host.len()] == 0x3e,
    ensures
        address_p(s, 0) == Some((s.len() as int, simple_address(ws, user, host))),
{
    let m = simple_address(ws, user, host);
    let q = words_bytes(ws).len() as int;
    let u0 = q + 5;
    let h = u0 + user.len() + 1 + host.len();
    let n = s.len() as int;
    lemma_display_then_laquot(s, ws);
    assert(ends_host(s[h]));
    lemma_user_host(s, u0, user, host);
    assert(lit_at(s, q + 1, lit_sip()));
    assert(uri_p(s, q + 1) == Some((h, UriM::Sip(simple_sip_uri(user, host)))));
    lemma_scan_exact(s, n, n, Class::Wsp);
    assert(lws_end(s, n) is None);
    assert(raquot_end(s, h) == Some(n));
    assert(name_addr_p(s, 0) == Some((n, m.spec)));
    lemma_scan_exact(s, n, n, Class::Token);
    assert(param_p(s, n) is None);
    assert(params_p(s, n) == (n, Seq::<ParamM>::empty()));
}

proof fn lemma_simple_address_layout(ws: Seq<Seq<u8>>, user: Seq<u8>, host: Seq<u8>)
    ensures
        ({
            let s = simple_address_bytes(ws, user, host);
            let q = words_bytes(ws).len() as int;
            let ua = q + 5 + user.len();
            let h = ua + 1 + host.len();
            &&& s.len() == q + 7 + user.len() + host.len()
            &&& s.subrange(0, q) == words_bytes(ws)
            &&& s[q] == 0x3c
            &&& s.subrange(q + 1, q + 5) == lit_sip()
            &&& s.subrange(q + 5, ua) == user
            &&& s[ua] == 0x40
            &&& s.subrange(ua + 1, h) == host
            &&& s[h] == 0x3e
        }),
{
    let s = simple_address_bytes(ws, user, host);
    let q = words_bytes(ws).len() as int;
    let ua = q + 5 + user.len();
    let h = ua + 1 + host.len();
    assert(s.subrange(0, q) =~= words_bytes(ws));
    assert(s.subrange(q + 1, q + 5) =~= lit_sip());
    assert(s.subrange(q + 5, ua) =~= user);
    assert(s.subrange(ua + 1, h) =~= host);
}

/// Rendering an address of the shape `token... <sip:user@host>` and parsing
/// the text gives the same address back, so parsing, rendering and parsing
/// again yields identical values.
pub proof fn lemma_simple_address_round_trip(ws: Seq<Seq<u8>>, user: Seq<u8>, host: Seq<u8>)
    requires
        token_words(ws),
        user.len() > 0,
        all_in_class(user, Class::User),
        all_in_class(host, Class::Host),
    ensures
        address_p(text_bytes(address_text(simple_address(ws, user, host))), 0) == Some(
            (simple_address_bytes(ws, user, host).len() as int, simple_address(ws, user, host)),
        ),
{
    lemma_simple_address_text(ws, user, host);
    lemma_simple_address_layout(ws, user, host);
    lemma_simple_address_reads(simple_address_bytes(ws, user, host), ws, user, host);
}

} // verus!

verus! {

pub proof fn lemma_sip_uri_reads(s: Seq<u8>, a: int, user: Seq<u8>, host: Seq<u8>)
    requires
        0 <= a,
        user.len() > 0,
        all_in_class(user, Class::User),
        all_in_class(host, Class::Host),
        a + 4 + user.len() + 1 + host.len() < s.len(),
        s.subrange(a, a + 4) == lit_sip(),
        s.subrange(a + 4, a + 4 + user.len()) == user,
        s[a + 4 + user.len()] == 0x40,
        s.subrange(a + 5 + user.len(), a + 5 + user.len() + host.len()) == host,
        ends_host(s[a + 5 + user.len() + host.len()]),
    ensures
        uri_p(s, a) == Some(
            (a + 5 + user.len() + host.len(), UriM::Sip(simple_sip_uri(user, host))),
        ),
{
    lemma_user_host(s, a + 4, user, host);
    assert(lit_at(s, a, lit_sip()));
}

/// `<sip:user@host>` where it stands at `p`, with nothing after it that
/// continues the address, reads as the address with an empty display name.
pub proof fn lemma_bracketed_address_reads(s: Seq<u8>, p: int, user: Seq<u8>, host: Seq<u8>)
    requires
        0 <= p,
        user.len() > 0,
        all_in_class(user, Class::User),
        all_in_class(host, Class::Host),
        p + 7 + user.len() + host.len() < s.len(),
        s[p] == 0x3c,
        s.subrange(p + 1, p + 5) == lit_sip(),
        s.subrange(p + 5, p + 5 + user.len()) == user,
        s[p + 5 + user.len()] == 0x40,
        s.subrange(p + 6 + user.len(), p + 6 + user.len() + host.len()) == host,
        s[p + 6 + user.len() + host.len()] == 0x3e,
        lws_end(s, p + 7 + user.len() + host.len()) is None,
        !in_class(Class::Token, s[p + 7 + user.len() + host.len()]),
    ensures
        address_p(s, p) == Some(
            (p + 7 + user.len() + host.len(), simple_address(Seq::empty(), user, host)),
        ),
{
    let h = p + 6 + user.len() + host.len();
    let n = h + 1;
    lemma_scan_exact(s, p, p, Class::Wsp);
    assert(!lit_at(s, p, crlf())) by {
        if lit_at(s, p, crlf()) {
            assert(s.subrange(p, p + 2)[0] == s[p]);
        }
    }
    assert(lws_end(s, p) is None);
    assert(quoted_end(s, p) is None);
    lemma_scan_exact(s, p, p, Class::Token);
    assert(plain_words_p(s, p) == (p, Seq::<Seq<char>>::empty()));
    assert(ascii_words(Seq::<Seq<u8>>::empty()) =~= Seq::<Seq<char>>::empty());
    assert(display_name_p(s, p) == (p, DisplayNameM::Plain(Seq::<char>::empty())));
    assert(laquot_end(s, p) == Some(p + 1));
    assert(ends_host(s[h]));
    lemma_sip_uri_reads(s, p + 1, user, host);
    assert(raquot_end(s, h) == Some(n));
    assert(name_addr_p(s, p) == Some((n, simple_address(Seq::empty(), user, host).spec)));
    lemma_scan_exact(s, n, n, Class::Token);
    assert(!lit_at(s, n, lit_tag())) by {
        if lit_at(s, n, lit_tag()) {
            assert(s.subrange(n, n + 3)[0] == s[n]);
        }
    }
    assert(param_p(s, n) is None);
    assert(params_p(s, n) == (n, Seq::<ParamM>::empty()));
}

} // verus!

verus! {

proof fn lemma_ascii_chars_is_ascii(b: Seq<u8>)
    requires
        all_ascii(b),
    ensures
        is_ascii_chars(ascii_chars(b)),
{
    assert forall|i: int| 0 <= i < ascii_chars(b).len() implies '\0' <= #[trigger] ascii_chars(
        b,
    )[i] <= '\u{7f}' by {
        let x = b[i];
        assert(x < 0x80);
        assert(ascii_chars(b)[i] == x as char);
    }
}

proof fn lemma_class_all_ascii(b: Seq<u8>, c: Class)
    requires
        all_in_class(b, c),
        c != Class::Wsp && c != Class::NotDquote,
    ensures
        all_ascii(b),
        is_ascii_chars(ascii_chars(b)),
{
    assert forall|k: int| 0 <= k < b.len() implies #[trigger] b[k] < 0x80 by {
        assert(in_class(c, b[k]));
    }
    lemma_ascii_chars_is_ascii(b);
}

proof fn lemma_join_is_ascii(ws: Seq<Seq<u8>>)
    requires
        token_words(ws),
    ensures
        is_ascii_chars(join_words(ascii_words(ws))),
    decreases ws.len(),
{
    let aw = ascii_words(ws);
    if ws.len() == 0 {
    } else {
        assert(ws[ws.len() - 1].len() > 0);
        lemma_class_all_ascii(ws.last(), Class::Token);
        if ws.len() == 1 {
            assert(join_words(aw) == aw[0]);
        } else {
            let init = ws.drop_last();
            assert(token_words(init)) by {
                assert forall|k: int| 0 <= k < init.len() implies #[trigger] init[k].len() > 0
                    && all_in_class(init[k], Class::Token) by {
                    assert(init[k] == ws[k]);
                }
            }
            lemma_join_is_ascii(init);
            assert(aw.drop_last() =~= ascii_words(init));
            let ji = join_words(ascii_words(init));
            let j = join_words(aw);
            assert(j == ji + seq![' '] + aw.last());
            assert forall|i: int| 0 <= i < j.len() implies '\0' <= #[trigger] j[i] <= '\u{7f}' by {
                if i < ji.len() {
                    assert(j[i] == ji[i]);
                } else if i == ji.len() {
                    assert(j[i] == ' ');
                } else {
                    assert(j[i] == aw.last()[i - ji.len() - 1]);
                }
            }
        }
    }
}

/// The UTF-8 bytes of an ASCII text are its bytes read one by one.
proof fn lemma_ascii_encode(t: Seq<char>)
    requires
        is_ascii_chars(t),
    ensures
        encode_utf8(t) == text_bytes(t),
{
    is_ascii_chars_encode_utf8(t);
    assert(encode_utf8(t) =~= text_bytes(t));
}

proof fn lemma_simple_address_text_ascii(ws: Seq<Seq<u8>>, user: Seq<u8>, host: Seq<u8>)
    requires
        token_words(ws),
        all_in_class(user, Class::User),
        all_in_class(host, Class::Host),
    ensures
        is_ascii_chars(address_text(simple_address(ws, user, host))),
{
    let m = simple_address(ws, user, host);
    let dn = join_words(ascii_words(ws));
    let pre = if dn.len() == 0 {
        Seq::<char>::empty()
    } else {
        dn + seq![' ']
    };
    let u = ascii_chars(user);
    let h = ascii_chars(host);
    let rest = seq!['<', 's', 'i', 'p', ':'] + u + seq!['@'] + h + seq!['>'];
    assert(uri_parameters_text(Seq::<UriParameterM>::empty()) == Seq::<char>::empty());
    assert(uri_headers_text(Seq::<UriHeaderM>::empty()) == Seq::<char>::empty());
    assert(params_text(m.params) == Seq::<char>::empty());
    assert(address_text(m) =~= pre + rest);
    lemma_join_is_ascii(ws);
    lemma_class_all_ascii(user, Class::User);
    lemma_class_all_ascii(host, Class::Host);
    assert(is_ascii_chars(pre)) by {
        assert forall|i: int| 0 <= i < pre.len() implies '\0' <= #[trigger] pre[i] <= '\u{7f}' by {
            if i < dn.len() {
                assert(pre[i] == dn[i]);
            }
        }
    }
    assert(is_ascii_chars(rest)) by {
        assert forall|k: int| 0 <= k < rest.len() implies '\0' <= #[trigger] rest[k] <= '\u{7f}' by {
            if 5 <= k < 5 + u.len() {
                assert(rest[k] == u[k - 5]);
            } else if 6 + u.len() <= k < 6 + u.len() + h.len() {
                assert(rest[k] == h[k - 6 - u.len()]);
            }
        }
    }
    is_ascii_chars_concat(address_text(m), pre, rest);
}

/// What `Address::parse(a.to_string().as_bytes())` reads for an address `a`
/// of the shape `token... <sip:user@host>` is `a` again: the UTF-8 bytes of
/// its rendering parse back to the same value, with nothing left over.
pub proof fn lemma_simple_address_idempotent(ws: Seq<Seq<u8>>, user: Seq<u8>, host: Seq<u8>)
    requires
        token_words(ws),
        user.len() > 0,
        all_in_class(user, Class::User),
        all_in_class(host, Class::Host),
    ensures
        address_p(encode_utf8(address_text(simple_address(ws, user, host))), 0) == Some(
            (
                encode_utf8(address_text(simple_address(ws, user, host))).len() as int,
                simple_address(ws, user, host),
            ),
        ),
{
    lemma_simple_address_text_ascii(ws, user, host);
    lemma_ascii_encode(address_text(simple_address(ws, user, host)));
    lemma_simple_address_text(ws, user, host);
    lemma_simple_address_round_trip(ws, user, host);
}

} // verus!

verus! {

/// Parse, render, parse again: the bytes `token... <sip:user@host>` parse to
/// an address whose rendering, in UTF-8, is those same bytes, so every later
/// parse gives the same address.
pub proof fn lemma_simple_address_parse_render_parse(
    ws: Seq<Seq<u8>>,
    user: Seq<u8>,
    host: Seq<u8>,
)
    requires
        token_words(ws),
        user.len() > 0,
        all_in_class(user, Class::User),
        all_in_class(host, Class::Host),
    ensures
        address_p(simple_address_bytes(ws, user, host), 0) == Some(
            (simple_address_bytes(ws, user, host).len() as int, simple_address(ws, user, host)),
        ),
        encode_utf8(address_text(simple_address(ws, user, host))) == simple_address_bytes(
            ws,
            user,
            host,
        ),
{
    lemma_simple_address_text(ws, user, host);
    lemma_simple_address_round_trip(ws, user, host);
    lemma_simple_address_text_ascii(ws, user, host);
    lemma_ascii_encode(address_text(simple_address(ws, user, host)));
}

} // verus!
