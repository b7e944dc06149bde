//! The header section: the headers in wire order, with an index from
//! lower-case name to positions.
use crate::header::{
    header_at, header_bytes, header_p, header_renderable, header_text, kind_of, lit_call_id,
    lit_content_length, lit_cseq, lit_f, lit_from, lit_i, lit_l, lit_max_forwards, lit_t, lit_to,
    lit_v, lit_via, lower, lower_vec, value_encoding_error, value_encoding_error_at, value_p,
    Header, HeaderM, Value, ValueM,
};
use crate::parse_utils::{
    crlf, crlf_at, lit_at, push_bytes, push_lit, rest_from, ErrorKind, ParseError, ParseResult,
};
use vstd::prelude::*;
use vstd::slice::slice_to_vec;

verus! {

broadcast use vstd::seq::group_seq_axioms;

/// The positions of the headers that share one lower-case name.
#[derive(Debug)]
struct IndexEntry {
    key: Vec<u8>,
    positions: Vec<usize>,
}

/// The headers of a message in wire order, duplicates kept, with a
/// case-insensitive index of their names.  The index is a vector of
/// (lower-case name, positions) pairs kept with distinct keys rather than a
/// `HashMap`: vstd models a `HashMap` only for keys that it knows obey its key
/// model (primitive integers and `bool`), which a name's bytes or `String`
/// do not, so lookups in such a map could not be proved.
#[derive(Debug)]
pub struct HeaderMap {
    index: Vec<IndexEntry>,
    entries: Vec<Header>,
}

impl View for HeaderMap {
    type V = Seq<HeaderM>;

    closed spec fn view(&self) -> Seq<HeaderM> {
        crate::parse_utils::views(self.entries@)
    }
}

/// Position `p` stands under some key of the index.
spec fn listed(ix: Seq<IndexEntry>, p: int) -> bool {
    exists|k: int, m: int|
        0 <= k < ix.len() && 0 <= m < ix[k].positions@.len() && #[trigger] ix[k].positions@[m] == p
}

/// The header at `p` has the lower-case name `key`.
pub open spec fn named(hs: Seq<HeaderM>, p: int, key: Seq<u8>) -> bool {
    0 <= p < hs.len() && lower(hs[p].name) == key
}

/// `p` is the first header named `key`.
pub open spec fn is_first(hs: Seq<HeaderM>, p: int, key: Seq<u8>) -> bool {
    named(hs, p, key) && forall|q: int| 0 <= q < p ==> !#[trigger] named(hs, q, key)
}

/// The position of the first header named `key`, if any.
pub open spec fn first_named(hs: Seq<HeaderM>, key: Seq<u8>) -> Option<int> {
    if exists|p: int| is_first(hs, p, key) {
        Some(choose|p: int| is_first(hs, p, key))
    } else {
        None
    }
}

/// The first header named `long`, else the first named `short`.
pub open spec fn first_of_names(hs: Seq<HeaderM>, long: Seq<u8>, short: Seq<u8>) -> Option<int> {
    match first_named(hs, long) {
        Some(p) => Some(p),
        None => first_named(hs, short),
    }
}

pub proof fn lemma_first_unique(hs: Seq<HeaderM>, p: int, key: Seq<u8>)
    requires
        is_first(hs, p, key),
    ensures
        first_named(hs, key) == Some(p),
{
    let c = choose|c: int| is_first(hs, c, key);
    assert(is_first(hs, c, key));
    if c < p {
        assert(named(hs, c, key));
    } else if p < c {
        assert(named(hs, p, key));
    }
}

pub proof fn lemma_none_named(hs: Seq<HeaderM>, key: Seq<u8>)
    requires
        forall|q: int| 0 <= q < hs.len() ==> !#[trigger] named(hs, q, key),
    ensures
        first_named(hs, key) is None,
{
    if exists|p: int| is_first(hs, p, key) {
        let p = choose|p: int| is_first(hs, p, key);
        assert(named(hs, p, key));
    }
}

/// A name spelled either of two ways, in any case.
pub open spec fn spelled(n: Seq<u8>, long: Seq<u8>, short: Seq<u8>) -> bool {
    lower(n) == long || lower(n) == short
}

/// header-section = *header CRLF: the end and the headers; or, at the first
/// line that is not a header, the error: a Via, To or From value that is not
/// UTF-8 at the value's offset, else a malformed header at the line's offset.
#[verifier::opaque]
pub open spec fn map_p(s: Seq<u8>, i: int) -> Result<(int, Seq<HeaderM>), (ErrorKind, int)>
    decreases s.len() - i,
{
    if lit_at(s, i, crlf()) {
        Ok((i + 2, seq![]))
    } else {
        match value_encoding_error(s, i) {
            Some(o) => Err((ErrorKind::Encoding, o)),
            None => match header_p(s, i) {
                Some((e, Some(h))) => if i < e <= s.len() {
                    match map_p(s, e) {
                        Ok((f, hs)) => Ok((f, seq![h] + hs)),
                        Err(x) => Err(x),
                    }
                } else {
                    Err((ErrorKind::Header, i))
                },
                _ => Err((ErrorKind::Header, i)),
            },
        }
    }
}

fn bytes_eq(a: &[u8], b: &[u8]) -> (r: bool)
    ensures
        r == (a@ == b@),
{
    if a.len() != b.len() {
        return false;
    }
    let mut k: usize = 0;
    while k < a.len()
        invariant
            k <= a@.len(),
            a@.len() == b@.len(),
            forall|j: int| 0 <= j < k ==> a@[j] == b@[j],
        decreases a@.len() - k,
    {
        if a[k] != b[k] {
            return false;
        }
        k += 1;
    }
    assert(a@ =~= b@);
    true
}

impl HeaderMap {
    /// The index agrees with the entries: every position under a key holds
    /// a header with that lower-case name, positions rise, every header is
    /// listed, and keys are distinct.
    pub closed spec fn wf(&self) -> bool {
        let hs = self@;
        let ix = self.index@;
        &&& forall|k: int| 0 <= k < ix.len() ==> #[trigger] ix[k].positions@.len() > 0
        &&& forall|k: int, m: int|
            0 <= k < ix.len() && 0 <= m < ix[k].positions@.len() ==> {
                let p = #[trigger] ix[k].positions@[m];
                &&& p < hs.len()
                &&& lower(hs[p as int].name) == ix[k].key@
            }
        &&& forall|k: int, m1: int, m2: int|
            0 <= k < ix.len() && 0 <= m1 < m2 < ix[k].positions@.len() ==> #[trigger] ix[k].positions@[m1]
                < #[trigger] ix[k].positions@[m2]
        &&& forall|p: int| 0 <= p < hs.len() ==> #[trigger] listed(ix, p)
        &&& forall|k1: int, k2: int|
            0 <= k1 < ix.len() && 0 <= k2 < ix.len() && k1 != k2 ==> #[trigger] ix[k1].key@
                != #[trigger] ix[k2].key@
    }

    /// An empty map.
    pub fn new() -> (r: HeaderMap)
        ensures
            r.wf(),
            r@ == Seq::<HeaderM>::empty(),
    {
        let r = HeaderMap { index: Vec::new(), entries: Vec::new() };
        assert(r@ =~= Seq::<HeaderM>::empty());
        r
    }

    /// The number of headers.
    pub fn len(&self) -> (r: usize)
        ensures
            r == self@.len(),
    {
        self.entries.len()
    }

    /// The header at position `p`.
    pub fn entry(&self, p: usize) -> (r: &Header)
        requires
            p < self@.len(),
        ensures
            r@ == self@[p as int],
    {
        &self.entries[p]
    }

    /// Where `key` stands in the index.
    fn find_key(&self, key: &[u8]) -> (r: Option<usize>)
        ensures
            match r {
                Some(k) => k < self.index@.len() && self.index@[k as int].key@ == key@,
                None => forall|k: int|
                    0 <= k < self.index@.len() ==> #[trigger] self.index@[k].key@ != key@,
            },
    {
        let mut k: usize = 0;
        while k < self.index.len()
            invariant
                k <= self.index@.len(),
                forall|j: int| 0 <= j < k ==> #[trigger] self.index@[j].key@ != key@,
            decreases self.index@.len() - k,
        {
            if bytes_eq(self.index[k].key.as_slice(), key) {
                return Some(k);
            }
            k += 1;
        }
        None
    }

    /// Appends a header, keeping the index in step.
    pub fn push(&mut self, h: Header)
        requires
            old(self).wf(),
        ensures
            final(self).wf(),
            final(self)@ == old(self)@.push(h@),
    {
        let ghost old_hs = self@;
        let ghost old_ix = self.index@;
        let n = self.entries.len();
        let key = lower_vec(h.name.as_bytes());
        let found = self.find_key(key.as_slice());
        self.entries.push(h);
        proof {
            assert(self@ =~= old_hs.push(h@));
        }
        match found {
            Some(k) => {
                let mut ps = slice_to_vec(self.index[k].positions.as_slice());
                let kk = slice_to_vec(self.index[k].key.as_slice());
                ps.push(n);
                self.index.set(k, IndexEntry { key: kk, positions: ps });
                proof {
                    let hs = self@;
                    let ix = self.index@;
                    assert forall|k2: int, m: int|
                        0 <= k2 < ix.len() && 0 <= m < ix[k2].positions@.len() implies {
                        let p = #[trigger] ix[k2].positions@[m];
                        &&& p < hs.len()
                        &&& lower(hs[p as int].name) == ix[k2].key@
                    } by {
                        if k2 != k || m < old_ix[k as int].positions@.len() {
                            let p = old_ix[k2].positions@[m];
                            assert(old_hs[p as int] == hs[p as int]);
                        }
                    }
                    assert forall|k2: int, m1: int, m2: int|
                        0 <= k2 < ix.len() && 0 <= m1 < m2 < ix[k2].positions@.len() implies #[trigger] ix[k2].positions@[m1]
                        < #[trigger] ix[k2].positions@[m2] by {
                        if k2 == k && m2 == old_ix[k as int].positions@.len() {
                            assert(old_ix[k2].positions@[m1] < old_hs.len());
                        } else {
                            assert(old_ix[k2].positions@[m1] < old_ix[k2].positions@[m2]);
                        }
                    }
                    assert forall|p: int| 0 <= p < hs.len() implies #[trigger] listed(ix, p) by {
                        if p == n {
                            let m = old_ix[k as int].positions@.len() as int;
                            assert(ix[k as int].positions@[m] == p);
                        } else {
                            assert(listed(old_ix, p));
                            let (k2, m) = choose|k2: int, m: int|
                                0 <= k2 < old_ix.len() && 0 <= m < old_ix[k2].positions@.len()
                                    && #[trigger] old_ix[k2].positions@[m] == p;
                            assert(ix[k2].positions@[m] == p);
                        }
                    }
                    assert forall|k1: int, k2: int|
                        0 <= k1 < ix.len() && 0 <= k2 < ix.len() && k1 != k2 implies #[trigger] ix[k1].key@
                        != #[trigger] ix[k2].key@ by {
                        assert(old_ix[k1].key@ != old_ix[k2].key@);
                    }
                }
            },
            None => {
                let mut ps: Vec<usize> = Vec::new();
                ps.push(n);
                self.index.push(IndexEntry { key, positions: ps });
                proof {
                    let hs = self@;
                    let ix = self.index@;
                    let last = old_ix.len() as int;
                    assert forall|k2: int, m: int|
                        0 <= k2 < ix.len() && 0 <= m < ix[k2].positions@.len() implies {
                        let p = #[trigger] ix[k2].positions@[m];
                        &&& p < hs.len()
                        &&& lower(hs[p as int].name) == ix[k2].key@
                    } by {
                        if k2 < last {
                            let p = old_ix[k2].positions@[m];
                            assert(old_hs[p as int] == hs[p as int]);
                        }
                    }
                    assert forall|k2: int, m1: int, m2: int|
                        0 <= k2 < ix.len() && 0 <= m1 < m2 < ix[k2].positions@.len() implies #[trigger] ix[k2].positions@[m1]
                        < #[trigger] ix[k2].positions@[m2] by {
                        if k2 < last {
                            assert(old_ix[k2].positions@[m1] < old_ix[k2].positions@[m2]);
                        }
                    }
                    assert forall|p: int| 0 <= p < hs.len() implies #[trigger] listed(ix, p) by {
                        if p == n {
                            assert(ix[last].positions@[0] == p);
                        } else {
                            assert(listed(old_ix, p));
                            let (k2, m) = choose|k2: int, m: int|
                                0 <= k2 < old_ix.len() && 0 <= m < old_ix[k2].positions@.len()
                                    && #[trigger] old_ix[k2].positions@[m] == p;
                            assert(ix[k2].positions@[m] == p);
                        }
                    }
                    assert forall|k1: int, k2: int|
                        0 <= k1 < ix.len() && 0 <= k2 < ix.len() && k1 != k2 implies #[trigger] ix[k1].key@
                        != #[trigger] ix[k2].key@ by {
                        if k1 < last && k2 < last {
                            assert(old_ix[k1].key@ != old_ix[k2].key@);
                        }
                    }
                }
            },
        }
    }

    /// The position of the first header whose lower-case name is `key`.
    fn first_position(&self, key: &[u8]) -> (r: Option<usize>)
        requires
            self.wf(),
        ensures
            match first_named(self@, key@) {
                Some(p) => r matches Some(x) && x as int == p && p < self@.len(),
                None => r is None,
            },
    {
        let hs = Ghost(self@);
        match self.find_key(key) {
            Some(k) => {
                let p = self.index[k].positions[0];
                proof {
                    let ix = self.index@;
                    assert(ix[k as int].positions@[0] == p);
                    assert forall|q: int| 0 <= q < p implies !#[trigger] named(hs@, q, key@) by {
                        if named(hs@, q, key@) {
                            assert(listed(ix, q));
                            let (k2, m) = choose|k2: int, m: int|
                                0 <= k2 < ix.len() && 0 <= m < ix[k2].positions@.len()
                                    && #[trigger] ix[k2].positions@[m] == q;
                            assert(lower(hs@[q].name) == ix[k2].key@);
                            if k2 != k {
                                assert(ix[k2].key@ != ix[k as int].key@);
                            }
                            if m > 0 {
                                assert(ix[k as int].positions@[0] < ix[k as int].positions@[m]);
                            }
                        }
                    }
                    assert(is_first(hs@, p as int, key@));
                    lemma_first_unique(hs@, p as int, key@);
                }
                Some(p)
            },
            None => {
                proof {
                    let ix = self.index@;
                    assert forall|q: int| 0 <= q < hs@.len() implies !#[trigger] named(
                        hs@,
                        q,
                        key@,
                    ) by {
                        assert(listed(ix, q));
                        let (k2, m) = choose|k2: int, m: int|
                            0 <= k2 < ix.len() && 0 <= m < ix[k2].positions@.len()
                                && #[trigger] ix[k2].positions@[m] == q;
                        assert(lower(hs@[q].name) == ix[k2].key@);
                    }
                    lemma_none_named(hs@, key@);
                }
                None
            },
        }
    }

    /// The first header whose lower-case name is `key`.
    fn get(&self, key: &[u8]) -> (r: Option<&Header>)
        requires
            self.wf(),
        ensures
            match first_named(self@, key@) {
                Some(p) => r matches Some(h) && h@ == self@[p],
                None => r is None,
            },
    {
        match self.first_position(key) {
            Some(p) => {
                assert(self@[p as int] == self.entries@[p as int]@);
                Some(&self.entries[p])
            },
            None => None,
        }
    }

    /// The first header named `long`, else the first named `short`.
    fn get_either(&self, long: &[u8], short: &[u8]) -> (r: Option<&Header>)
        requires
            self.wf(),
        ensures
            match first_of_names(self@, long@, short@) {
                Some(p) => r matches Some(h) && h@ == self@[p],
                None => r is None,
            },
    {
        match self.get(long) {
            Some(h) => Some(h),
            None => self.get(short),
        }
    }

    /// The value of the first header with the given name, in any case.
    pub fn raw_header_value(&self, header: &[u8]) -> (r: Option<&Value>)
        requires
            self.wf(),
        ensures
            match first_named(self@, lower(header@)) {
                Some(p) => r matches Some(v) && v@ == self@[p].value,
                None => r is None,
            },
    {
        let key = lower_vec(header);
        match self.get(key.as_slice()) {
            Some(h) => Some(&h.value),
            None => None,
        }
    }

    /// Every header whose lower-case name is `key`, in wire order.
    pub fn get_many(&self, key: &[u8]) -> (r: Vec<&Header>)
        requires
            self.wf(),
        ensures
            exists|ps: Seq<usize>| all_named_at(self@, key@, ps, r@),
    {
        let mut out: Vec<&Header> = Vec::new();
        match self.find_key(key) {
            Some(k) => {
                let n = self.index[k].positions.len();
                let mut m: usize = 0;
                while m < n
                    invariant
                        self.wf(),
                        k < self.index@.len(),
                        self.index@[k as int].key@ == key@,
                        n == self.index@[k as int].positions@.len(),
                        m <= n,
                        out@.len() == m,
                        forall|j: int|
                            0 <= j < m ==> #[trigger] out@[j]@ == self@[self.index@[k as int].positions@[j] as int],
                    decreases n - m,
                {
                    let p = self.index[k].positions[m];
                    out.push(&self.entries[p]);
                    m += 1;
                }
                proof {
                    let ix = self.index@;
                    let ps = ix[k as int].positions@;
                    assert forall|q: int| #[trigger] named(self@, q, key@) implies exists|j: int|
                        0 <= j < ps.len() && ps[j] == q by {
                        assert(listed(ix, q));
                        let (k2, m2) = choose|k2: int, m2: int|
                            0 <= k2 < ix.len() && 0 <= m2 < ix[k2].positions@.len()
                                && #[trigger] ix[k2].positions@[m2] == q;
                        if k2 != k {
                            assert(ix[k2].key@ != ix[k as int].key@);
                        }
                        assert(ps[m2] == q);
                    }
                    assert(all_named_at(self@, key@, ps, out@));
                }
                out
            },
            None => {
                proof {
                    let ix = self.index@;
                    assert forall|q: int| #[trigger] named(self@, q, key@) implies exists|j: int|
                        0 <= j < Seq::<usize>::empty().len() && Seq::<usize>::empty()[j] == q by {
                        assert(listed(ix, q));
                        let (k2, m2) = choose|k2: int, m2: int|
                            0 <= k2 < ix.len() && 0 <= m2 < ix[k2].positions@.len()
                                && #[trigger] ix[k2].positions@[m2] == q;
                        assert(lower(self@[q].name) == ix[k2].key@);
                    }
                    assert(all_named_at(self@, key@, Seq::<usize>::empty(), out@));
                }
                out
            },
        }
    }
}

/// The header named `long` or `short` is there.
pub open spec fn present(hs: Seq<HeaderM>, long: Seq<u8>, short: Seq<u8>) -> bool {
    exists|p: int| #[trigger] named_either(hs, p, long, short)
}

/// The header at `p` is named `long` or `short`.
pub open spec fn named_either(hs: Seq<HeaderM>, p: int, long: Seq<u8>, short: Seq<u8>) -> bool {
    named(hs, p, long) || named(hs, p, short)
}

pub proof fn lemma_some_first(hs: Seq<HeaderM>, p: int, key: Seq<u8>)
    requires
        named(hs, p, key),
    ensures
        first_named(hs, key) is Some,
    decreases p,
{
    if exists|q: int| 0 <= q < p && #[trigger] named(hs, q, key) {
        let q = choose|q: int| 0 <= q < p && #[trigger] named(hs, q, key);
        lemma_some_first(hs, q, key);
    } else {
        assert(is_first(hs, p, key));
    }
}

/// A lookup by either spelling finds something exactly when a header with
/// one of them is there.
pub proof fn lemma_present(hs: Seq<HeaderM>, long: Seq<u8>, short: Seq<u8>)
    ensures
        first_of_names(hs, long, short) is Some <==> present(hs, long, short),
        first_of_names(hs, long, short) matches Some(p) ==> (named(hs, p, long) || named(
            hs,
            p,
            short,
        )),
{
    if present(hs, long, short) {
        let p = choose|p: int| #[trigger] named_either(hs, p, long, short);
        if named(hs, p, long) {
            lemma_some_first(hs, p, long);
        } else {
            lemma_some_first(hs, p, short);
        }
    }
    if exists|p: int| is_first(hs, p, long) {
        let c = choose|c: int| is_first(hs, c, long);
        assert(first_named(hs, long) == Some(c));
        assert(named_either(hs, c, long, short));
        assert(present(hs, long, short));
    } else if exists|p: int| is_first(hs, p, short) {
        let c = choose|c: int| is_first(hs, c, short);
        assert(first_named(hs, short) == Some(c));
        assert(named(hs, c, short));
        assert(named_either(hs, c, long, short));
        assert(present(hs, long, short));
    }
}

/// Lookup is case-insensitive and alias-aware: when exactly one header is
/// named `long` or `short`, in any case, a lookup by those names finds it,
/// whichever spelling it was written with.
pub proof fn lemma_lookup_alias_aware(hs: Seq<HeaderM>, p: int, long: Seq<u8>, short: Seq<u8>)
    requires
        0 <= p < hs.len(),
        spelled(hs[p].name, long, short),
        forall|q: int| 0 <= q < hs.len() && q != p ==> !spelled(#[trigger] hs[q].name, long, short),
    ensures
        first_of_names(hs, long, short) == Some(p),
{
    if lower(hs[p].name) == long {
        assert forall|q: int| 0 <= q < p implies !#[trigger] named(hs, q, long) by {
            assert(!spelled(hs[q].name, long, short));
        }
        lemma_first_unique(hs, p, long);
    } else {
        assert forall|q: int| 0 <= q < hs.len() implies !#[trigger] named(hs, q, long) by {
            if q != p {
                assert(!spelled(hs[q].name, long, short));
            }
        }
        lemma_none_named(hs, long);
        assert forall|q: int| 0 <= q < p implies !#[trigger] named(hs, q, short) by {
            assert(!spelled(hs[q].name, long, short));
        }
        lemma_first_unique(hs, p, short);
    }
}

pub proof fn lemma_map_bounds(s: Seq<u8>, i: int)
    ensures
        map_p(s, i) is Ok ==> 0 <= i <= map_p(s, i)->Ok_0.0 <= s.len(),
    decreases s.len() - i,
{
    reveal(map_p);
    assert(crlf().len() == 2);
    if lit_at(s, i, crlf()) {
        assert(map_p(s, i)->Ok_0.0 == i + 2);
    } else if value_encoding_error(s, i) is None {
        if i < 0 {
            crate::header::lemma_header_negative(s, i);
        }
        match header_p(s, i) {
            Some((e, Some(h))) => {
                if i < e <= s.len() {
                    lemma_map_bounds(s, e);
                    if map_p(s, e) is Ok {
                        assert(map_p(s, i)->Ok_0.0 == map_p(s, e)->Ok_0.0);
                    }
                }
            },
            _ => {},
        }
    }
}

/// An empty line at once ends the header section, with no header.
pub proof fn lemma_empty_line_ends_headers(s: Seq<u8>, i: int)
    requires
        lit_at(s, i, crlf()),
    ensures
        map_p(s, i) == Ok::<(int, Seq<HeaderM>), (ErrorKind, int)>(
            (i + 2, Seq::<HeaderM>::empty()),
        ),
{
    reveal(map_p);
}

/// `r` holds, in order, the headers at the rising positions `ps`, which are
/// exactly the positions of the headers named `key`.
pub open spec fn all_named_at(hs: Seq<HeaderM>, key: Seq<u8>, ps: Seq<usize>, r: Seq<&Header>) -> bool {
    &&& ps.len() == r.len()
    &&& forall|j: int| 0 <= j < ps.len() ==> named(hs, #[trigger] ps[j] as int, key) && r[j]@ == hs[ps[j] as int]
    &&& forall|j1: int, j2: int| 0 <= j1 < j2 < ps.len() ==> #[trigger] ps[j1] < #[trigger] ps[j2]
    &&& forall|q: int| #[trigger] named(hs, q, key) ==> exists|j: int| 0 <= j < ps.len() && ps[j] == q
}

/// Positions of the six headers every request carries, and of Content-Length.
pub open spec fn to_pos(hs: Seq<HeaderM>) -> Option<int> {
    first_of_names(hs, lit_to(), lit_t())
}

pub open spec fn from_pos(hs: Seq<HeaderM>) -> Option<int> {
    first_of_names(hs, lit_from(), lit_f())
}

pub open spec fn via_pos(hs: Seq<HeaderM>) -> Option<int> {
    first_of_names(hs, lit_via(), lit_v())
}

pub open spec fn call_id_pos(hs: Seq<HeaderM>) -> Option<int> {
    first_of_names(hs, lit_call_id(), lit_i())
}

pub open spec fn cseq_pos(hs: Seq<HeaderM>) -> Option<int> {
    first_named(hs, lit_cseq())
}

pub open spec fn max_forwards_pos(hs: Seq<HeaderM>) -> Option<int> {
    first_named(hs, lit_max_forwards())
}

pub open spec fn content_length_pos(hs: Seq<HeaderM>) -> Option<int> {
    first_of_names(hs, lit_content_length(), lit_l())
}

/// The declared body length: the value of the first Content-Length header.
pub open spec fn content_length_of(hs: Seq<HeaderM>) -> Option<usize> {
    match content_length_pos(hs) {
        Some(p) => match hs[p].value {
            ValueM::ContentLength(n) => Some(n),
            _ => None,
        },
        None => None,
    }
}

/// The body length that the headers declare: Content-Length, 0 when absent.
pub open spec fn declared_length(hs: Seq<HeaderM>) -> nat {
    match content_length_of(hs) {
        Some(n) => n as nat,
        None => 0,
    }
}

/// `r` is the header at `pos`, or nothing when `pos` is.
pub open spec fn found_at(hs: Seq<HeaderM>, pos: Option<int>, r: Option<&Header>) -> bool {
    match pos {
        Some(p) => r matches Some(h) && h@ == hs[p],
        None => r is None,
    }
}

impl HeaderMap {
    /// The declared body length: the value of Content-Length (or `l`), and 0
    /// when there is none; never `None`.
    pub fn content_length(&self) -> (r: Option<usize>)
        requires
            self.wf(),
        ensures
            r == Some(declared_length(self@) as usize),
            declared_length(self@) <= usize::MAX,
    {
        let long: [u8; 14] = [
            0x63, 0x6f, 0x6e, 0x74, 0x65, 0x6e, 0x74, 0x2d, 0x6c, 0x65, 0x6e, 0x67, 0x74, 0x68,
        ];
        let short: [u8; 1] = [0x6c];
        assert(long@ =~= lit_content_length());
        assert(short@ =~= lit_l());
        match self.get_either(long.as_slice(), short.as_slice()) {
            Some(h) => match &h.value {
                Value::ContentLength(n) => Some(*n),
                _ => Some(0),
            },
            None => Some(0),
        }
    }

    /// Via (or `v`).
    pub fn via(&self) -> (r: Option<&Header>)
        requires
            self.wf(),
        ensures
            found_at(self@, via_pos(self@), r),
    {
        let long: [u8; 3] = [0x76, 0x69, 0x61];
        let short: [u8; 1] = [0x76];
        assert(long@ =~= lit_via());
        assert(short@ =~= lit_v());
        self.get_either(long.as_slice(), short.as_slice())
    }

    /// To (or `t`).
    pub fn to(&self) -> (r: Option<&Header>)
        requires
            self.wf(),
        ensures
            found_at(self@, to_pos(self@), r),
    {
        let long: [u8; 2] = [0x74, 0x6f];
        let short: [u8; 1] = [0x74];
        assert(long@ =~= lit_to());
        assert(short@ =~= lit_t());
        self.get_either(long.as_slice(), short.as_slice())
    }

    /// From (or `f`).
    pub fn from(&self) -> (r: Option<&Header>)
        requires
            self.wf(),
        ensures
            found_at(self@, from_pos(self@), r),
    {
        let long: [u8; 4] = [0x66, 0x72, 0x6f, 0x6d];
        let short: [u8; 1] = [0x66];
        assert(long@ =~= lit_from());
        assert(short@ =~= lit_f());
        self.get_either(long.as_slice(), short.as_slice())
    }

    /// CSeq.
    pub fn cseq(&self) -> (r: Option<&Header>)
        requires
            self.wf(),
        ensures
            found_at(self@, cseq_pos(self@), r),
    {
        let long: [u8; 4] = [0x63, 0x73, 0x65, 0x71];
        assert(long@ =~= lit_cseq());
        self.get(long.as_slice())
    }

    /// Call-ID (or `i`).
    pub fn call_id(&self) -> (r: Option<&Header>)
        requires
            self.wf(),
        ensures
            found_at(self@, call_id_pos(self@), r),
    {
        let long: [u8; 7] = [0x63, 0x61, 0x6c, 0x6c, 0x2d, 0x69, 0x64];
        let short: [u8; 1] = [0x69];
        assert(long@ =~= lit_call_id());
        assert(short@ =~= lit_i());
        self.get_either(long.as_slice(), short.as_slice())
    }

    /// Max-Forwards.
    pub fn max_forwards(&self) -> (r: Option<&Header>)
        requires
            self.wf(),
        ensures
            found_at(self@, max_forwards_pos(self@), r),
    {
        let long: [u8; 12] = [0x6d, 0x61, 0x78, 0x2d, 0x66, 0x6f, 0x72, 0x77, 0x61, 0x72, 0x64, 0x73];
        assert(long@ =~= lit_max_forwards());
        self.get(long.as_slice())
    }

    /// To, From, CSeq, Call-ID, Max-Forwards and Via, which every request
    /// carries: all six, or nothing when one is missing.
    pub fn sip_sweet_six(&self) -> (r: Option<(&Header, &Header, &Header, &Header, &Header, &Header)>)
        requires
            self.wf(),
        ensures
            r is Some <==> (present(self@, lit_to(), lit_t()) && present(self@, lit_from(), lit_f())
                && present(self@, lit_cseq(), lit_cseq()) && present(
                self@,
                lit_call_id(),
                lit_i(),
            ) && present(self@, lit_max_forwards(), lit_max_forwards()) && present(
                self@,
                lit_via(),
                lit_v(),
            )),
            r matches Some((to, from, cseq, call_id, max_forwards, via)) ==> found_at(
                self@,
                to_pos(self@),
                Some(to),
            ) && found_at(self@, from_pos(self@), Some(from)) && found_at(
                self@,
                cseq_pos(self@),
                Some(cseq),
            ) && found_at(self@, call_id_pos(self@), Some(call_id)) && found_at(
                self@,
                max_forwards_pos(self@),
                Some(max_forwards),
            ) && found_at(self@, via_pos(self@), Some(via)),
    {
        proof {
            lemma_present(self@, lit_to(), lit_t());
            lemma_present(self@, lit_from(), lit_f());
            lemma_present(self@, lit_cseq(), lit_cseq());
            lemma_present(self@, lit_call_id(), lit_i());
            lemma_present(self@, lit_max_forwards(), lit_max_forwards());
            lemma_present(self@, lit_via(), lit_v());
        }
        let to = match self.to() {
            Some(h) => h,
            None => return None,
        };
        let from = match self.from() {
            Some(h) => h,
            None => return None,
        };
        let cseq = match self.cseq() {
            Some(h) => h,
            None => return None,
        };
        let call_id = match self.call_id() {
            Some(h) => h,
            None => return None,
        };
        let max_forwards = match self.max_forwards() {
            Some(h) => h,
            None => return None,
        };
        let via = match self.via() {
            Some(h) => h,
            None => return None,
        };
        Some((to, from, cseq, call_id, max_forwards, via))
    }
}

/// Parses the header section from `i`: the end and the map, or the offset of
/// the first line that is not a header.
pub fn header_map_at(s: &[u8], i: usize) -> (r: Result<(usize, HeaderMap), (ErrorKind, usize)>)
    requires
        i <= s.len(),
    ensures
        match map_p(s@, i as int) {
            Ok((e, hs)) => r matches Ok((e2, m)) && e2 == e && m@ == hs && m.wf() && e <= s.len(),
            Err((k, o)) => r == Err::<(usize, HeaderMap), (ErrorKind, usize)>((k, o as usize)) && i
                <= o <= s.len(),
        },
{
    reveal(map_p);
    let mut k = i;
    let mut map = HeaderMap::new();
    while k <= s.len()
        invariant
            i <= k <= s.len(),
            map.wf(),
            map_p(s@, i as int) == match map_p(s@, k as int) {
                Ok((f, hs)) => Ok((f, map@ + hs)),
                Err(x) => Err(x),
            },
        decreases s.len() + 1 - k,
    {
        proof {
            reveal(map_p);
        }
        if crlf_at(s, k) {
            assert(map@ + seq![] =~= map@);
            return Ok((k + 2, map));
        }
        if let Some(a) = value_encoding_error_at(s, k) {
            return Err((ErrorKind::Encoding, a));
        }
        match header_at(s, k) {
            Some((e, Some(h))) => {
                let ghost old_map = map@;
                map.push(h);
                proof {
                    assert(map@ =~= old_map.push(h@));
                    if let Ok((f, hs)) = map_p(s@, e as int) {
                        assert(map@ + hs =~= old_map + (seq![h@] + hs));
                    }
                }
                k = e;
            },
            _ => {
                return Err((ErrorKind::Header, k));
            },
        }
    }
    Err((ErrorKind::Header, k))
}

impl HeaderMap {
    /// The header section, up to and including the empty line that ends it.
    pub fn parse(src: &[u8]) -> (r: ParseResult<HeaderMap>)
        ensures
            match map_p(src@, 0) {
                Ok((e, hs)) => r matches Ok((rest, m)) && rest@ == src@.subrange(
                    e,
                    src@.len() as int,
                ) && m@ == hs && m.wf(),
                Err((k, o)) => r matches Err(err) && err.kind == k && err.offset == o,
            },
    {
        match header_map_at(src, 0) {
            Ok((e, m)) => Ok((rest_from(src, e), m)),
            Err((k, o)) => Err(ParseError { kind: k, offset: o }),
        }
    }
}

} // verus!

verus! {

/// Each header line with its CRLF.
pub open spec fn header_lines_text(hs: Seq<HeaderM>) -> Seq<char>
    decreases hs.len(),
{
    if hs.len() == 0 {
        seq![]
    } else {
        header_lines_text(hs.drop_last()) + header_text(hs.last()) + seq!['\r', '\n']
    }
}

/// The header section: the header lines and the empty line.
pub open spec fn header_section_text(hs: Seq<HeaderM>) -> Seq<char> {
    header_lines_text(hs) + seq!['\r', '\n']
}

pub open spec fn headers_renderable(hs: Seq<HeaderM>) -> bool {
    forall|p: int| 0 <= p < hs.len() ==> header_renderable(#[trigger] hs[p])
}

impl HeaderMap {
    pub fn write(&self, out: &mut String) -> (ok: bool)
        ensures
            ok == headers_renderable(self@),
            ok ==> final(out)@ == old(out)@ + header_section_text(self@),
    {
        let ghost start = out@;
        let n = self.entries.len();
        let mut k: usize = 0;
        while k < n
            invariant
                n == self.entries@.len(),
                k <= n,
                forall|p: int| 0 <= p < k ==> header_renderable(#[trigger] self@[p]),
                out@ == start + header_lines_text(self@.subrange(0, k as int)),
            decreases n - k,
        {
            assert(self@[k as int] == self.entries@[k as int]@);
            if !self.entries[k].write(out) {
                return false;
            }
            push_lit(out, "\r\n");
            proof {
                reveal_strlit("\r\n");
                let hs = self@.subrange(0, k + 1);
                assert(hs.drop_last() =~= self@.subrange(0, k as int));
            }
            k += 1;
        }
        push_lit(out, "\r\n");
        proof {
            reveal_strlit("\r\n");
            assert(self@.subrange(0, n as int) =~= self@);
        }
        true
    }

    /// The header section as written on the wire, when every header renders.
    pub fn to_string(&self) -> (r: Option<String>)
        ensures
            match r {
                Some(t) => headers_renderable(self@) && t@ == header_section_text(self@),
                None => !headers_renderable(self@),
            },
    {
        let mut out = String::new();
        if self.write(&mut out) {
            assert(out@ =~= header_section_text(self@));
            Some(out)
        } else {
            None
        }
    }
}

} // verus!

verus! {

/// Header lines that each read back, one after another, then the empty
/// line: the header section reads back as those headers, in order.
pub proof fn lemma_header_lines_read(s: Seq<u8>, ps: Seq<int>, hs: Seq<HeaderM>)
    requires
        ps.len() == hs.len() + 1,
        0 <= ps[0],
        forall|j: int| 0 <= j < hs.len() ==> #[trigger] ps[j] < ps[j + 1] <= s.len(),
        forall|j: int|
            0 <= j < hs.len() ==> header_p(s, #[trigger] ps[j]) == Some(
                (ps[j + 1], Some(hs[j])),
            ) && value_encoding_error(s, ps[j]) is None,
        lit_at(s, ps.last(), crlf()),
    ensures
        map_p(s, ps[0]) == Ok::<(int, Seq<HeaderM>), (ErrorKind, int)>((ps.last() + 2, hs)),
    decreases hs.len(),
{
    reveal(map_p);
    if hs.len() == 0 {
        assert(hs =~= Seq::<HeaderM>::empty());
    } else {
        let i = ps[0];
        assert(header_p(s, ps[0]) == Some((ps[1], Some(hs[0]))));
        crate::header::lemma_header_line_not_empty(s, i);
        let ps2 = ps.drop_first();
        let hs2 = hs.drop_first();
        assert forall|j: int| 0 <= j < hs2.len() implies #[trigger] ps2[j] < ps2[j + 1] <= s.len() by {
            assert(ps2[j] == ps[j + 1]);
            assert(ps2[j + 1] == ps[j + 2]);
        }
        assert forall|j: int| 0 <= j < hs2.len() implies header_p(s, #[trigger] ps2[j]) == Some(
            (ps2[j + 1], Some(hs2[j])),
        ) && value_encoding_error(s, ps2[j]) is None by {
            assert(ps2[j] == ps[j + 1]);
            assert(header_p(s, ps[j + 1]) == Some((ps[j + 2], Some(hs[j + 1]))));
        }
        assert(ps2.last() == ps.last());
        lemma_header_lines_read(s, ps2, hs2);
        assert(hs =~= seq![hs[0]] + hs2);
    }
}

} // verus!

verus! {

/// Two header sections that differ only in how one header's name is spelled
/// (its long or compact form, in any case), with no other header named
/// either way: a lookup by those names finds that header in both, and both
/// hold the same value.
pub proof fn lemma_alias_spellings_agree(
    hs1: Seq<HeaderM>,
    hs2: Seq<HeaderM>,
    p: int,
    long: Seq<u8>,
    short: Seq<u8>,
)
    requires
        hs1.len() == hs2.len(),
        0 <= p < hs1.len(),
        forall|q: int| 0 <= q < hs1.len() && q != p ==> #[trigger] hs1[q] == hs2[q],
        hs1[p].value == hs2[p].value,
        spelled(hs1[p].name, long, short),
        spelled(hs2[p].name, long, short),
        forall|q: int| 0 <= q < hs1.len() && q != p ==> !spelled(#[trigger] hs1[q].name, long, short),
    ensures
        first_of_names(hs1, long, short) == Some(p),
        first_of_names(hs2, long, short) == Some(p),
        hs1[first_of_names(hs1, long, short)->0].value == hs2[first_of_names(
            hs2,
            long,
            short,
        )->0].value,
{
    lemma_lookup_alias_aware(hs1, p, long, short);
    assert forall|q: int| 0 <= q < hs2.len() && q != p implies !spelled(
        #[trigger] hs2[q].name,
        long,
        short,
    ) by {
        assert(hs1[q] == hs2[q]);
    }
    lemma_lookup_alias_aware(hs2, p, long, short);
}

/// Both spellings of a name select the same typed decoder, so the same value
/// bytes decode to the same value under either.
pub proof fn lemma_alias_spellings_decode_alike(n1: Seq<u8>, n2: Seq<u8>)
    requires
        (spelled(n1, lit_to(), lit_t()) && spelled(n2, lit_to(), lit_t())) || (spelled(
            n1,
            lit_from(),
            lit_f(),
        ) && spelled(n2, lit_from(), lit_f())) || (spelled(n1, lit_via(), lit_v()) && spelled(
            n2,
            lit_via(),
            lit_v(),
        )) || (spelled(n1, lit_call_id(), lit_i()) && spelled(n2, lit_call_id(), lit_i())) || (
        spelled(n1, lit_content_length(), lit_l()) && spelled(n2, lit_content_length(), lit_l())),
    ensures
        kind_of(n1) == kind_of(n2),
        forall|s: Seq<u8>, a: int| value_p(kind_of(n1), s, a) == value_p(kind_of(n2), s, a),
{
    assert(lit_via() != lit_to() && lit_v() != lit_to() && lit_via() != lit_t() && lit_v() != lit_t()) by {
        assert(lit_via().len() != lit_to().len());
        assert(lit_v()[0] != lit_to()[0]);
        assert(lit_via().len() != lit_t().len());
        assert(lit_v()[0] != lit_t()[0]);
    }
    assert(lit_from() != lit_via() && lit_from() != lit_v() && lit_from() != lit_to() && lit_from()
        != lit_t() && lit_f() != lit_via() && lit_f() != lit_v() && lit_f() != lit_to() && lit_f()
        != lit_t()) by {
        assert(lit_from().len() != lit_via().len());
        assert(lit_from().len() != lit_v().len());
        assert(lit_from().len() != lit_to().len());
        assert(lit_from().len() != lit_t().len());
        assert(lit_f().len() != lit_via().len());
        assert(lit_f()[0] != lit_v()[0]);
        assert(lit_f().len() != lit_to().len());
        assert(lit_f()[0] != lit_t()[0]);
    }
    assert(lit_call_id() != lit_via() && lit_call_id() != lit_v() && lit_call_id() != lit_to()
        && lit_call_id() != lit_t() && lit_call_id() != lit_from() && lit_call_id() != lit_f()
        && lit_call_id() != lit_cseq()) by {
        assert(lit_call_id().len() == 7);
    }
    assert(lit_i() != lit_via() && lit_i() != lit_v() && lit_i() != lit_to() && lit_i() != lit_t()
        && lit_i() != lit_from() && lit_i() != lit_f() && lit_i() != lit_cseq()) by {
        assert(lit_i()[0] != lit_v()[0]);
        assert(lit_i()[0] != lit_t()[0]);
        assert(lit_i()[0] != lit_f()[0]);
        assert(lit_i().len() == 1);
    }
    assert(lit_content_length() != lit_via() && lit_content_length() != lit_v()
        && lit_content_length() != lit_to() && lit_content_length() != lit_t()
        && lit_content_length() != lit_from() && lit_content_length() != lit_f()
        && lit_content_length() != lit_cseq() && lit_content_length() != lit_call_id()
        && lit_content_length() != lit_i() && lit_content_length() != lit_max_forwards()) by {
        assert(lit_content_length().len() == 14);
        assert(lit_content_length()[0] != lit_i()[0]);
    }
    assert(lit_l() != lit_via() && lit_l() != lit_v() && lit_l() != lit_to() && lit_l() != lit_t()
        && lit_l() != lit_from() && lit_l() != lit_f() && lit_l() != lit_cseq() && lit_l()
        != lit_call_id() && lit_l() != lit_i() && lit_l() != lit_max_forwards()) by {
        assert(lit_l()[0] != lit_v()[0]);
        assert(lit_l()[0] != lit_t()[0]);
        assert(lit_l()[0] != lit_f()[0]);
        assert(lit_l()[0] != lit_i()[0]);
        assert(lit_l().len() == 1);
    }
}

} // verus!

verus! {

/// Each header line's bytes with its CRLF.
pub open spec fn header_lines_bytes(hs: Seq<HeaderM>) -> Seq<u8>
    decreases hs.len(),
{
    if hs.len() == 0 {
        seq![]
    } else {
        header_lines_bytes(hs.drop_last()) + header_bytes(hs.last()) + crlf()
    }
}

/// The header section on the wire: the header lines and the empty line.
pub open spec fn header_section_bytes(hs: Seq<HeaderM>) -> Seq<u8> {
    header_lines_bytes(hs) + crlf()
}

impl HeaderMap {
    /// Appends the header section as bytes; never fails.
    pub fn write_bytes(&self, out: &mut Vec<u8>)
        ensures
            final(out)@ == old(out)@ + header_section_bytes(self@),
    {
        let ghost start = out@;
        let crlf_bytes: [u8; 2] = [0x0d, 0x0a];
        assert(crlf_bytes@ =~= crlf());
        let n = self.entries.len();
        let mut k: usize = 0;
        while k < n
            invariant
                n == self.entries@.len(),
                k <= n,
                crlf_bytes@ == crlf(),
                out@ == start + header_lines_bytes(self@.subrange(0, k as int)),
            decreases n - k,
        {
            assert(self@[k as int] == self.entries@[k as int]@);
            self.entries[k].write_bytes(out);
            push_bytes(out, crlf_bytes.as_slice());
            proof {
                let hs = self@.subrange(0, k + 1);
                assert(hs.drop_last() =~= self@.subrange(0, k as int));
            }
            k += 1;
        }
        push_bytes(out, crlf_bytes.as_slice());
        assert(self@.subrange(0, n as int) =~= self@);
    }

    /// The header section as bytes.
    pub fn to_bytes(&self) -> (r: Vec<u8>)
        ensures
            r@ == header_section_bytes(self@),
    {
        let mut out: Vec<u8> = Vec::new();
        self.write_bytes(&mut out);
        assert(out@ =~= header_section_bytes(self@));
        out
    }
}

} // verus!
