use vstd::prelude::*;
use crate::response::pair_views;
use crate::bytes::{
    bytes_eq, find_byte, find_first, lemma_find_first_bounds, lemma_find_first_concat,
};

verus! {

/// The request method. A token outside the four known ones reads as
/// `Uninitialized`.
#[derive(Debug, Clone, Copy, PartialEq, Eq, Structural)]
pub enum Method {
    Get,
    Post,
    Put,
    Delete,
    Uninitialized,
}

/// `GET`
pub open spec fn get_token() -> Seq<u8> {
    seq![71u8, 69u8, 84u8]
}

/// `POST`
pub open spec fn post_token() -> Seq<u8> {
    seq![80u8, 79u8, 83u8, 84u8]
}

/// `PUT`
pub open spec fn put_token() -> Seq<u8> {
    seq![80u8, 85u8, 84u8]
}

/// `DELETE`
pub open spec fn delete_token() -> Seq<u8> {
    seq![68u8, 69u8, 76u8, 69u8, 84u8, 69u8]
}

/// `/`, the resource of a request line that names none.
pub open spec fn root_path() -> Seq<u8> {
    seq![47u8]
}

/// The method that a request-line token names.
pub open spec fn method_of(t: Seq<u8>) -> Method {
    if t == get_token() {
        Method::Get
    } else if t == post_token() {
        Method::Post
    } else if t == put_token() {
        Method::Put
    } else if t == delete_token() {
        Method::Delete
    } else {
        Method::Uninitialized
    }
}

/// The token of a known method.
pub open spec fn method_token(m: Method) -> Seq<u8> {
    match m {
        Method::Get => get_token(),
        Method::Post => post_token(),
        Method::Put => put_token(),
        Method::Delete => delete_token(),
        Method::Uninitialized => Seq::empty(),
    }
}

/// ASCII whitespace: space, horizontal tab, line feed, vertical tab, form
/// feed and carriage return.
pub open spec fn is_ws(b: u8) -> bool {
    b == 32u8 || (9u8 <= b && b <= 13u8)
}

/// The tokenizer after reading `s`: the tokens already closed, and the one
/// still being read.
pub open spec fn token_state(s: Seq<u8>) -> (Seq<Seq<u8>>, Seq<u8>)
    decreases s.len(),
{
    if s.len() == 0 {
        (Seq::empty(), Seq::empty())
    } else {
        let prev = token_state(s.drop_last());
        if is_ws(s.last()) {
            if prev.1.len() > 0 {
                (prev.0.push(prev.1), Seq::empty())
            } else {
                prev
            }
        } else {
            (prev.0, prev.1.push(s.last()))
        }
    }
}

/// The whitespace-separated tokens of `s`, none of them empty.
pub open spec fn tokens(s: Seq<u8>) -> Seq<Seq<u8>> {
    let st = token_state(s);
    if st.1.len() > 0 {
        st.0.push(st.1)
    } else {
        st.0
    }
}

/// `s` without the whitespace at its front.
pub open spec fn trim_start(s: Seq<u8>) -> Seq<u8>
    decreases s.len(),
{
    if s.len() > 0 && is_ws(s[0]) {
        trim_start(s.drop_first())
    } else {
        s
    }
}

/// `s` without the whitespace at its end.
pub open spec fn trim_end(s: Seq<u8>) -> Seq<u8>
    decreases s.len(),
{
    if s.len() > 0 && is_ws(s.last()) {
        trim_end(s.drop_last())
    } else {
        s
    }
}

/// `s` without whitespace at either end.
pub open spec fn trim(s: Seq<u8>) -> Seq<u8> {
    trim_end(trim_start(s))
}

/// A line without the carriage return that may end it.
pub open spec fn strip_cr(line: Seq<u8>) -> Seq<u8> {
    if line.len() > 0 && line.last() == 13u8 {
        line.drop_last()
    } else {
        line
    }
}

/// Where the line that starts at `pos` ends: its line feed, or the end of `s`.
pub open spec fn line_end(s: Seq<u8>, pos: int) -> int {
    pos + find_first(s.subrange(pos, s.len() as int), 10u8)
}

/// A header line split at its first colon: the name is everything before
/// it, as received; the value is everything after it, trimmed.
pub open spec fn header_of(line: Seq<u8>) -> (Seq<u8>, Seq<u8>) {
    let c = find_first(line, 58u8);
    (line.subrange(0, c), trim(line.subrange(c + 1, line.len() as int)))
}

/// The header lines from `pos` up to the first blank line, and what follows
/// that blank line, if anything does.
pub open spec fn header_section(s: Seq<u8>, pos: int) -> (
    Seq<(Seq<u8>, Seq<u8>)>,
    Option<Seq<u8>>,
)
    decreases s.len() - pos,
{
    if pos < 0 || pos >= s.len() {
        (Seq::empty(), None)
    } else {
        let e = line_end(s, pos);
        if e < pos || e > s.len() {
            (Seq::empty(), None)
        } else if strip_cr(s.subrange(pos, e)).len() == 0 {
            (
                Seq::empty(),
                if e + 1 < s.len() {
                    Some(s.subrange(e + 1, s.len() as int))
                } else {
                    None
                },
            )
        } else {
            let line = strip_cr(s.subrange(pos, e));
            let rest = if e < s.len() {
                header_section(s, e + 1)
            } else {
                (Seq::empty(), None)
            };
            if line.contains(58u8) {
                (seq![header_of(line)] + rest.0, rest.1)
            } else {
                rest
            }
        }
    }
}

/// The headers as a mapping: a later line with the same name replaces an
/// earlier one.
pub open spec fn header_map(h: Seq<(Seq<u8>, Seq<u8>)>) -> Map<Seq<u8>, Seq<u8>>
    decreases h.len(),
{
    if h.len() == 0 {
        Map::empty()
    } else {
        header_map(h.drop_last()).insert(h.last().0, h.last().1)
    }
}

/// What a request is: each field as bytes, the headers in arrival order.
pub ghost struct RequestView {
    pub method: Method,
    pub resource: Seq<u8>,
    pub version: Seq<u8>,
    pub headers: Seq<(Seq<u8>, Seq<u8>)>,
    pub body: Option<Seq<u8>>,
}

/// The request that a buffer holds.
pub open spec fn parse_request(s: Seq<u8>) -> RequestView {
    let e = line_end(s, 0);
    let t = tokens(strip_cr(s.subrange(0, e)));
    let section = header_section(s, e + 1);
    RequestView {
        method: if t.len() > 0 {
            method_of(t[0])
        } else {
            Method::Uninitialized
        },
        resource: if t.len() > 1 {
            t[1]
        } else {
            root_path()
        },
        version: if t.len() > 2 {
            t[2]
        } else {
            Seq::empty()
        },
        headers: section.0,
        body: section.1,
    }
}

pub open spec fn byte_views(v: Seq<Vec<u8>>) -> Seq<Seq<u8>> {
    Seq::new(v.len(), |i: int| v[i]@)
}

fn copy_range(s: &[u8], lo: usize, hi: usize) -> (r: Vec<u8>)
    requires
        lo <= hi <= s@.len(),
    ensures
        r@ == s@.subrange(lo as int, hi as int),
{
    let mut out: Vec<u8> = Vec::new();
    let mut i: usize = lo;
    while i < hi
        invariant
            lo <= i <= hi <= s@.len(),
            out@ == s@.subrange(lo as int, i as int),
        decreases hi - i,
    {
        out.push(s[i]);
        i = i + 1;
        assert(out@ =~= s@.subrange(lo as int, i as int));
    }
    out
}

fn is_ws_byte(b: u8) -> (r: bool)
    ensures
        r == is_ws(b),
{
    b == 32u8 || (9u8 <= b && b <= 13u8)
}

/// The whitespace-separated tokens of `s[lo..hi]`.
fn tokenize(s: &[u8], lo: usize, hi: usize) -> (r: Vec<Vec<u8>>)
    requires
        lo <= hi <= s@.len(),
    ensures
        byte_views(r@) == tokens(s@.subrange(lo as int, hi as int)),
{
    let mut done: Vec<Vec<u8>> = Vec::new();
    let mut cur: Vec<u8> = Vec::new();
    let mut i: usize = lo;
    while i < hi
        invariant
            lo <= i <= hi <= s@.len(),
            (byte_views(done@), cur@) == token_state(s@.subrange(lo as int, i as int)),
        decreases hi - i,
    {
        let ghost prefix = s@.subrange(lo as int, i + 1);
        assert(prefix.drop_last() =~= s@.subrange(lo as int, i as int));
        assert(prefix.last() == s@[i as int]);
        let b = s[i];
        if is_ws_byte(b) {
            if cur.len() > 0 {
                let ghost before = done@;
                let token = cur;
                cur = Vec::new();
                done.push(token);
                assert(byte_views(done@) =~= byte_views(before).push(token@));
            }
        } else {
            cur.push(b);
        }
        i = i + 1;
    }
    if cur.len() > 0 {
        let ghost before = done@;
        done.push(cur);
        assert(byte_views(done@) =~= byte_views(before).push(cur@));
    }
    done
}

/// The bounds of `s[lo..hi]` with the whitespace at both ends left out.
fn trim_range(s: &[u8], lo: usize, hi: usize) -> (r: (usize, usize))
    requires
        lo <= hi <= s@.len(),
    ensures
        lo <= r.0 <= r.1 <= hi,
        s@.subrange(r.0 as int, r.1 as int) == trim(s@.subrange(lo as int, hi as int)),
{
    let mut a: usize = lo;
    while a < hi && is_ws_byte(s[a])
        invariant
            lo <= a <= hi <= s@.len(),
            trim_start(s@.subrange(lo as int, hi as int)) == trim_start(
                s@.subrange(a as int, hi as int),
            ),
        decreases hi - a,
    {
        assert(s@.subrange(a as int, hi as int).drop_first() =~= s@.subrange(a + 1, hi as int));
        a = a + 1;
    }
    let mut b: usize = hi;
    while b > a && is_ws_byte(s[b - 1])
        invariant
            lo <= a <= b <= hi <= s@.len(),
            trim_start(s@.subrange(lo as int, hi as int)) == s@.subrange(a as int, hi as int),
            trim(s@.subrange(lo as int, hi as int)) == trim_end(s@.subrange(a as int, b as int)),
        decreases b - a,
    {
        assert(s@.subrange(a as int, b as int).drop_last() =~= s@.subrange(a as int, b - 1));
        b = b - 1;
    }
    (a, b)
}

fn parse_header_line(s: &[u8], lo: usize, hi: usize) -> (r: (Vec<u8>, Vec<u8>))
    requires
        lo <= hi <= s@.len(),
        s@.subrange(lo as int, hi as int).contains(58u8),
    ensures
        (r.0@, r.1@) == header_of(s@.subrange(lo as int, hi as int)),
{
    let ghost line = s@.subrange(lo as int, hi as int);
    let c = find_byte(s, lo, hi, 58u8);
    proof {
        lemma_find_first_bounds(line, 58u8);
        if c == hi {
            let k = choose|k: int| 0 <= k < line.len() && line[k] == 58u8;
            assert(line[k] != 58u8);
        }
        assert(line.subrange(0, c - lo) =~= s@.subrange(lo as int, c as int));
        assert(line.subrange(c - lo + 1, line.len() as int) =~= s@.subrange(c + 1, hi as int));
    }
    let (x, y) = trim_range(s, c + 1, hi);
    (copy_range(s, lo, c), copy_range(s, x, y))
}

fn method_from(t: &[u8]) -> (r: Method)
    ensures
        r == method_of(t@),
{
    let get: Vec<u8> = vec![71u8, 69u8, 84u8];
    let post: Vec<u8> = vec![80u8, 79u8, 83u8, 84u8];
    let put: Vec<u8> = vec![80u8, 85u8, 84u8];
    let delete: Vec<u8> = vec![68u8, 69u8, 76u8, 69u8, 84u8, 69u8];
    if bytes_eq(t, get.as_slice()) {
        Method::Get
    } else if bytes_eq(t, post.as_slice()) {
        Method::Post
    } else if bytes_eq(t, put.as_slice()) {
        Method::Put
    } else if bytes_eq(t, delete.as_slice()) {
        Method::Delete
    } else {
        Method::Uninitialized
    }
}

/// A request as read from a connection.
#[derive(Debug, Clone)]
pub struct HttpRequest {
    pub method: Method,
    pub resource: Vec<u8>,
    pub version: Vec<u8>,
    pub headers: Vec<(Vec<u8>, Vec<u8>)>,
    pub body: Option<Vec<u8>>,
}

impl View for HttpRequest {
    type V = RequestView;

    open spec fn view(&self) -> RequestView {
        RequestView {
            method: self.method,
            resource: self.resource@,
            version: self.version@,
            headers: pair_views(self.headers@),
            body: match self.body {
                None => None,
                Some(b) => Some(b@),
            },
        }
    }
}

impl HttpRequest {
    /// Reads a request from the raw bytes of a connection. This never fails:
    /// what is missing or malformed reads as the default of its field.
    pub fn from_bytes(buf: &[u8]) -> (r: HttpRequest)
        ensures
            r@ == parse_request(buf@),
    {
        let n = buf.len();
        let e0 = find_byte(buf, 0, n, 10u8);
        let end0 = if e0 > 0 && buf[e0 - 1] == 13u8 {
            e0 - 1
        } else {
            e0
        };
        assert(buf@.subrange(0, e0 as int) =~= buf@.subrange(0, n as int).subrange(0, e0 as int));
        assert(strip_cr(buf@.subrange(0, e0 as int)) =~= buf@.subrange(0, end0 as int));
        assert(buf@.subrange(0, n as int) =~= buf@);
        let toks = tokenize(buf, 0, end0);
        let method = if toks.len() > 0 {
            method_from(toks[0].as_slice())
        } else {
            Method::Uninitialized
        };
        let resource = if toks.len() > 1 {
            copy_range(toks[1].as_slice(), 0, toks[1].len())
        } else {
            vec![47u8]
        };
        let version = if toks.len() > 2 {
            copy_range(toks[2].as_slice(), 0, toks[2].len())
        } else {
            Vec::new()
        };
        proof {
            if toks@.len() > 1 {
                assert(toks@[1]@.subrange(0, toks@[1]@.len() as int) =~= toks@[1]@);
            }
            if toks@.len() > 2 {
                assert(toks@[2]@.subrange(0, toks@[2]@.len() as int) =~= toks@[2]@);
            }
        }
        let ghost target = header_section(buf@, e0 + 1);
        let mut headers: Vec<(Vec<u8>, Vec<u8>)> = Vec::new();
        let mut body: Option<Vec<u8>> = None;
        let mut done = false;
        let mut pos: usize = if e0 < n {
            e0 + 1
        } else {
            n
        };
        while !done && pos < n
            invariant
                n == buf@.len(),
                pos <= n,
                !done ==> pair_views(headers@) + header_section(buf@, pos as int).0 == target.0,
                !done ==> header_section(buf@, pos as int).1 == target.1,
                !done ==> body.is_none(),
                done ==> pair_views(headers@) == target.0,
                done ==> target.1 == (match body {
                    None => None::<Seq<u8>>,
                    Some(b) => Some(b@),
                }),
            decreases n - pos,
        {
            let e = find_byte(buf, pos, n, 10u8);
            let endl = if e > pos && buf[e - 1] == 13u8 {
                e - 1
            } else {
                e
            };
            let ghost section = header_section(buf@, pos as int);
            assert(strip_cr(buf@.subrange(pos as int, e as int)) =~= buf@.subrange(
                pos as int,
                endl as int,
            ));
            if endl == pos {
                if e < n && e + 1 < n {
                    body = Some(copy_range(buf, e + 1, n));
                }
                done = true;
                pos = n;
            } else {
                let ghost line = buf@.subrange(pos as int, endl as int);
                let ghost next = if e < n {
                    e + 1
                } else {
                    n as int
                };
                assert(header_section(buf@, next) == (if e < n {
                    header_section(buf@, e + 1)
                } else {
                    (Seq::<(Seq<u8>, Seq<u8>)>::empty(), None::<Seq<u8>>)
                }));
                if has_colon(buf, pos, endl) {
                    let ghost before = pair_views(headers@);
                    let pair = parse_header_line(buf, pos, endl);
                    let ghost entry = (pair.0@, pair.1@);
                    headers.push(pair);
                    assert(pair_views(headers@) =~= before.push(entry));
                    assert(section.0 == seq![entry] + header_section(buf@, next).0);
                    assert(before + section.0 =~= pair_views(headers@) + header_section(
                        buf@,
                        next,
                    ).0);
                }
                pos = if e < n {
                    e + 1
                } else {
                    n
                };
            }
        }
        proof {
            if !done {
                assert(pair_views(headers@) + header_section(buf@, pos as int).0 =~= pair_views(
                    headers@,
                ));
            }
            let p = parse_request(buf@);
            assert(line_end(buf@, 0) == e0);
            assert(byte_views(toks@) == tokens(strip_cr(buf@.subrange(0, e0 as int))));
            assert(method == p.method);
            assert(resource@ == p.resource);
            assert(version@ == p.version);
            assert(pair_views(headers@) == p.headers);
        }
        HttpRequest { method, resource, version, headers, body }
    }

    /// The value of the header `name`: the last line that carries it wins.
    pub fn header(&self, name: &[u8]) -> (r: Option<&[u8]>)
        ensures
            match r {
                Some(v) => header_map(self@.headers).contains_key(name@) && header_map(
                    self@.headers,
                )[name@] == v@,
                None => !header_map(self@.headers).contains_key(name@),
            },
    {
        let ghost h = pair_views(self.headers@);
        let mut i: usize = self.headers.len();
        assert(h.subrange(0, i as int) =~= h);
        while i > 0
            invariant
                0 <= i <= h.len(),
                h.len() == self.headers@.len(),
                h == pair_views(self.headers@),
                header_map(h).contains_key(name@) == header_map(h.subrange(0, i as int)).contains_key(
                    name@,
                ),
                header_map(h).contains_key(name@) ==> header_map(h)[name@] == header_map(
                    h.subrange(0, i as int),
                )[name@],
            decreases i,
        {
            assert(h.subrange(0, i as int).drop_last() =~= h.subrange(0, i - 1));
            if bytes_eq(self.headers[i - 1].0.as_slice(), name) {
                return Some(self.headers[i - 1].1.as_slice());
            }
            i = i - 1;
        }
        assert(h.subrange(0, 0) =~= Seq::<(Seq<u8>, Seq<u8>)>::empty());
        None
    }
}

fn has_colon(s: &[u8], lo: usize, hi: usize) -> (r: bool)
    requires
        lo <= hi <= s@.len(),
    ensures
        r == s@.subrange(lo as int, hi as int).contains(58u8),
{
    let c = find_byte(s, lo, hi, 58u8);
    proof {
        let line = s@.subrange(lo as int, hi as int);
        lemma_find_first_bounds(line, 58u8);
        if c == hi && line.contains(58u8) {
            let k = choose|k: int| 0 <= k < line.len() && line[k] == 58u8;
            assert(line[k] != 58u8);
        }
    }
    c < hi
}

proof fn lemma_token_state_word(prefix: Seq<u8>, w: Seq<u8>)
    requires
        forall|i: int| 0 <= i < w.len() ==> !is_ws(#[trigger] w[i]),
    ensures
        token_state(prefix + w) == (token_state(prefix).0, token_state(prefix).1 + w),
    decreases w.len(),
{
    if w.len() == 0 {
        assert(prefix + w =~= prefix);
        assert(token_state(prefix).1 + w =~= token_state(prefix).1);
    } else {
        let w0 = w.drop_last();
        lemma_token_state_word(prefix, w0);
        assert((prefix + w).drop_last() =~= prefix + w0);
        assert(token_state(prefix).1 + w =~= (token_state(prefix).1 + w0).push(w.last()));
    }
}

proof fn lemma_no_byte(s: Seq<u8>, b: u8)
    requires
        forall|i: int| 0 <= i < s.len() ==> #[trigger] s[i] != b,
    ensures
        !s.contains(b),
{
}

/// A request line made of a known method, a resource and a version, none of
/// them holding whitespace or a line feed, reads back as exactly those three
/// fields, whatever follows the line.
pub proof fn lemma_request_line_round_trip(m: Seq<u8>, r: Seq<u8>, v: Seq<u8>, rest: Seq<u8>)
    requires
        m == get_token() || m == post_token() || m == put_token() || m == delete_token(),
        r.len() > 0,
        v.len() > 0,
        forall|i: int| 0 <= i < r.len() ==> !is_ws(#[trigger] r[i]) && r[i] != 10u8,
        forall|i: int| 0 <= i < v.len() ==> !is_ws(#[trigger] v[i]) && v[i] != 10u8,
    ensures
        ({
            let p = parse_request(m + seq![32u8] + r + seq![32u8] + v + seq![13u8, 10u8] + rest);
            &&& method_token(p.method) == m
            &&& p.resource == r
            &&& p.version == v
        }),
{
    let line = m + seq![32u8] + r + seq![32u8] + v;
    let s = line + seq![13u8, 10u8] + rest;
    assert(s =~= m + seq![32u8] + r + seq![32u8] + v + seq![13u8, 10u8] + rest);
    assert forall|i: int| 0 <= i < m.len() implies !is_ws(#[trigger] m[i]) && m[i] != 10u8 by {}
    let a = line.push(13u8);
    assert forall|i: int| 0 <= i < a.len() implies #[trigger] a[i] != 10u8 by {
        if i < m.len() {
            assert(a[i] == m[i]);
        } else if i == m.len() {
        } else if i < m.len() + 1 + r.len() {
            assert(a[i] == r[i - m.len() - 1]);
        } else if i == m.len() + 1 + r.len() {
        } else if i < line.len() {
            assert(a[i] == v[i - m.len() - 2 - r.len()]);
        }
    }
    lemma_no_byte(a, 10u8);
    assert(s =~= a + seq![10u8] + rest);
    lemma_find_first_concat(a, 10u8, rest);
    assert(s.subrange(0, s.len() as int) =~= s);
    assert(line_end(s, 0) == a.len());
    assert(strip_cr(s.subrange(0, a.len() as int)) =~= line);
    let e: Seq<u8> = Seq::empty();
    assert(token_state(e) == (Seq::<Seq<u8>>::empty(), e));
    lemma_token_state_word(e, m);
    assert(e + m =~= m);
    let m1 = m.push(32u8);
    assert(m1.drop_last() =~= m);
    assert(token_state(m1) == (seq![m], e));
    lemma_token_state_word(m1, r);
    let r1 = (m1 + r).push(32u8);
    assert(r1.drop_last() =~= m1 + r);
    assert(e + r =~= r);
    assert(token_state(r1) == (seq![m, r], e));
    lemma_token_state_word(r1, v);
    assert(r1 + v =~= line);
    assert(e + v =~= v);
    assert(tokens(line) =~= seq![m, r, v]);
}

} // verus!
