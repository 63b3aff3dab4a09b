use vstd::prelude::*;
use vstd::utf8::{
    char_is_scalar, char_u32_cast, encode_scalar, encode_utf8, has_width_1_encoding, is_scalar,
};
use crate::bytes::{
    append_bytes, append_decimal, bytes_eq, colon, crlf, decimal, find_first,
    lemma_find_first_concat, sp,
};

verus! {

/// `HTTP/1.1`
pub open spec fn http11() -> Seq<u8> {
    seq![72u8, 84u8, 84u8, 80u8, 47u8, 49u8, 46u8, 49u8]
}

/// `200`
pub open spec fn code_ok() -> Seq<u8> {
    seq![50u8, 48u8, 48u8]
}

/// `400`
pub open spec fn code_bad_request() -> Seq<u8> {
    seq![52u8, 48u8, 48u8]
}

/// `404`
pub open spec fn code_not_found() -> Seq<u8> {
    seq![52u8, 48u8, 52u8]
}

/// `500`
pub open spec fn code_server_error() -> Seq<u8> {
    seq![53u8, 48u8, 48u8]
}

/// `OK`
pub open spec fn text_ok() -> Seq<u8> {
    seq![79u8, 75u8]
}

/// `Bad Request`
pub open spec fn text_bad_request() -> Seq<u8> {
    seq![66u8, 97u8, 100u8, 32u8, 82u8, 101u8, 113u8, 117u8, 101u8, 115u8, 116u8]
}

/// `Not Found`
pub open spec fn text_not_found() -> Seq<u8> {
    seq![78u8, 111u8, 116u8, 32u8, 70u8, 111u8, 117u8, 110u8, 100u8]
}

/// `Internal Server Error`
pub open spec fn text_server_error() -> Seq<u8> {
    seq![
        73u8, 110u8, 116u8, 101u8, 114u8, 110u8, 97u8, 108u8, 32u8, 83u8, 101u8, 114u8, 118u8,
        101u8, 114u8, 32u8, 69u8, 114u8, 114u8, 111u8, 114u8,
    ]
}

/// `Content-Type`
pub open spec fn content_type() -> Seq<u8> {
    seq![67u8, 111u8, 110u8, 116u8, 101u8, 110u8, 116u8, 45u8, 84u8, 121u8, 112u8, 101u8]
}

/// `text/html`
pub open spec fn text_html() -> Seq<u8> {
    seq![116u8, 101u8, 120u8, 116u8, 47u8, 104u8, 116u8, 109u8, 108u8]
}

/// `Content-Length: `, the label in front of the computed body length.
pub open spec fn content_length_label() -> Seq<u8> {
    seq![
        67u8, 111u8, 110u8, 116u8, 101u8, 110u8, 116u8, 45u8, 76u8, 101u8, 110u8, 103u8, 116u8,
        104u8, 58u8, 32u8,
    ]
}

/// The reason phrase that goes with a status code. Every code outside the
/// table falls back to `Not Found`.
pub open spec fn status_text_of(code: Seq<u8>) -> Seq<u8> {
    if code == code_ok() {
        text_ok()
    } else if code == code_bad_request() {
        text_bad_request()
    } else if code == code_not_found() {
        text_not_found()
    } else if code == code_server_error() {
        text_server_error()
    } else {
        text_not_found()
    }
}

/// The header set injected when a response is built without one.
pub open spec fn default_headers() -> Seq<(Seq<u8>, Seq<u8>)> {
    seq![(content_type(), text_html())]
}

/// The header lines `name:value\r\n`, in the order given.
pub open spec fn header_lines(h: Seq<(Seq<u8>, Seq<u8>)>) -> Seq<u8>
    decreases h.len(),
{
    if h.len() == 0 {
        Seq::empty()
    } else {
        header_lines(h.drop_last()) + h.last().0 + colon() + h.last().1 + crlf()
    }
}

/// The status line `version code text\r\n`.
pub open spec fn status_line(version: Seq<u8>, code: Seq<u8>, text: Seq<u8>) -> Seq<u8> {
    version + sp() + code + sp() + text + crlf()
}

/// The bytes of a header set as UTF-8, pair by pair.
pub open spec fn encoded_pairs(h: Seq<(String, String)>) -> Seq<(Seq<u8>, Seq<u8>)> {
    Seq::new(h.len(), |i: int| (encode_utf8(h[i].0@), encode_utf8(h[i].1@)))
}

/// The bytes of stored header pairs.
pub open spec fn pair_views(h: Seq<(Vec<u8>, Vec<u8>)>) -> Seq<(Seq<u8>, Seq<u8>)> {
    Seq::new(h.len(), |i: int| (h[i].0@, h[i].1@))
}

/// What a response is: each field as bytes.
pub ghost struct ResponseView {
    pub version: Seq<u8>,
    pub status_code: Seq<u8>,
    pub status_text: Seq<u8>,
    pub headers: Seq<(Seq<u8>, Seq<u8>)>,
    pub body: Option<Seq<u8>>,
}

impl ResponseView {
    /// The body, empty where there is none.
    pub open spec fn body_bytes(self) -> Seq<u8> {
        match self.body {
            None => Seq::empty(),
            Some(b) => b,
        }
    }

    /// The header lines.
    pub open spec fn header_bytes(self) -> Seq<u8> {
        header_lines(self.headers)
    }

    /// The full wire form of the response. The length is always that of the
    /// body, never a stored header.
    pub open spec fn wire(self) -> Seq<u8> {
        status_line(self.version, self.status_code, self.status_text) + self.header_bytes()
            + content_length_label() + decimal(self.body_bytes().len()) + crlf() + crlf()
            + self.body_bytes()
    }
}

/// The header set after adding one pair: it replaces the value of a header
/// of the same name in place, or is appended.
pub open spec fn merge_pair(acc: Seq<(Seq<u8>, Seq<u8>)>, p: (Seq<u8>, Seq<u8>)) -> Seq<
    (Seq<u8>, Seq<u8>),
> {
    let i = find_name(acc, p.0);
    if i < acc.len() {
        acc.update(i, p)
    } else {
        acc.push(p)
    }
}

/// Index of the first header named `k`, or `h.len()`.
pub open spec fn find_name(h: Seq<(Seq<u8>, Seq<u8>)>, k: Seq<u8>) -> int
    decreases h.len(),
{
    if h.len() == 0 {
        0
    } else if h[0].0 == k {
        0
    } else {
        1 + find_name(h.drop_first(), k)
    }
}

/// A list of header pairs read as a mapping: pairs are added in order, and a
/// later pair replaces an earlier one of the same name.
pub open spec fn merged(h: Seq<(Seq<u8>, Seq<u8>)>) -> Seq<(Seq<u8>, Seq<u8>)>
    decreases h.len(),
{
    if h.len() == 0 {
        Seq::empty()
    } else {
        merge_pair(merged(h.drop_last()), h.last())
    }
}

/// No two headers share a name.
pub open spec fn names_distinct(h: Seq<(Seq<u8>, Seq<u8>)>) -> bool {
    forall|i: int, j: int| 0 <= i < j < h.len() ==> h[i].0 != h[j].0
}

proof fn lemma_find_name_at(h: Seq<(Seq<u8>, Seq<u8>)>, k: Seq<u8>, j: int)
    requires
        0 <= j <= h.len(),
        forall|t: int| 0 <= t < j ==> h[t].0 != k,
        j == h.len() || h[j].0 == k,
    ensures
        find_name(h, k) == j,
    decreases h.len(),
{
    if h.len() > 0 && j > 0 {
        lemma_find_name_at(h.drop_first(), k, j - 1);
    }
}

fn copy_bytes(v: &Vec<u8>) -> (r: Vec<u8>)
    ensures
        r@ == v@,
{
    let mut out: Vec<u8> = Vec::new();
    append_bytes(&mut out, v.as_slice());
    assert(out@ =~= v@);
    out
}

fn merge_headers(h: &Vec<(Vec<u8>, Vec<u8>)>) -> (r: Vec<(Vec<u8>, Vec<u8>)>)
    ensures
        pair_views(r@) == merged(pair_views(h@)),
        names_distinct(pair_views(r@)),
{
    let ghost hv = pair_views(h@);
    let mut out: Vec<(Vec<u8>, Vec<u8>)> = Vec::new();
    let mut i: usize = 0;
    assert(hv.subrange(0, 0) =~= Seq::<(Seq<u8>, Seq<u8>)>::empty());
    while i < h.len()
        invariant
            0 <= i <= h@.len(),
            hv == pair_views(h@),
            pair_views(out@) == merged(hv.subrange(0, i as int)),
            names_distinct(pair_views(out@)),
        decreases h@.len() - i,
    {
        let name = copy_bytes(&h[i].0);
        let value = copy_bytes(&h[i].1);
        let mut j: usize = 0;
        while j < out.len() && !bytes_eq(out[j].0.as_slice(), name.as_slice())
            invariant
                0 <= j <= out@.len(),
                forall|t: int| 0 <= t < j ==> out@[t].0@ != name@,
            decreases out@.len() - j,
        {
            j = j + 1;
        }
        let ghost prev = pair_views(out@);
        let ghost entry = (name@, value@);
        proof {
            lemma_find_name_at(prev, name@, j as int);
            assert(hv.subrange(0, i + 1).drop_last() =~= hv.subrange(0, i as int));
            assert(hv.subrange(0, i + 1).last() == entry);
        }
        if j < out.len() {
            out.set(j, (name, value));
            assert(pair_views(out@) =~= prev.update(j as int, entry));
            assert forall|t: int| 0 <= t < prev.len() implies #[trigger] pair_views(out@)[t].0
                == prev[t].0 by {}

        } else {
            out.push((name, value));
            assert(pair_views(out@) =~= prev.push(entry));
            assert forall|t: int| 0 <= t < prev.len() implies #[trigger] prev[t].0 != name@ by {}
        }
        i = i + 1;
    }
    assert(hv.subrange(0, h@.len() as int) =~= hv);
    out
}

/// An HTTP response, ready to be written to a connection.
#[derive(Debug, Clone, PartialEq, Eq)]
pub struct HttpResponse {
    version: Vec<u8>,
    status_code: Vec<u8>,
    status_text: Vec<u8>,
    headers: Vec<(Vec<u8>, Vec<u8>)>,
    body: Option<Vec<u8>>,
}

impl View for HttpResponse {
    type V = ResponseView;

    closed spec fn view(&self) -> ResponseView {
        ResponseView {
            version: self.version@,
            status_code: self.status_code@,
            status_text: self.status_text@,
            headers: pair_views(self.headers@),
            body: match self.body {
                None => None,
                Some(b) => Some(b@),
            },
        }
    }
}

pub(crate) fn string_bytes(s: &String) -> (r: Vec<u8>)
    ensures
        r@ == encode_utf8(s@),
{
    s.as_str().as_bytes_vec()
}

fn status_text_for(code: &[u8]) -> (r: Vec<u8>)
    ensures
        r@ == status_text_of(code@),
{
    let ok: Vec<u8> = vec![50u8, 48u8, 48u8];
    let bad_request: Vec<u8> = vec![52u8, 48u8, 48u8];
    let not_found: Vec<u8> = vec![52u8, 48u8, 52u8];
    let server_error: Vec<u8> = vec![53u8, 48u8, 48u8];
    if bytes_eq(code, ok.as_slice()) {
        vec![79u8, 75u8]
    } else if bytes_eq(code, bad_request.as_slice()) {
        vec![66u8, 97u8, 100u8, 32u8, 82u8, 101u8, 113u8, 117u8, 101u8, 115u8, 116u8]
    } else if bytes_eq(code, not_found.as_slice()) {
        vec![78u8, 111u8, 116u8, 32u8, 70u8, 111u8, 117u8, 110u8, 100u8]
    } else if bytes_eq(code, server_error.as_slice()) {
        vec![
            73u8, 110u8, 116u8, 101u8, 114u8, 110u8, 97u8, 108u8, 32u8, 83u8, 101u8, 114u8,
            118u8, 101u8, 114u8, 32u8, 69u8, 114u8, 114u8, 111u8, 114u8,
        ]
    } else {
        vec![78u8, 111u8, 116u8, 32u8, 70u8, 111u8, 117u8, 110u8, 100u8]
    }
}

fn default_header_set() -> (r: Vec<(Vec<u8>, Vec<u8>)>)
    ensures
        pair_views(r@) == default_headers(),
{
    let name: Vec<u8> = vec![
        67u8, 111u8, 110u8, 116u8, 101u8, 110u8, 116u8, 45u8, 84u8, 121u8, 112u8, 101u8,
    ];
    let value: Vec<u8> = vec![116u8, 101u8, 120u8, 116u8, 47u8, 104u8, 116u8, 109u8, 108u8];
    let mut h: Vec<(Vec<u8>, Vec<u8>)> = Vec::new();
    h.push((name, value));
    assert(pair_views(h@) =~= default_headers());
    h
}

fn header_set_bytes(h: &Vec<(String, String)>) -> (r: Vec<(Vec<u8>, Vec<u8>)>)
    ensures
        pair_views(r@) == encoded_pairs(h@),
{
    let mut out: Vec<(Vec<u8>, Vec<u8>)> = Vec::new();
    let mut i: usize = 0;
    while i < h.len()
        invariant
            0 <= i <= h@.len(),
            pair_views(out@) =~= encoded_pairs(h@).subrange(0, i as int),
        decreases h@.len() - i,
    {
        let name = string_bytes(&h[i].0);
        let value = string_bytes(&h[i].1);
        let ghost prev = out@;
        let ghost entry = (name@, value@);
        out.push((name, value));
        assert(pair_views(out@) =~= pair_views(prev).push(entry));
        i = i + 1;
        assert(encoded_pairs(h@).subrange(0, i as int) =~= encoded_pairs(h@).subrange(
            0,
            i - 1,
        ).push(entry));
    }
    assert(encoded_pairs(h@).subrange(0, h@.len() as int) =~= encoded_pairs(h@));
    out
}

impl Default for HttpResponse {
    /// `HTTP/1.1 200 OK`, with no headers and no body.
    fn default() -> (r: HttpResponse)
        ensures
            r@ == (ResponseView {
                version: http11(),
                status_code: code_ok(),
                status_text: text_ok(),
                headers: Seq::empty(),
                body: None,
            }),
    {
        let r = HttpResponse {
            version: vec![72u8, 84u8, 84u8, 80u8, 47u8, 49u8, 46u8, 49u8],
            status_code: vec![50u8, 48u8, 48u8],
            status_text: vec![79u8, 75u8],
            headers: Vec::new(),
            body: None,
        };
        assert(pair_views(r.headers@) =~= Seq::<(Seq<u8>, Seq<u8>)>::empty());
        r
    }
}

impl HttpResponse {
    /// Builds a response. The reason phrase follows from the status code, a
    /// missing header set is replaced by `Content-Type:text/html`, and of two
    /// headers with the same name the later one replaces the earlier.
    pub fn new(status_code: &str, headers: Option<Vec<(String, String)>>, body: Option<String>) -> (r:
        HttpResponse)
        ensures
            r@.version == http11(),
            r@.status_code == encode_utf8(status_code@),
            r@.status_text == status_text_of(encode_utf8(status_code@)),
            r@.headers == match headers {
                None => default_headers(),
                Some(h) => merged(encoded_pairs(h@)),
            },
            r@.body == (match body {
                None => None::<Seq<u8>>,
                Some(b) => Some(encode_utf8(b@)),
            }),
            names_distinct(r@.headers),
    {
        let code = status_code.as_bytes_vec();
        let header_set = match &headers {
            None => None,
            Some(h) => Some(header_set_bytes(h)),
        };
        let body_bytes = match &body {
            None => None,
            Some(b) => Some(string_bytes(b)),
        };
        HttpResponse::with_code(code, header_set, body_bytes)
    }

    /// Builds a response from fields already held as bytes, by the same rules
    /// as `new`.
    pub fn with_code(
        status_code: Vec<u8>,
        headers: Option<Vec<(Vec<u8>, Vec<u8>)>>,
        body: Option<Vec<u8>>,
    ) -> (r: HttpResponse)
        ensures
            r@ == (ResponseView {
                version: http11(),
                status_code: status_code@,
                status_text: status_text_of(status_code@),
                headers: match headers {
                    None => default_headers(),
                    Some(h) => merged(pair_views(h@)),
                },
                body: match body {
                    None => None,
                    Some(b) => Some(b@),
                },
            }),
            names_distinct(r@.headers),
    {
        let text = status_text_for(status_code.as_slice());
        let header_set = match &headers {
            None => default_header_set(),
            Some(h) => merge_headers(h),
        };
        HttpResponse {
            version: vec![72u8, 84u8, 84u8, 80u8, 47u8, 49u8, 46u8, 49u8],
            status_code,
            status_text: text,
            headers: header_set,
            body,
        }
    }

    /// The protocol version, `HTTP/1.1`.
    pub fn version(&self) -> (r: &[u8])
        ensures
            r@ == self@.version,
    {
        self.version.as_slice()
    }

    /// The status code as given to `new`.
    pub fn status_code(&self) -> (r: &[u8])
        ensures
            r@ == self@.status_code,
    {
        self.status_code.as_slice()
    }

    /// The reason phrase that goes with the status code.
    pub fn status_text(&self) -> (r: &[u8])
        ensures
            r@ == self@.status_text,
    {
        self.status_text.as_slice()
    }

    /// The body, empty where the response has none.
    pub fn body(&self) -> (r: &[u8])
        ensures
            r@ == self@.body_bytes(),
    {
        match &self.body {
            None => &[],
            Some(b) => b.as_slice(),
        }
    }

    /// The header lines, `name:value\r\n` each, in stored order.
    pub fn headers(&self) -> (r: Vec<u8>)
        ensures
            r@ == self@.header_bytes(),
    {
        let mut out: Vec<u8> = Vec::new();
        append_header_lines(&mut out, &self.headers);
        out
    }

    /// The complete wire form: status line, header lines, the computed
    /// `Content-Length`, a blank line and the body.
    pub fn to_bytes(&self) -> (r: Vec<u8>)
        ensures
            r@ == self@.wire(),
    {
        let mut out: Vec<u8> = Vec::new();
        append_bytes(&mut out, self.version.as_slice());
        out.push(32u8);
        append_bytes(&mut out, self.status_code.as_slice());
        out.push(32u8);
        append_bytes(&mut out, self.status_text.as_slice());
        out.push(13u8);
        out.push(10u8);
        let header_bytes = self.headers();
        append_bytes(&mut out, header_bytes.as_slice());
        let label: Vec<u8> = vec![
            67u8, 111u8, 110u8, 116u8, 101u8, 110u8, 116u8, 45u8, 76u8, 101u8, 110u8, 103u8,
            116u8, 104u8, 58u8, 32u8,
        ];
        append_bytes(&mut out, label.as_slice());
        let body = self.body();
        append_decimal(&mut out, body.len());
        out.push(13u8);
        out.push(10u8);
        out.push(13u8);
        out.push(10u8);
        append_bytes(&mut out, body);
        assert(out@ =~= self@.wire());
        out
    }

    /// Writes the wire form to `write_stream` in one buffered write. A write
    /// failure is returned as it came.
    pub fn send_response<W: std::io::Write>(&self, write_stream: &mut W) -> std::io::Result<()> {
        let bytes = self.to_bytes();
        write_all(write_stream, bytes.as_slice())
    }
}

fn append_header_lines(out: &mut Vec<u8>, h: &Vec<(Vec<u8>, Vec<u8>)>)
    ensures
        final(out)@ == old(out)@ + header_lines(pair_views(h@)),
{
    let mut i: usize = 0;
    while i < h.len()
        invariant
            0 <= i <= h@.len(),
            out@ == old(out)@ + header_lines(pair_views(h@).subrange(0, i as int)),
        decreases h@.len() - i,
    {
        let ghost before = out@;
        append_bytes(out, h[i].0.as_slice());
        out.push(58u8);
        append_bytes(out, h[i].1.as_slice());
        out.push(13u8);
        out.push(10u8);
        let ghost done = pair_views(h@).subrange(0, i + 1);
        assert(done.drop_last() =~= pair_views(h@).subrange(0, i as int));
        assert(out@ =~= before + h@[i as int].0@ + colon() + h@[i as int].1@ + crlf());
        i = i + 1;
    }
    assert(pair_views(h@).subrange(0, h@.len() as int) =~= pair_views(h@));
}

/// std::io::Error, carried through unopened from the write to the caller.
#[verifier::external_type_specification]
#[verifier::external_body]
pub struct ExIoError(std::io::Error);

/// Relies on std::io::Write::write_all: hands every byte to the stream, or
/// reports the error that stopped it.
#[verifier::external_body]
fn write_all<W: std::io::Write>(w: &mut W, b: &[u8]) -> std::io::Result<()> {
    w.write_all(b)
}

/// The three fields of a status line read back from the front of `w`: up to
/// the first space, up to the next space, and up to the carriage return.
pub open spec fn status_line_fields(w: Seq<u8>) -> (Seq<u8>, Seq<u8>, Seq<u8>) {
    let i1 = find_first(w, 32u8);
    let rest1 = w.subrange(i1 + 1, w.len() as int);
    let i2 = find_first(rest1, 32u8);
    let rest2 = rest1.subrange(i2 + 1, rest1.len() as int);
    let i3 = find_first(rest2, 13u8);
    (w.subrange(0, i1), rest1.subrange(0, i2), rest2.subrange(0, i3))
}

/// The reason phrase table: 200, 400, 404 and 500 have their own phrase, and
/// any other code reads `Not Found`.
pub proof fn lemma_status_text_table(other: Seq<u8>)
    requires
        other != code_ok(),
        other != code_bad_request(),
        other != code_not_found(),
        other != code_server_error(),
    ensures
        status_text_of(code_ok()) == text_ok(),
        status_text_of(code_bad_request()) == text_bad_request(),
        status_text_of(code_not_found()) == text_not_found(),
        status_text_of(code_server_error()) == text_server_error(),
        status_text_of(other) == text_not_found(),
{
    assert(code_bad_request() != code_ok()) by {
        assert(code_bad_request()[0] != code_ok()[0]);
    }
    assert(code_not_found() != code_ok()) by {
        assert(code_not_found()[0] != code_ok()[0]);
    }
    assert(code_not_found() != code_bad_request()) by {
        assert(code_not_found()[2] != code_bad_request()[2]);
    }
    assert(code_server_error() != code_ok()) by {
        assert(code_server_error()[0] != code_ok()[0]);
    }
    assert(code_server_error() != code_bad_request()) by {
        assert(code_server_error()[0] != code_bad_request()[0]);
    }
    assert(code_server_error() != code_not_found()) by {
        assert(code_server_error()[0] != code_not_found()[0]);
    }
}

/// The `Content-Length` of the wire form reads back as the number of bytes in
/// the body, the empty body included: the label is followed by the decimal
/// digits of that number, then the blank line and exactly the body.
pub proof fn lemma_content_length(r: ResponseView)
    ensures
        ({
            let w = r.wire();
            let n = r.body_bytes().len();
            let k = (status_line(r.version, r.status_code, r.status_text).len()
                + r.header_bytes().len() + content_length_label().len()) as int;
            let d = decimal(n).len() as int;
            &&& w.subrange(k - content_length_label().len(), k) == content_length_label()
            &&& crate::bytes::decimal_value(w.subrange(k, k + d)) == n
            &&& w.subrange(k + d, k + d + 4) == crlf() + crlf()
            &&& w.subrange(k + d + 4, w.len() as int) == r.body_bytes()
        }),
{
    let w = r.wire();
    let n = r.body_bytes().len();
    let head = status_line(r.version, r.status_code, r.status_text) + r.header_bytes();
    let k = (head.len() + content_length_label().len()) as int;
    let d = decimal(n).len() as int;
    crate::bytes::lemma_decimal_value(n);
    assert(w =~= head + content_length_label() + decimal(n) + (crlf() + crlf())
        + r.body_bytes());
    assert(w.subrange(k - content_length_label().len(), k) =~= content_length_label());
    assert(w.subrange(k, k + d) =~= decimal(n));
    assert(w.subrange(k + d, k + d + 4) =~= crlf() + crlf());
    assert(w.subrange(k + d + 4, w.len() as int) =~= r.body_bytes());
}

proof fn lemma_status_text_has_no_cr(code: Seq<u8>)
    ensures
        !status_text_of(code).contains(13u8),
{
    let t = status_text_of(code);
    assert forall|k: int| 0 <= k < t.len() implies t[k] != 13u8 by {
        if t == text_ok() {
        } else if t == text_bad_request() {
        } else if t == text_server_error() {
        } else {
        }
    }
}

proof fn lemma_version_has_no_space()
    ensures
        !http11().contains(32u8),
{
    assert forall|k: int| 0 <= k < http11().len() implies http11()[k] != 32u8 by {}
}

proof fn lemma_fields_round_trip(v: Seq<u8>, c: Seq<u8>, t: Seq<u8>, tail: Seq<u8>)
    requires
        !v.contains(32u8),
        !c.contains(32u8),
        !t.contains(13u8),
    ensures
        status_line_fields(status_line(v, c, t) + tail) == (v, c, t),
{
    let w = status_line(v, c, t) + tail;
    let rest_t = t + seq![13u8] + (seq![10u8] + tail);
    let rest0 = c + seq![32u8] + rest_t;
    assert(w =~= v + seq![32u8] + rest0);
    lemma_find_first_concat(v, 32u8, rest0);
    let rest1 = w.subrange(v.len() + 1int, w.len() as int);
    assert(rest1 =~= rest0);
    lemma_find_first_concat(c, 32u8, rest_t);
    let rest2 = rest1.subrange(c.len() + 1int, rest1.len() as int);
    assert(rest2 =~= rest_t);
    lemma_find_first_concat(t, 13u8, seq![10u8] + tail);
    assert(w.subrange(0, v.len() as int) =~= v);
    assert(rest1.subrange(0, c.len() as int) =~= c);
    assert(rest2.subrange(0, t.len() as int) =~= t);
}

/// Serializing a response and reading its status line back gives the same
/// version, status code and reason phrase, for every status code that holds
/// no space and no carriage return.
pub proof fn lemma_status_line_round_trip(r: ResponseView)
    requires
        r.version == http11(),
        r.status_text == status_text_of(r.status_code),
        !r.status_code.contains(32u8),
        !r.status_code.contains(13u8),
    ensures
        status_line_fields(r.wire()) == (r.version, r.status_code, r.status_text),
{
    let tail = r.header_bytes() + content_length_label() + decimal(r.body_bytes().len())
        + crlf() + crlf() + r.body_bytes();
    assert(r.wire() =~= status_line(r.version, r.status_code, r.status_text) + tail);
    lemma_version_has_no_space();
    lemma_status_text_has_no_cr(r.status_code);
    lemma_fields_round_trip(r.version, r.status_code, r.status_text, tail);
}

proof fn lemma_scalar_lacks_ascii_byte(v: u32, b: u8)
    requires
        is_scalar(v),
        b < 0x80u8,
        v != b as u32,
    ensures
        !encode_scalar(v).contains(b),
{
    let e = encode_scalar(v);
    if has_width_1_encoding(v) {
        assert((v & 0x7Fu32) as u8 != b) by (bit_vector)
            requires
                v <= 0x7Fu32,
                v != b as u32,
                b < 0x80u8,
        ;
        assert(e[0] != b);
    } else {
        assert forall|x: u8| #![auto] (0x80u8 | x) >= 0x80u8 && (0xC0u8 | x) >= 0x80u8 && (0xE0u8
            | x) >= 0x80u8 && (0xF0u8 | x) >= 0x80u8 by {
            assert((0x80u8 | x) >= 0x80u8 && (0xC0u8 | x) >= 0x80u8 && (0xE0u8 | x) >= 0x80u8 && (
            0xF0u8 | x) >= 0x80u8) by (bit_vector);
        }
        assert forall|k: int| 0 <= k < e.len() implies e[k] != b by {
            assert(e[k] >= 0x80u8);
        }
    }
}

proof fn lemma_encoding_lacks_ascii_byte(chars: Seq<char>, b: u8)
    requires
        b < 0x80u8,
        forall|i: int| 0 <= i < chars.len() ==> #[trigger] chars[i] as u32 != b as u32,
    ensures
        !encode_utf8(chars).contains(b),
    decreases chars.len(),
{
    if chars.len() > 0 {
        let first = encode_scalar(chars[0] as u32);
        let rest = chars.drop_first();
        assert forall|i: int| 0 <= i < rest.len() implies #[trigger] rest[i] as u32 != b as u32 by {
            assert(rest[i] == chars[i + 1]);
        }
        lemma_encoding_lacks_ascii_byte(rest, b);
        char_is_scalar(chars[0]);
        lemma_scalar_lacks_ascii_byte(chars[0] as u32, b);
        let all = encode_utf8(chars);
        assert(all == first + encode_utf8(rest));
        if all.contains(b) {
            let k = choose|k: int| 0 <= k < all.len() && all[k] == b;
            if k < first.len() {
                assert(first[k] == b);
            } else {
                assert(encode_utf8(rest)[k - first.len()] == b);
            }
        }
    }
}

/// The status-line round trip for a response built by `new`: a status code
/// with no space and no carriage return among its characters reads back as
/// itself, with the version and the reason phrase.
pub proof fn lemma_new_status_line_round_trip(code: Seq<char>, r: ResponseView)
    requires
        r.version == http11(),
        r.status_code == encode_utf8(code),
        r.status_text == status_text_of(r.status_code),
        forall|i: int| 0 <= i < code.len() ==> #[trigger] code[i] != ' ' && code[i] != '\r',
    ensures
        status_line_fields(r.wire()) == (r.version, encode_utf8(code), r.status_text),
{
    assert forall|i: int| 0 <= i < code.len() implies #[trigger] code[i] as u32 != 32u8 as u32 by {
        if code[i] as u32 == 32u32 {
            assert(' ' as u32 == 32u32);
            char_u32_cast(code[i], 32u32);
            char_u32_cast(' ', 32u32);
        }
    }
    lemma_encoding_lacks_ascii_byte(code, 32u8);
    assert forall|i: int| 0 <= i < code.len() implies #[trigger] code[i] as u32 != 13u8 as u32 by {
        if code[i] as u32 == 13u32 {
            assert('\r' as u32 == 13u32);
            char_u32_cast(code[i], 13u32);
            char_u32_cast('\r', 13u32);
        }
    }
    lemma_encoding_lacks_ascii_byte(code, 13u8);
    lemma_status_line_round_trip(r);
}

} // verus!
