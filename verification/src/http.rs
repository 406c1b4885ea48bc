//! HTTP requests as the media server reads them, and the fixed response
//! headers it sends.

use vstd::prelude::*;
use vstd::string::StringSliceAdditionalSpecFns;
use crate::text::{
    assoc_lookup, assoc_map, chars_eq, chars_of, drop_empty, find_char, first_index_of,
    parse_i64, parse_i64_spec, split_char, split_chars, string_of, strings_view, sub_chars, trim,
    trim_chars, utf8_decode, vecs_view,
};

verus! {

/// An HTTP request method.
#[allow(non_camel_case_types)]
#[derive(Debug, Clone, Copy, PartialEq, Eq, Structural)]
pub enum Method {
    GET,
    POST,
}

/// The name of a method.
pub open spec fn method_text(m: Method) -> Seq<char> {
    match m {
        Method::GET => seq!['G', 'E', 'T'],
        Method::POST => seq!['P', 'O', 'S', 'T'],
    }
}

/// The method with the given name, if any.
pub open spec fn method_of(s: Seq<char>) -> Option<Method> {
    if s == method_text(Method::GET) {
        Some(Method::GET)
    } else if s == method_text(Method::POST) {
        Some(Method::POST)
    } else {
        None
    }
}

impl Method {
    /// The name of the method.
    pub fn to_str(&self) -> (r: String)
        ensures
            r@ == method_text(*self),
    {
        let cs: Vec<char> = match self {
            Method::GET => vec!['G', 'E', 'T'],
            Method::POST => vec!['P', 'O', 'S', 'T'],
        };
        assert(cs@ =~= method_text(*self));
        string_of(cs.as_slice())
    }

    /// The method named `s`, if `s` names one.
    pub fn from_str(s: &str) -> (r: Option<Method>)
        ensures
            r == method_of(s@),
    {
        let cs = chars_of(s);
        Self::from_chars(cs.as_slice())
    }

    fn from_chars(cs: &[char]) -> (r: Option<Method>)
        ensures
            r == method_of(cs@),
    {
        let g = vec!['G', 'E', 'T'];
        let p = vec!['P', 'O', 'S', 'T'];
        assert(g@ =~= method_text(Method::GET));
        assert(p@ =~= method_text(Method::POST));
        if chars_eq(cs, g.as_slice()) {
            Some(Method::GET)
        } else if chars_eq(cs, p.as_slice()) {
            Some(Method::POST)
        } else {
            None
        }
    }
}

/// Reading a method's name gives the method back.
pub proof fn lemma_method_roundtrip(m: Method)
    ensures
        method_of(method_text(m)) == Some(m),
{
    assert(method_text(Method::GET) != method_text(Method::POST));
}

/// Why a request was refused.
#[derive(Debug, Clone, Copy, PartialEq, Eq, Structural)]
pub enum RequestError {
    /// The request has no request line.
    EmptyRequest,
    /// The request line does not start with a known method.
    BadMethod,
    /// The request line has fewer than three space-separated parts.
    MalformedRequestLine,
    /// A header line has no `:`.
    MalformedHeader,
    /// A POST request without a `Content-Length` header.
    MissingContentLength,
    /// A `Content-Length` header that is not an integer.
    BadContentLength,
    /// The header block is not valid UTF-8.
    InvalidUtf8,
}

/// What the request line `line` gives: method, URL and HTTP version.
pub open spec fn request_line_spec(line: Seq<char>) -> Result<
    (Method, Seq<char>, Seq<char>),
    RequestError,
> {
    let parts = split_char(line, ' ');
    match method_of(parts[0]) {
        None => Err(RequestError::BadMethod),
        Some(m) => if parts.len() < 3 {
            Err(RequestError::MalformedRequestLine)
        } else {
            Ok((m, parts[1], parts[2]))
        },
    }
}

impl Request {
    /// Extracts the method, the URL and the HTTP version from a request line
    /// (`Method SP Request-URI SP HTTP-Version`).
    pub fn method_url_and_http(line: &str) -> (r: Result<(Method, String, String), RequestError>)
        ensures
            match r {
                Ok((m, u, h)) => request_line_spec(line@) == Ok::<
                    (Method, Seq<char>, Seq<char>),
                    RequestError,
                >((m, u@, h@)),
                Err(e) => request_line_spec(line@) == Err::<
                    (Method, Seq<char>, Seq<char>),
                    RequestError,
                >(e),
            },
    {
        let cs = chars_of(line);
        let parts = split_chars(cs.as_slice(), ' ');
        assert(vecs_view(parts@)[0] == parts@[0]@);
        let m = match Method::from_chars(parts[0].as_slice()) {
            Some(m) => m,
            None => return Err(RequestError::BadMethod),
        };
        if parts.len() < 3 {
            return Err(RequestError::MalformedRequestLine);
        }
        assert(vecs_view(parts@)[1] == parts@[1]@);
        assert(vecs_view(parts@)[2] == parts@[2]@);
        let url = string_of(parts[1].as_slice());
        let http_info = string_of(parts[2].as_slice());
        Ok((m, url, http_info))
    }
}

/// The header named in a header line and its value: the text before the
/// first `:` and the text after it, both trimmed.
pub open spec fn header_pair_spec(line: Seq<char>) -> Option<(Seq<char>, Seq<char>)> {
    match first_index_of(line, ':') {
        Some(i) => Some((trim(line.take(i)), trim(line.skip(i + 1)))),
        None => None,
    }
}

/// The pairs of a list of header lines, in order, or `None` when a line has
/// no `:`.
pub open spec fn headers_spec(lines: Seq<Seq<char>>) -> Option<Seq<(Seq<char>, Seq<char>)>>
    decreases lines.len(),
{
    if lines.len() == 0 {
        Some(Seq::empty())
    } else {
        match (headers_spec(lines.drop_last()), header_pair_spec(lines.last())) {
            (Some(prev), Some(p)) => Some(prev.push(p)),
            _ => None,
        }
    }
}

/// The views of a list of string pairs.
pub open spec fn pairs_view(v: Seq<(String, String)>) -> Seq<(Seq<char>, Seq<char>)> {
    v.map_values(|p: (String, String)| (p.0@, p.1@))
}

impl Request {
    /// The headers of a request: one `(name, value)` pair per header line, in
    /// order; a later header with the same name overrides an earlier one.
    /// Refused when a line has no `:`.
    pub fn get_headers(lines: &[String]) -> (r: Result<Vec<(String, String)>, RequestError>)
        ensures
            match r {
                Ok(v) => headers_spec(strings_view(lines@)) == Some(pairs_view(v@)),
                Err(e) => headers_spec(strings_view(lines@)) is None && e
                    == RequestError::MalformedHeader,
            },
    {
        let n = lines.len();
        let mut out: Vec<(String, String)> = Vec::new();
        let mut i: usize = 0;
        assert(strings_view(lines@).take(0) =~= Seq::<Seq<char>>::empty());
        assert(pairs_view(out@) =~= Seq::<(Seq<char>, Seq<char>)>::empty());
        while i < n
            invariant
                n == lines@.len(),
                i <= n,
                headers_spec(strings_view(lines@).take(i as int)) == Some(pairs_view(out@)),
            decreases n - i,
        {
            let ghost pre = strings_view(lines@).take(i as int);
            let ghost next = strings_view(lines@).take(i + 1);
            assert(next.drop_last() == pre);
            assert(next.last() == lines@[i as int]@);
            let cs = chars_of(lines[i].as_str());
            let cl = cs.len();
            let pos = match find_char(cs.as_slice(), ':') {
                Some(p) => p,
                None => {
                    proof {
                        assert(header_pair_spec(next.last()) is None);
                        lemma_headers_none_extends(strings_view(lines@), i as int + 1);
                        assert(strings_view(lines@).take(n as int) == strings_view(lines@));
                    }
                    return Err(RequestError::MalformedHeader);
                },
            };
            let key = trim_chars(sub_chars(cs.as_slice(), 0, pos).as_slice());
            let value = trim_chars(sub_chars(cs.as_slice(), pos + 1, cl).as_slice());
            assert(cs@.subrange(0, pos as int) == cs@.take(pos as int));
            assert(cs@.subrange(pos + 1, cs@.len() as int) == cs@.skip(pos + 1));
            let ghost old_out = out@;
            out.push((string_of(key.as_slice()), string_of(value.as_slice())));
            assert(pairs_view(out@) =~= pairs_view(old_out).push((key@, value@)));
            i = i + 1;
        }
        assert(strings_view(lines@).take(n as int) == strings_view(lines@));
        Ok(out)
    }
}

proof fn lemma_headers_none_extends(lines: Seq<Seq<char>>, k: int)
    requires
        0 <= k <= lines.len(),
        headers_spec(lines.take(k)) is None,
    ensures
        headers_spec(lines) is None,
    decreases lines.len() - k,
{
    if k < lines.len() {
        let next = lines.take(k + 1);
        assert(next.drop_last() == lines.take(k));
        lemma_headers_none_extends(lines, k + 1);
    } else {
        assert(lines.take(k) == lines);
    }
}

} // verus!

verus! {

/// The bytes of the header block that a byte-by-byte reader keeps, from
/// position `i` on: carriage returns are dropped, and reading stops at a
/// line feed that follows a line feed (carriage returns between them do
/// not count).  The second component is where reading stopped, `None`
/// when `d` ends first.
pub open spec fn header_block_from(d: Seq<u8>, i: int, got_lf: bool, acc: Seq<u8>) -> (
    Seq<u8>,
    Option<int>,
)
    decreases d.len() - i,
{
    if i < 0 || i >= d.len() {
        (acc, None)
    } else if d[i] == 13 {
        header_block_from(d, i + 1, got_lf, acc)
    } else if d[i] == 10 && got_lf {
        (acc, Some(i + 1))
    } else if d[i] == 10 {
        header_block_from(d, i + 1, true, acc.push(d[i]))
    } else {
        header_block_from(d, i + 1, false, acc.push(d[i]))
    }
}

/// The header block at the start of `d`, and how many bytes it takes.
pub open spec fn header_block(d: Seq<u8>) -> (Seq<u8>, Option<int>) {
    header_block_from(d, 0, false, Seq::empty())
}

/// The header lines read from `d`: `Ok(None)` while the blank line that
/// ends the block has not arrived; else the block's non-empty lines and the
/// number of bytes read.
pub open spec fn header_lines_spec(d: Seq<u8>) -> Result<Option<(Seq<Seq<char>>, int)>, RequestError> {
    let (block, end) = header_block(d);
    match end {
        None => Ok(None),
        Some(e) => if vstd::utf8::valid_utf8(block) {
            Ok(Some((drop_empty(split_char(vstd::utf8::decode_utf8(block), '\n')), e)))
        } else {
            Err(RequestError::InvalidUtf8)
        },
    }
}

impl Request {
    /// Reads the header lines of a request from the bytes received so far:
    /// `Ok(None)` while the empty line that ends the headers has not arrived,
    /// else the non-empty lines (without line ends) and the number of bytes
    /// they take.  Refused when the header block is not UTF-8.
    pub fn get_header_lines(data: &[u8]) -> (r: Result<Option<(Vec<String>, usize)>, RequestError>)
        ensures
            match r {
                Ok(Some((lines, used))) => header_lines_spec(data@) == Ok::<
                    Option<(Seq<Seq<char>>, int)>,
                    RequestError,
                >(Some((strings_view(lines@), used as int))),
                Ok(None) => header_lines_spec(data@) == Ok::<
                    Option<(Seq<Seq<char>>, int)>,
                    RequestError,
                >(None),
                Err(e) => header_lines_spec(data@) == Err::<
                    Option<(Seq<Seq<char>>, int)>,
                    RequestError,
                >(e),
            },
    {
        let n = data.len();
        let mut got_lf = false;
        let mut line: Vec<u8> = Vec::new();
        let mut i: usize = 0;
        let mut end: usize = 0;
        let mut done = false;
        while i < n
            invariant_except_break
                n == data@.len(),
                i <= n,
                !done,
                header_block(data@) == header_block_from(data@, i as int, got_lf, line@),
            ensures
                done ==> header_block(data@) == (line@, Some(end as int)) && end <= n,
                !done ==> header_block(data@) == (line@, None::<int>),
            decreases n - i,
        {
            let b = data[i];
            if b == 13 {
            } else if b == 10 && got_lf {
                end = i + 1;
                done = true;
                break;
            } else if b == 10 {
                got_lf = true;
                line.push(b);
            } else {
                got_lf = false;
                line.push(b);
            }
            i = i + 1;
        }
        if !done {
            return Ok(None);
        }
        let text = match utf8_decode(line.as_slice()) {
            Some(t) => t,
            None => return Err(RequestError::InvalidUtf8),
        };
        let cs = chars_of(text.as_str());
        let parts = split_chars(cs.as_slice(), '\n');
        let lines = non_empty_strings(&parts);
        Ok(Some((lines, end)))
    }
}

/// The non-empty pieces, as strings.
fn non_empty_strings(parts: &Vec<Vec<char>>) -> (r: Vec<String>)
    ensures
        strings_view(r@) == drop_empty(vecs_view(parts@)),
{
    let n = parts.len();
    let mut out: Vec<String> = Vec::new();
    let mut i: usize = 0;
    assert(vecs_view(parts@).take(0) =~= Seq::<Seq<char>>::empty());
    assert(strings_view(out@) =~= Seq::<Seq<char>>::empty());
    while i < n
        invariant
            n == parts@.len(),
            i <= n,
            strings_view(out@) == drop_empty(vecs_view(parts@).take(i as int)),
        decreases n - i,
    {
        let ghost pre = vecs_view(parts@).take(i as int);
        let ghost next = vecs_view(parts@).take(i + 1);
        assert(next.drop_last() == pre);
        assert(next.last() == parts@[i as int]@);
        if parts[i].len() > 0 {
            let ghost old_out = out@;
            out.push(string_of(parts[i].as_slice()));
            assert(strings_view(out@) =~= strings_view(old_out).push(parts@[i as int]@));
        }
        i = i + 1;
    }
    assert(vecs_view(parts@).take(n as int) == vecs_view(parts@));
    out
}

/// An HTTP request: method, URL, HTTP version, headers in the order they
/// came (a later one with the same name overrides an earlier one) and the
/// body, if any.
pub struct Request {
    pub method: Method,
    pub url: String,
    pub http_info: String,
    pub headers: Vec<(String, String)>,
    pub body: Option<String>,
}

/// The name of the header that gives the length of a request body.
pub open spec fn content_length_key() -> Seq<char> {
    seq!['C', 'o', 'n', 't', 'e', 'n', 't', '-', 'L', 'e', 'n', 'g', 't', 'h']
}

/// What reading a request from its header lines gives: the method, URL,
/// HTTP version, headers and, for a POST request, the body length that its
/// `Content-Length` header states.
pub open spec fn request_spec(lines: Seq<Seq<char>>) -> Result<
    (Method, Seq<char>, Seq<char>, Seq<(Seq<char>, Seq<char>)>, Option<i64>),
    RequestError,
> {
    if lines.len() == 0 {
        Err(RequestError::EmptyRequest)
    } else {
        match request_line_spec(lines[0]) {
            Err(e) => Err(e),
            Ok((m, url, info)) => match headers_spec(lines.drop_first()) {
                None => Err(RequestError::MalformedHeader),
                Some(hs) => if m == Method::POST {
                    let map = header_map(hs);
                    if !map.contains_key(content_length_key()) {
                        Err(RequestError::MissingContentLength)
                    } else {
                        match parse_i64_spec(map[content_length_key()]) {
                            None => Err(RequestError::BadContentLength),
                            Some(len) => Ok((m, url, info, hs, Some(len))),
                        }
                    }
                } else {
                    Ok((m, url, info, hs, None))
                },
            },
        }
    }
}

/// The map that a list of header pairs stands for: a later pair overrides
/// an earlier one with the same name.
pub open spec fn header_map(hs: Seq<(Seq<char>, Seq<char>)>) -> Map<Seq<char>, Seq<char>>
    decreases hs.len(),
{
    if hs.len() == 0 {
        Map::empty()
    } else {
        header_map(hs.drop_last()).insert(hs.last().0, hs.last().1)
    }
}

proof fn lemma_header_map_view(v: Seq<(String, String)>)
    ensures
        header_map(pairs_view(v)) == assoc_map(v),
    decreases v.len(),
{
    if v.len() > 0 {
        assert(pairs_view(v).drop_last() == pairs_view(v.drop_last()));
        lemma_header_map_view(v.drop_last());
    }
}

impl Request {
    /// The request whose header lines are `lines` (the request line first),
    /// without its body, and for a POST request the body length that its
    /// `Content-Length` header states.  Refused when there is no request
    /// line, the request line or a header line is malformed, or a POST
    /// request has no integer `Content-Length`.
    pub fn new(lines: &[String]) -> (r: Result<(Request, Option<i64>), RequestError>)
        ensures
            match r {
                Ok((req, len)) => req.body is None && request_spec(strings_view(lines@)) == Ok::<
                    (Method, Seq<char>, Seq<char>, Seq<(Seq<char>, Seq<char>)>, Option<i64>),
                    RequestError,
                >((req.method, req.url@, req.http_info@, pairs_view(req.headers@), len)),
                Err(e) => request_spec(strings_view(lines@)) == Err::<
                    (Method, Seq<char>, Seq<char>, Seq<(Seq<char>, Seq<char>)>, Option<i64>),
                    RequestError,
                >(e),
            },
    {
        if lines.len() == 0 {
            return Err(RequestError::EmptyRequest);
        }
        let ghost lv = strings_view(lines@);
        assert(lv[0] == lines@[0]@);
        let (method, url, http_info) = Self::method_url_and_http(lines[0].as_str())?;
        let rest = vstd::slice::slice_subrange(lines, 1, lines.len());
        assert(strings_view(rest@) =~= lv.drop_first());
        let headers = Self::get_headers(rest)?;
        let mut len: Option<i64> = None;
        if method == Method::POST {
            let key = String::from_str("Content-Length");
            proof {
                reveal_strlit("Content-Length");
            }
            assert(key@ =~= content_length_key());
            proof {
                lemma_header_map_view(headers@);
            }
            let value = match assoc_lookup(&headers, &key) {
                Some(v) => v,
                None => return Err(RequestError::MissingContentLength),
            };
            let vc = chars_of(value.as_str());
            match parse_i64(vc.as_slice()) {
                Some(l) => {
                    len = Some(l);
                },
                None => return Err(RequestError::BadContentLength),
            }
        }
        Ok((Request { method, url, http_info, headers, body: None }, len))
    }
}

} // verus!

verus! {

/// The bytes of a string slice, as a vector.
pub fn str_bytes(s: &str) -> (r: Vec<u8>)
    ensures
        r@ == s.spec_bytes(),
{
    vstd::slice::slice_to_vec(s.as_bytes())
}

/// The status line and headers of a successful XML response (without the
/// blank line that ends the headers).
pub fn default_xml_headers() -> (r: Vec<u8>)
    ensures
        r@ == "HTTP/1.1 200 OK\r\nConnection: close\r\nContent-Type: text/xml; charset=\"utf-8\"\r\n".spec_bytes(),
{
    str_bytes("HTTP/1.1 200 OK\r\nConnection: close\r\nContent-Type: text/xml; charset=\"utf-8\"\r\n")
}

/// The status line and headers of a successful PNG image response.
pub fn default_img_headers() -> (r: Vec<u8>)
    ensures
        r@ == "HTTP/1.1 200 OK\r\nConnection: close\r\nContent-Type: image/png\r\n".spec_bytes(),
{
    str_bytes("HTTP/1.1 200 OK\r\nConnection: close\r\nContent-Type: image/png\r\n")
}

/// The status line and headers of a successful MP4 video response.
pub fn default_vid_headers() -> (r: Vec<u8>)
    ensures
        r@ == "HTTP/1.1 200 OK\r\nConnection: close\r\nContent-Type: video/mp4\r\n".spec_bytes(),
{
    str_bytes("HTTP/1.1 200 OK\r\nConnection: close\r\nContent-Type: video/mp4\r\n")
}

/// A complete `404 Not Found` response.
pub fn code_404() -> (r: Vec<u8>)
    ensures
        r@ == "HTTP/1.1 404 Not Found\r\n\r\n".spec_bytes(),
{
    str_bytes("HTTP/1.1 404 Not Found\r\n\r\n")
}

} // verus!

verus! {

/// The `Content-Length` header for a body of `n` bytes, with the blank line
/// that ends the headers.
pub open spec fn content_length_text(n: nat) -> Seq<char> {
    "Content-Length: "@ + crate::text::nat_text(n) + "\r\n\r\n"@
}

/// The bytes of the `Content-Length` header for a body of `n` bytes,
/// followed by the blank line that ends the headers.
pub fn content_length_header(n: u64) -> (r: Vec<u8>)
    ensures
        r@ == vstd::utf8::encode_utf8(content_length_text(n as nat)),
{
    let mut line: Vec<char> = Vec::new();
    crate::text::extend_str(&mut line, "Content-Length: ");
    crate::text::push_decimal(&mut line, n);
    crate::text::extend_str(&mut line, "\r\n\r\n");
    let text = string_of(line.as_slice());
    str_bytes(text.as_str())
}

} // verus!

verus! {

/// The header lines of a request's debug text.
pub open spec fn headers_text(hs: Seq<(Seq<char>, Seq<char>)>) -> Seq<char>
    decreases hs.len(),
{
    if hs.len() == 0 {
        Seq::empty()
    } else {
        headers_text(hs.drop_last()) + "\n"@ + hs.last().0 + " : "@ + hs.last().1
    }
}

/// The debug text of a request.
pub open spec fn request_text(
    m: Method,
    url: Seq<char>,
    info: Seq<char>,
    hs: Seq<(Seq<char>, Seq<char>)>,
    body: Option<Seq<char>>,
) -> Seq<char> {
    "\nMETHOD    : "@ + method_text(m) + "\n"@ + "URL       : "@ + url + "\n"@ + "HTTP INFO: "@ + info
        + "\n"@ + "Headers:\n-------"@ + headers_text(hs) + match body {
        Some(b) => "\nBODY     : "@ + b,
        None => "\nNO_BODY_DATA"@,
    }
}

impl Request {
    /// A readable dump of the request, for debugging: method, URL, HTTP
    /// version, one line per header and the body.
    pub fn to_str(&self) -> (r: String)
        ensures
            r@ == request_text(
                self.method,
                self.url@,
                self.http_info@,
                pairs_view(self.headers@),
                match self.body {
                    Some(b) => Some(b@),
                    None => None,
                },
            ),
    {
        let mut out: Vec<char> = Vec::new();
        crate::text::extend_str(&mut out, "\nMETHOD    : ");
        let m = self.method.to_str();
        crate::text::extend_str(&mut out, m.as_str());
        crate::text::extend_str(&mut out, "\n");
        crate::text::extend_str(&mut out, "URL       : ");
        crate::text::extend_str(&mut out, self.url.as_str());
        crate::text::extend_str(&mut out, "\n");
        crate::text::extend_str(&mut out, "HTTP INFO: ");
        crate::text::extend_str(&mut out, self.http_info.as_str());
        crate::text::extend_str(&mut out, "\n");
        crate::text::extend_str(&mut out, "Headers:\n-------");
        let ghost head = out@;
        let n = self.headers.len();
        let mut i: usize = 0;
        assert(pairs_view(self.headers@).take(0) =~= Seq::<(Seq<char>, Seq<char>)>::empty());
        assert(out@ =~= head + headers_text(pairs_view(self.headers@).take(0)));
        while i < n
            invariant
                n == self.headers@.len(),
                i <= n,
                out@ == head + headers_text(pairs_view(self.headers@).take(i as int)),
            decreases n - i,
        {
            let ghost next = pairs_view(self.headers@).take(i + 1);
            assert(next.drop_last() == pairs_view(self.headers@).take(i as int));
            assert(next.last() == (self.headers@[i as int].0@, self.headers@[i as int].1@));
            crate::text::extend_str(&mut out, "\n");
            crate::text::extend_str(&mut out, self.headers[i].0.as_str());
            crate::text::extend_str(&mut out, " : ");
            crate::text::extend_str(&mut out, self.headers[i].1.as_str());
            assert(out@ =~= head + headers_text(next));
            i = i + 1;
        }
        assert(pairs_view(self.headers@).take(n as int) == pairs_view(self.headers@));
        match &self.body {
            Some(b) => {
                crate::text::extend_str(&mut out, "\nBODY     : ");
                crate::text::extend_str(&mut out, b.as_str());
            },
            None => {
                crate::text::extend_str(&mut out, "\nNO_BODY_DATA");
            },
        }
        string_of(out.as_slice())
    }
}

} // verus!

verus! {

proof fn lemma_headers_pairs(lines: Seq<Seq<char>>)
    requires
        headers_spec(lines) is Some,
    ensures
        headers_spec(lines)->Some_0.len() == lines.len(),
        forall|k: int|
            0 <= k < lines.len() ==> header_pair_spec(lines[k]) == Some(
                #[trigger] headers_spec(lines)->Some_0[k],
            ),
    decreases lines.len(),
{
    if lines.len() > 0 {
        let q = lines.drop_last();
        lemma_headers_pairs(q);
        let hs = headers_spec(lines)->Some_0;
        let prev = headers_spec(q)->Some_0;
        assert forall|k: int| 0 <= k < lines.len() implies header_pair_spec(lines[k]) == Some(
            #[trigger] hs[k],
        ) by {
            if k < q.len() {
                assert(q[k] == lines[k]);
                assert(hs[k] == prev[k]);
            }
        }
    }
}

/// What reading a request gives, line by line: the method, URL and version
/// are the first three space-separated parts of the request line, and
/// every later line gives one header pair, in order, whatever the method;
/// only a POST request has a body length, the integer its (last)
/// `Content-Length` header holds.
pub proof fn lemma_request_parts(lines: Seq<Seq<char>>)
    requires
        request_spec(lines) is Ok,
    ensures
        lines.len() >= 1,
        split_char(lines[0], ' ').len() >= 3,
        method_of(split_char(lines[0], ' ')[0]) == Some(request_spec(lines)->Ok_0.0),
        request_spec(lines)->Ok_0.1 == split_char(lines[0], ' ')[1],
        request_spec(lines)->Ok_0.2 == split_char(lines[0], ' ')[2],
        request_spec(lines)->Ok_0.3.len() == lines.len() - 1,
        forall|k: int|
            1 <= k < lines.len() ==> header_pair_spec(lines[k]) == Some(
                #[trigger] request_spec(lines)->Ok_0.3[k - 1],
            ),
        request_spec(lines)->Ok_0.4 is Some <==> request_spec(lines)->Ok_0.0 == Method::POST,
        request_spec(lines)->Ok_0.4 matches Some(n) ==> header_map(
            request_spec(lines)->Ok_0.3,
        ).contains_key(content_length_key()) && parse_i64_spec(
            header_map(request_spec(lines)->Ok_0.3)[content_length_key()],
        ) == Some(n),
{
    let rest = lines.drop_first();
    lemma_headers_pairs(rest);
    let hs = request_spec(lines)->Ok_0.3;
    assert forall|k: int| 1 <= k < lines.len() implies header_pair_spec(lines[k]) == Some(
        #[trigger] hs[k - 1],
    ) by {
        assert(rest[k - 1] == lines[k]);
    }
}

} // verus!
