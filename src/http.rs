use std::io::Write;
use vstd::prelude::*;
use vstd::utf8::encode_utf8;
use crate::text::{chars_of, range_same_ignoring_case, same_ignoring_case, trim, trim_bounds};

verus! {

/// The gzip stream that flate2 writes for these bytes at the default level.
pub uninterp spec fn gzip_of(data: Seq<u8>) -> Seq<u8>;

/// What minify's HTML minifier makes of this text.
pub uninterp spec fn minified_of(html: Seq<char>) -> Seq<char>;

/// Relies on flate2's `GzEncoder` at the default level over a `Vec<u8>`:
/// the stream depends on the input bytes alone (the header carries no time
/// stamp), and writing into a vector does not fail.
#[verifier::external_body]
fn gzip_encode(data: &[u8]) -> (r: Vec<u8>)
    ensures
        r@ == gzip_of(data@),
{
    let mut encoder = flate2::write::GzEncoder::new(Vec::new(), flate2::Compression::default());
    let _ = encoder.write_all(data);
    encoder.finish().unwrap_or_default()
}

/// Relies on `minify::html::minify`: its result depends on the text alone.
#[verifier::external_body]
fn minify_html(html: &str) -> (r: String)
    ensures
        r@ == minified_of(html@),
{
    minify::html::minify(html)
}

/// Gzips `data`.
pub fn gzip(data: &[u8]) -> (r: Vec<u8>)
    ensures
        r@ == gzip_of(data@),
{
    gzip_encode(data)
}

/// Appends the gzip stream of `data` to `buffer`.
pub fn gzip_into(data: &[u8], buffer: &mut Vec<u8>)
    ensures
        final(buffer)@ == old(buffer)@ + gzip_of(data@),
{
    let packed = gzip_encode(data);
    buffer.extend_from_slice(packed.as_slice());
}

/// Minifies and gzips html.
pub fn compress_html(html: &str) -> (r: Vec<u8>)
    ensures
        r@ == gzip_of(encode_utf8(minified_of(html@))),
{
    let minified = minify_html(html);
    gzip_encode(minified.as_str().as_bytes())
}

/// Appends the minified and gzipped html to `buffer`.
pub fn compress_html_into(html: &str, buffer: &mut Vec<u8>)
    ensures
        final(buffer)@ == old(buffer)@ + gzip_of(encode_utf8(minified_of(html@))),
{
    let minified = minify_html(html);
    gzip_into(minified.as_str().as_bytes(), buffer);
}

pub type Header = (String, String);

pub open spec fn header_view(h: Header) -> (Seq<char>, Seq<char>) {
    (h.0@, h.1@)
}

/// Contains (key, value) headers, in the order they were added.
pub struct Headers {
    headers: Vec<Header>,
}

impl View for Headers {
    type V = Seq<(Seq<char>, Seq<char>)>;

    closed spec fn view(&self) -> Seq<(Seq<char>, Seq<char>)> {
        self.headers@.map_values(|h: Header| header_view(h))
    }
}

impl Default for Headers {
    fn default() -> (r: Headers)
        ensures
            r@ == Seq::<(Seq<char>, Seq<char>)>::empty(),
    {
        Headers::new()
    }
}

impl Headers {
    pub fn new() -> (r: Headers)
        ensures
            r@ == Seq::<(Seq<char>, Seq<char>)>::empty(),
    {
        let r = Headers { headers: Vec::new() };
        proof {
            assert(r@ =~= Seq::<(Seq<char>, Seq<char>)>::empty());
        }
        r
    }

    pub fn add(&mut self, key: String, value: String)
        ensures
            final(self)@ == old(self)@.push((key@, value@)),
    {
        let ghost before = self@;
        self.headers.push((key, value));
        proof {
            assert(self@ =~= before.push((key@, value@)));
        }
    }

    /// The headers, in the order they were added.
    pub fn iter(&self) -> (r: &Vec<Header>)
        ensures
            r@.map_values(|h: Header| header_view(h)) == self@,
    {
        &self.headers
    }

    pub fn len(&self) -> (r: usize)
        ensures
            r == self@.len(),
    {
        self.headers.len()
    }
}

/// HTTP request type
#[derive(Debug, Copy, Clone, PartialEq, Eq, Structural)]
pub enum RequestType {
    GET,
    POST,
}


/// The request type that text names: "get" or "post", trimmed, in any case of letters.
pub open spec fn request_type_of(s: Seq<char>) -> Option<RequestType> {
    if same_ignoring_case(trim(s), "get"@) {
        Some(RequestType::GET)
    } else if same_ignoring_case(trim(s), "post"@) {
        Some(RequestType::POST)
    } else {
        None
    }
}

impl RequestType {
    /// Reads "GET" or "POST", trimmed and in any case of letters.
    pub fn parse(from: &str) -> (r: Option<RequestType>)
        ensures
            r == request_type_of(from@),
    {
        let cs = chars_of(from);
        let (a, b) = trim_bounds(&cs);
        if range_same_ignoring_case(&cs, a, b, "get") {
            Some(RequestType::GET)
        } else if range_same_ignoring_case(&cs, a, b, "post") {
            Some(RequestType::POST)
        } else {
            None
        }
    }

    /// The name of the request type, as it stands in a request line.
    pub fn as_str(&self) -> (r: &'static str)
        ensures
            r@ == match self {
                RequestType::GET => "GET"@,
                RequestType::POST => "POST"@,
            },
    {
        match self {
            RequestType::GET => "GET",
            RequestType::POST => "POST",
        }
    }
}

/// What a request holds.
pub struct RequestView {
    pub request_type: RequestType,
    pub host: Seq<char>,
    pub port: usize,
    pub path: Seq<char>,
    pub headers: Seq<(Seq<char>, Seq<char>)>,
}

/// HTTP request
pub struct Request {
    request_type: RequestType,
    /// This should either be an IP or resolve to one
    host: String,
    /// Port to send the request to; only relevant to a sender.
    port: usize,
    /// Request path: e.g /home
    path: String,
    headers: Headers,
}

impl View for Request {
    type V = RequestView;

    closed spec fn view(&self) -> RequestView {
        RequestView {
            request_type: self.request_type,
            host: self.host@,
            port: self.port,
            path: self.path@,
            headers: self.headers@,
        }
    }
}

impl Request {
    pub fn request_type(&self) -> (r: RequestType)
        ensures
            r == self@.request_type,
    {
        self.request_type
    }

    pub fn host(&self) -> (r: &str)
        ensures
            r@ == self@.host,
    {
        self.host.as_str()
    }

    pub fn port(&self) -> (r: usize)
        ensures
            r == self@.port,
    {
        self.port
    }

    pub fn path(&self) -> (r: &str)
        ensures
            r@ == self@.path,
    {
        self.path.as_str()
    }

    pub fn headers(&self) -> (r: &Headers)
        ensures
            r@ == self@.headers,
    {
        &self.headers
    }
}

/// Builds an HTTP request
pub struct RequestBuilder {
    request: Request,
}

impl View for RequestBuilder {
    type V = RequestView;

    closed spec fn view(&self) -> RequestView {
        self.request@
    }
}

impl RequestBuilder {
    /// A request of this type to `host`, on port 80, for the path "/", with no headers.
    pub fn new(request_type: RequestType, host: &str) -> (r: Self)
        ensures
            r@ == (RequestView {
                request_type,
                host: host@,
                port: 80,
                path: "/"@,
                headers: Seq::empty(),
            }),
    {
        RequestBuilder {
            request: Request {
                request_type,
                host: host.to_owned(),
                port: 80,
                path: "/".to_owned(),
                headers: Headers::new(),
            },
        }
    }

    pub fn port(&mut self, port: usize) -> (r: &mut Self)
        ensures
            r@ == (RequestView { port, ..old(self)@ }),
            final(self)@ == final(r)@,
    {
        self.request.port = port;
        self
    }

    pub fn path(&mut self, path: &str) -> (r: &mut Self)
        ensures
            r@ == (RequestView { path: path@, ..old(self)@ }),
            final(self)@ == final(r)@,
    {
        self.request.path = path.to_owned();
        self
    }

    pub fn header(&mut self, name: &str, value: &str) -> (r: &mut Self)
        ensures
            r@ == (RequestView { headers: old(self)@.headers.push((name@, value@)), ..old(self)@ }),
            final(self)@ == final(r)@,
    {
        self.request.headers.add(name.to_owned(), value.to_owned());
        self
    }

    pub fn build(self) -> (r: Request)
        ensures
            r@ == self@,
    {
        self.request
    }
}


/// The bytes of "HTTP/1.1 ".
pub open spec fn version_prefix() -> Seq<u8> {
    seq![72u8, 84u8, 84u8, 80u8, 47u8, 49u8, 46u8, 49u8, 32u8]
}

pub open spec fn crlf() -> Seq<u8> {
    seq![13u8, 10u8]
}

/// The header lines "name:value\r\n", one per header, in order.
pub open spec fn header_lines(hs: Seq<(Seq<char>, Seq<char>)>) -> Seq<u8>
    decreases hs.len(),
{
    if hs.len() == 0 {
        Seq::empty()
    } else {
        header_lines(hs.drop_last()) + encode_utf8(hs.last().0) + seq![58u8] + encode_utf8(
            hs.last().1,
        ) + crlf()
    }
}

/// The head of a response: its status line and its header lines.
pub open spec fn head_of(code: Seq<char>, hs: Seq<(Seq<char>, Seq<char>)>) -> Seq<u8> {
    version_prefix() + encode_utf8(code) + crlf() + header_lines(hs)
}

/// What a response holds.
pub struct ResponseView {
    pub code: Seq<char>,
    pub headers: Seq<(Seq<char>, Seq<char>)>,
    pub body: Seq<u8>,
}

/// HTTP response
pub struct Response {
    headers: Headers,
    /// Code such as "404 NOT FOUND" or "200 OK"
    code: String,
    body: Vec<u8>,
}

impl View for Response {
    type V = ResponseView;

    closed spec fn view(&self) -> ResponseView {
        ResponseView { code: self.code@, headers: self.headers@, body: self.body@ }
    }
}

impl Response {
    pub fn with_code(code: &str) -> (r: Self)
        ensures
            r@ == (ResponseView { code: code@, headers: Seq::empty(), body: Seq::empty() }),
    {
        Response { headers: Headers::new(), code: code.to_owned(), body: Vec::new() }
    }

    pub fn body(&self) -> (r: &Vec<u8>)
        ensures
            r@ == self@.body,
    {
        &self.body
    }

    /// The status line and the header lines, as bytes.
    pub fn head_bytes(&self) -> (r: Vec<u8>)
        ensures
            r@ == head_of(self@.code, self@.headers),
    {
        let mut head: Vec<u8> = vec![72u8, 84u8, 84u8, 80u8, 47u8, 49u8, 46u8, 49u8, 32u8];
        head.extend_from_slice(self.code.as_str().as_bytes());
        head.push(13u8);
        head.push(10u8);
        let hs = self.headers.iter();
        let ghost hv = self.headers@;
        let ghost start = head@;
        proof {
            assert(start =~= version_prefix() + encode_utf8(self.code@) + crlf());
            assert(hv.take(0) =~= Seq::<(Seq<char>, Seq<char>)>::empty());
            assert(head@ =~= start + header_lines(hv.take(0)));
        }
        let mut k: usize = 0;
        while k < hs.len()
            invariant
                hs@.map_values(|h: Header| header_view(h)) == hv,
                k <= hs@.len(),
                head@ == start + header_lines(hv.take(k as int)),
            decreases hs@.len() - k,
        {
            let ghost before = head@;
            let (name, value) = &hs[k];
            head.extend_from_slice(name.as_str().as_bytes());
            head.push(58u8);
            head.extend_from_slice(value.as_str().as_bytes());
            head.push(13u8);
            head.push(10u8);
            proof {
                let t = hv.take(k + 1);
                assert(t.drop_last() =~= hv.take(k as int));
                assert(t.last() == hv[k as int]);
                assert(hv[k as int] == (name@, value@));
                assert(head@ =~= start + header_lines(t));
            }
            k += 1;
        }
        proof {
            assert(hv.take(k as int) =~= hv);
        }
        head
    }
}

pub struct ResponseBuilder {
    response: Response,
}

impl View for ResponseBuilder {
    type V = ResponseView;

    closed spec fn view(&self) -> ResponseView {
        self.response@
    }
}

impl ResponseBuilder {
    pub fn ok_200() -> (r: Self)
        ensures
            r@ == (ResponseView { code: "200 OK"@, headers: Seq::empty(), body: Seq::empty() }),
    {
        ResponseBuilder { response: Response::with_code("200 OK") }
    }

    pub fn header(&mut self, name: &str, value: &str) -> (r: &mut Self)
        ensures
            r@ == (ResponseView { headers: old(self)@.headers.push((name@, value@)), ..old(self)@ }),
            final(self)@ == final(r)@,
    {
        self.response.headers.add(name.to_owned(), value.to_owned());
        self
    }

    pub fn code(&mut self, code: &str) -> (r: &mut Self)
        ensures
            r@ == (ResponseView { code: code@, ..old(self)@ }),
            final(self)@ == final(r)@,
    {
        self.response.code = code.to_owned();
        self
    }

    pub fn body(&mut self, body: Vec<u8>) -> (r: &mut Self)
        ensures
            r@ == (ResponseView { body: body@, ..old(self)@ }),
            final(self)@ == final(r)@,
    {
        self.response.body = body;
        self
    }

    pub fn build(self) -> (r: Response)
        ensures
            r@ == self@,
    {
        self.response
    }
}

/// The decimal digits of `n`, as ASCII bytes.
pub open spec fn decimal(n: nat) -> Seq<u8>
    decreases n,
{
    if n < 10 {
        seq![(48u8 + n) as u8]
    } else {
        decimal(n / 10).push((48u8 + n % 10) as u8)
    }
}

/// Appends the decimal digits of `n` to `out`.
pub fn push_decimal(out: &mut Vec<u8>, n: usize)
    ensures
        final(out)@ == old(out)@ + decimal(n as nat),
    decreases n,
{
    if n >= 10 {
        push_decimal(out, n / 10);
    }
    let digit: u8 = (n % 10) as u8;
    let ghost before = out@;
    out.push(48u8 + digit);
    proof {
        if n >= 10 {
            assert(out@ =~= old(out)@ + decimal((n / 10) as nat).push((48u8 + n % 10) as u8));
        } else {
            assert(out@ =~= old(out)@ + decimal(n as nat));
        }
    }
}

/// The bytes of "Content-Length: ".
pub open spec fn content_length_prefix() -> Seq<u8> {
    seq![
        67u8, 111u8, 110u8, 116u8, 101u8, 110u8, 116u8, 45u8, 76u8, 101u8, 110u8, 103u8, 116u8, 104u8, 58u8, 32u8
    ]
}

/// A response: its head, then a Content-Length header for the content, a
/// blank line, and the content.
pub open spec fn framed(head: Seq<u8>, content: Seq<u8>) -> Seq<u8> {
    head + content_length_prefix() + decimal(content.len()) + crlf() + crlf() + content
}

/// Appends the Content-Length header, the blank line that ends the head,
/// and the content.
pub fn frame(head: Vec<u8>, content: &[u8]) -> (r: Vec<u8>)
    ensures
        r@ == framed(head@, content@),
{
    let mut out = head;
    let prefix: Vec<u8> = vec![
        67u8, 111u8, 110u8, 116u8, 101u8, 110u8, 116u8, 45u8, 76u8, 101u8, 110u8, 103u8, 116u8, 104u8, 58u8, 32u8
    ];
    out.extend_from_slice(prefix.as_slice());
    push_decimal(&mut out, content.len());
    out.push(13u8);
    out.push(10u8);
    out.push(13u8);
    out.push(10u8);
    out.extend_from_slice(content);
    proof {
        assert(out@ =~= framed(head@, content@));
    }
    out
}

} // verus!
