use crate::http::{
    crlf, frame, framed, gzip, gzip_of, head_of, request_type_of, Request, RequestBuilder,
    RequestType, RequestView, ResponseBuilder,
};
use crate::pool::PoolError;
use crate::text::{
    chars_of, range_same_ignoring_case, same_ignoring_case, skip_space, skip_space_from, token_end,
    token_end_from, trim, trim_bounds,
};
use vstd::prelude::*;
use vstd::utf8::encode_utf8;

verus! {

/// std's I/O error, carried through unopened.
#[verifier::external_type_specification]
#[verifier::external_body]
pub struct ExIoError(std::io::Error);

#[derive(Debug)]
pub enum HttpServerError {
    IoError(std::io::Error),
    /// The request line had no first token.
    HttpMethodNotPresent,
    /// The request line had no second token.
    PathNotPresent,
    ThreadPoolError(PoolError),
}

/// The first whitespace-separated token of a request line.
pub open spec fn method_token(s: Seq<char>) -> Option<Seq<char>> {
    let a = skip_space(s, 0);
    if a >= s.len() {
        None
    } else {
        Some(s.subrange(a, token_end(s, a)))
    }
}

/// The second whitespace-separated token of a request line.
pub open spec fn path_token(s: Seq<char>) -> Option<Seq<char>> {
    let a = skip_space(s, 0);
    let c = skip_space(s, token_end(s, a));
    if a >= s.len() || c >= s.len() {
        None
    } else {
        Some(s.subrange(c, token_end(s, c)))
    }
}

/// The request type a method token names; any other token means GET.
pub open spec fn method_or_get(m: Seq<char>) -> RequestType {
    match request_type_of(m) {
        Some(t) => t,
        None => RequestType::GET,
    }
}

/// Reads the request type and the path from a request line such as
/// "GET / HTTP/1.1".
pub fn parse_request_line(line: &str) -> (r: Result<(RequestType, String), HttpServerError>)
    ensures
        method_token(line@) is None ==> r matches Err(HttpServerError::HttpMethodNotPresent),
        method_token(line@) is Some && path_token(line@) is None ==> r matches Err(
            HttpServerError::PathNotPresent,
        ),
        method_token(line@) is Some && path_token(line@) is Some ==> (r matches Ok((t, p)) && t
            == method_or_get(method_token(line@)->Some_0) && p@ == path_token(line@)->Some_0),
{
    let cs = chars_of(line);
    let a = skip_space_from(&cs, 0);
    if a >= cs.len() {
        return Err(HttpServerError::HttpMethodNotPresent);
    }
    let b = token_end_from(&cs, a);
    let c = skip_space_from(&cs, b);
    if c >= cs.len() {
        return Err(HttpServerError::PathNotPresent);
    }
    let d = token_end_from(&cs, c);
    let method = line.substring_char(a, b);
    let request_type = match RequestType::parse(method) {
        Some(t) => t,
        None => RequestType::GET,
    };
    let path = line.substring_char(c, d).to_owned();
    Ok((request_type, path))
}

/// The index of the first ':' from `i` on (or the length).
pub open spec fn first_colon(s: Seq<char>, i: int) -> int
    decreases s.len() - i,
{
    if 0 <= i < s.len() && s[i] != ':' {
        first_colon(s, i + 1)
    } else {
        i
    }
}

/// A header line cut at its first ':': the name as it stands, the value
/// trimmed; `None` for a line without ':'.
pub open spec fn field_of(s: Seq<char>) -> Option<(Seq<char>, Seq<char>)> {
    let k = first_colon(s, 0);
    if k >= s.len() {
        None
    } else {
        Some((s.subrange(0, k), trim(s.subrange(k + 1, s.len() as int))))
    }
}

/// A line that holds only whitespace ends the header block.
pub open spec fn is_blank(s: Seq<char>) -> bool {
    trim(s).len() == 0
}

/// A line of the header block.
pub enum HeaderLine {
    /// The blank line that ends the block.
    End,
    /// A header: its name and its trimmed value.
    Field(String, String),
    /// A line without ':'.
    Other,
}

pub fn parse_header_line(line: &str) -> (r: HeaderLine)
    ensures
        r is End <==> is_blank(line@),
        r matches HeaderLine::Field(n, v) ==> field_of(line@) == Some((n@, v@)),
        r is Other ==> field_of(line@) is None,
{
    let cs = chars_of(line);
    let (a, b) = trim_bounds(&cs);
    if a == b {
        return HeaderLine::End;
    }
    let mut k: usize = 0;
    while k < cs.len() && cs[k] != ':'
        invariant
            k <= cs@.len(),
            first_colon(cs@, 0) == first_colon(cs@, k as int),
        decreases cs@.len() - k,
    {
        k += 1;
    }
    if k >= cs.len() {
        return HeaderLine::Other;
    }
    let name = line.substring_char(0, k).to_owned();
    let rest = line.substring_char(k + 1, cs.len());
    let rest_cs = chars_of(rest);
    let (va, vb) = trim_bounds(&rest_cs);
    let value = rest.substring_char(va, vb).to_owned();
    HeaderLine::Field(name, value)
}

/// A `Connection: close` header, in any case of letters.
pub open spec fn closes(name: Seq<char>, value: Seq<char>) -> bool {
    same_ignoring_case(trim(name), "connection"@) && same_ignoring_case(trim(value), "close"@)
}

pub fn is_connection_close(name: &str, value: &str) -> (r: bool)
    ensures
        r == closes(name@, value@),
{
    let n = chars_of(name);
    let (a, b) = trim_bounds(&n);
    let v = chars_of(value);
    let (c, d) = trim_bounds(&v);
    range_same_ignoring_case(&n, a, b, "connection") && range_same_ignoring_case(&v, c, d, "close")
}

/// Where a connection stands between two lines.
pub struct ExchangeView {
    /// The request whose header block is being read, if any.
    pub pending: Option<RequestView>,
    pub path: Seq<char>,
    /// Whether the connection stays open after this request.
    pub persist: bool,
}

/// What follows a line: the next state of the connection.
pub open spec fn next_view(m: ExchangeView, line: Seq<char>) -> ExchangeView {
    match m.pending {
        None => match (method_token(line), path_token(line)) {
            (Some(t), Some(p)) => ExchangeView {
                pending: Some(
                    RequestView {
                        request_type: method_or_get(t),
                        host: "localhost"@,
                        port: 80,
                        path: p,
                        headers: Seq::empty(),
                    },
                ),
                path: p,
                persist: true,
            },
            _ => m,
        },
        Some(req) => if is_blank(line) {
            ExchangeView { pending: None, ..m }
        } else {
            match field_of(line) {
                Some((n, v)) => ExchangeView {
                    pending: Some(RequestView { headers: req.headers.push((n, v)), ..req }),
                    persist: m.persist && !closes(n, v),
                    ..m
                },
                None => m,
            }
        },
    }
}

/// Whether a line completes a request: the blank line after its headers.
pub open spec fn completes(m: ExchangeView, line: Seq<char>) -> bool {
    m.pending is Some && is_blank(line)
}

/// Whether a line ends the connection with an error: a request line
/// without a method or a path.
pub open spec fn fails(m: ExchangeView, line: Seq<char>) -> bool {
    m.pending is None && (method_token(line) is None || path_token(line) is None)
}

/// What the connection handler does after a line.
pub enum Step {
    /// Read the next line.
    Continue,
    /// Route this request for this path.
    Dispatch(Request, String),
    /// End the connection with this error.
    Fail(HttpServerError),
}

/// The requests read on one connection, one line at a time.
pub struct Exchange {
    pending: Option<RequestBuilder>,
    path: String,
    persist: bool,
}

impl View for Exchange {
    type V = ExchangeView;

    closed spec fn view(&self) -> ExchangeView {
        ExchangeView {
            pending: match self.pending {
                Some(b) => Some(b@),
                None => None,
            },
            path: self.path@,
            persist: self.persist,
        }
    }
}

impl Exchange {
    /// A connection waiting for its first request line.
    pub fn new() -> (r: Self)
        ensures
            r@.pending is None,
            r@.persist,
    {
        Exchange { pending: None, path: String::new(), persist: true }
    }

    /// Whether the connection stays open after the last request.
    pub fn keep_alive(&self) -> (r: bool)
        ensures
            r == self@.persist,
    {
        self.persist
    }

    /// Takes in the next line read from the connection.
    pub fn feed(&mut self, line: &str) -> (r: Step)
        ensures
            final(self)@ == next_view(old(self)@, line@),
            r is Dispatch <==> completes(old(self)@, line@),
            r is Fail <==> fails(old(self)@, line@),
            r matches Step::Dispatch(req, p) ==> (req@ == old(self)@.pending->Some_0 && p@ == old(
                self,
            )@.path),
            r matches Step::Fail(e) ==> (method_token(line@) is None && e is HttpMethodNotPresent)
                || (method_token(line@) is Some && e is PathNotPresent),
    {
        match self.pending.take() {
            None => match parse_request_line(line) {
                Ok((request_type, path)) => {
                    let mut builder = RequestBuilder::new(request_type, "localhost");
                    builder.path(path.as_str());
                    self.pending = Some(builder);
                    self.path = path;
                    self.persist = true;
                    Step::Continue
                },
                Err(e) => Step::Fail(e),
            },
            Some(mut builder) => match parse_header_line(line) {
                HeaderLine::End => {
                    let path = self.path.clone();
                    Step::Dispatch(builder.build(), path)
                },
                HeaderLine::Field(name, value) => {
                    if is_connection_close(name.as_str(), value.as_str()) {
                        self.persist = false;
                    }
                    builder.header(name.as_str(), value.as_str());
                    self.pending = Some(builder);
                    Step::Continue
                },
                HeaderLine::Other => {
                    self.pending = Some(builder);
                    Step::Continue
                },
            },
        }
    }
}


/// The headers of a cached, gzipped page of this content type.
pub open spec fn cached_headers(content_type: Seq<char>) -> Seq<(Seq<char>, Seq<char>)> {
    seq![
        ("Content-Type"@, content_type),
        ("Content-Encoding"@, "gzip"@),
        ("Cache-Control"@, "max-age=1800"@),
        ("Cache-Control"@, "public"@),
    ]
}

fn cached_head(code: &str, content_type: &str) -> (r: ResponseBuilder)
    ensures
        r@.code == code@,
        r@.headers == cached_headers(content_type@),
{
    let mut b = ResponseBuilder::ok_200();
    b.code(code).header("Content-Type", content_type).header("Content-Encoding", "gzip").header(
        "Cache-Control",
        "max-age=1800",
    ).header("Cache-Control", "public");
    proof {
        assert(b@.headers =~= cached_headers(content_type@));
    }
    b
}

/// A response with this code carrying gzipped content of this type, which
/// may be cached for half an hour.
pub fn cached_response(code: &str, content_type: &str, content: &[u8]) -> (r: Vec<u8>)
    ensures
        r@ == framed(head_of(code@, cached_headers(content_type@)), content@),
{
    let b = cached_head(code, content_type);
    frame(b.build().head_bytes(), content)
}

/// A 200 response carrying a gzipped HTML page.
pub fn ok_response(content: &[u8]) -> (r: Vec<u8>)
    ensures
        r@ == framed(head_of("200 OK"@, cached_headers("text/html charset=UTF-8"@)), content@),
{
    cached_response("200 OK", "text/html charset=UTF-8", content)
}

/// A 200 response carrying a gzipped icon.
pub fn icon_response(content: &[u8]) -> (r: Vec<u8>)
    ensures
        r@ == framed(head_of("200 OK"@, cached_headers("image/x-icon"@)), content@),
{
    cached_response("200 OK", "image/x-icon", content)
}

/// A 404 response carrying a gzipped HTML page; it closes the connection.
pub fn not_found_response(content: &[u8]) -> (r: Vec<u8>)
    ensures
        r@ == framed(
            head_of(
                "404 NOT FOUND"@,
                cached_headers("text/html charset=UTF-8"@).push(("Connection"@, "Close"@)),
            ),
            content@,
        ),
{
    let mut b = cached_head("404 NOT FOUND", "text/html charset=UTF-8");
    b.header("Connection", "Close");
    frame(b.build().head_bytes(), content)
}

/// The head of the built-in answer where no route and no 404 endpoint answer.
pub const NOT_FOUND_HEAD: &'static str = "HTTP/1.1 404 NOT FOUND\r\nContent-Type: text/html charset=UTF-8\r\nContent-Encoding: gzip\r\nConnection: close\r\n\r\n";

/// The text of the built-in 404 answer, sent gzipped.
pub const NOT_FOUND_TEXT: &'static str = "Could not find resource";

/// The built-in 404 answer: its head, the gzipped text, and a line end.
pub fn builtin_not_found() -> (r: Vec<u8>)
    ensures
        r@ == encode_utf8(NOT_FOUND_HEAD@) + gzip_of(encode_utf8(NOT_FOUND_TEXT@)) + crlf(),
{
    let mut out: Vec<u8> = Vec::new();
    out.extend_from_slice(NOT_FOUND_HEAD.as_bytes());
    let body = gzip(NOT_FOUND_TEXT.as_bytes());
    out.extend_from_slice(body.as_slice());
    out.push(13u8);
    out.push(10u8);
    proof {
        assert(out@ =~= encode_utf8(NOT_FOUND_HEAD@) + gzip_of(encode_utf8(NOT_FOUND_TEXT@)) + crlf());
    }
    out
}

/// The state after the lines, one after another, and how many requests they completed.
pub open spec fn run(m: ExchangeView, lines: Seq<Seq<char>>) -> (ExchangeView, nat)
    decreases lines.len(),
{
    if lines.len() == 0 {
        (m, 0)
    } else {
        let (end, n) = run(next_view(m, lines[0]), lines.drop_first());
        (end, n + if completes(m, lines[0]) {
            1nat
        } else {
            0nat
        })
    }
}

/// One request as its lines arrive: a request line with a method and a
/// path, header lines none of which is `Connection: close`, and the blank
/// line that ends them.
pub open spec fn plain_request(lines: Seq<Seq<char>>) -> bool {
    &&& lines.len() >= 2
    &&& method_token(lines[0]) is Some
    &&& path_token(lines[0]) is Some
    &&& is_blank(lines.last())
    &&& forall|i: int|
        0 < i < lines.len() - 1 ==> !is_blank(#[trigger] lines[i]) && match field_of(lines[i]) {
            Some((n, v)) => !closes(n, v),
            None => true,
        }
}

proof fn lemma_run_concat(m: ExchangeView, a: Seq<Seq<char>>, b: Seq<Seq<char>>)
    ensures
        run(m, a + b) == (run(run(m, a).0, b).0, run(m, a).1 + run(run(m, a).0, b).1),
    decreases a.len(),
{
    if a.len() > 0 {
        assert((a + b).drop_first() =~= a.drop_first() + b);
        assert((a + b)[0] == a[0]);
        lemma_run_concat(next_view(m, a[0]), a.drop_first(), b);
    }
}

proof fn lemma_run_headers(m: ExchangeView, lines: Seq<Seq<char>>)
    requires
        m.pending is Some,
        m.persist,
        plain_request(lines),
    ensures
        run(m, lines.subrange(1, lines.len() as int)).1 == 1,
        run(m, lines.subrange(1, lines.len() as int)).0.pending is None,
        run(m, lines.subrange(1, lines.len() as int)).0.persist,
    decreases lines.len(),
{
    let rest = lines.subrange(1, lines.len() as int);
    if lines.len() == 2 {
        assert(rest[0] == lines.last());
        assert(rest.drop_first() =~= Seq::<Seq<char>>::empty());
        assert(completes(m, rest[0]));
        let m2 = next_view(m, rest[0]);
        assert(m2.pending is None && m2.persist);
        assert(run(m2, rest.drop_first()) == (m2, 0nat));
        assert(run(m, rest) == (m2, 1nat));
    } else {
        let line = lines[1];
        assert(!is_blank(line));
        let m2 = next_view(m, line);
        assert(m2.pending is Some && m2.persist);
        let shorter = seq![lines[0]] + lines.subrange(2, lines.len() as int);
        assert(shorter.last() == lines.last());
        assert forall|i: int| 0 < i < shorter.len() - 1 implies !is_blank(#[trigger] shorter[i]) && match field_of(shorter[i]) {
            Some((n, v)) => !closes(n, v),
            None => true,
        } by {
            assert(shorter[i] == lines[i + 1]);
        }
        lemma_run_headers(m2, shorter);
        assert(rest.drop_first() =~= shorter.subrange(1, shorter.len() as int));
        assert(rest[0] == line);
        assert(!completes(m, line));
        assert(run(m, rest) == (run(m2, rest.drop_first()).0, run(m2, rest.drop_first()).1 + 0nat));
    }
}

/// Keep-alive: two requests sent one after the other on a connection,
/// neither with `Connection: close`, are both dispatched, and the
/// connection is still to be kept open after each of them.
pub proof fn lemma_keep_alive(m: ExchangeView, first: Seq<Seq<char>>, second: Seq<Seq<char>>)
    requires
        m.pending is None,
        plain_request(first),
        plain_request(second),
    ensures
        run(m, first).1 == 1,
        run(m, first).0.persist,
        run(m, first + second).1 == 2,
        run(m, first + second).0.persist,
        run(m, first + second).0.pending is None,
{
    lemma_one_request(m, first);
    let after = run(m, first).0;
    lemma_one_request(after, second);
    lemma_run_concat(m, first, second);
}

proof fn lemma_one_request(m: ExchangeView, lines: Seq<Seq<char>>)
    requires
        m.pending is None,
        plain_request(lines),
    ensures
        run(m, lines).1 == 1,
        run(m, lines).0.persist,
        run(m, lines).0.pending is None,
{
    let m1 = next_view(m, lines[0]);
    assert(!completes(m, lines[0]));
    lemma_run_headers(m1, lines);
    assert(lines.drop_first() =~= lines.subrange(1, lines.len() as int));
}

} // verus!
