use flate2::read::GzDecoder;
use http_server::http::{gzip, RequestType};
use http_server::router::{Endpoint, RoutedInfo, Router};
use http_server::server::{
    builtin_not_found, cached_response, icon_response, is_connection_close, not_found_response, ok_response,
    parse_header_line, parse_request_line, Exchange, HeaderLine, HttpServerError, Step,
};
use std::io::Read;
use std::sync::{Arc, Mutex};

fn gunzip(data: &[u8]) -> Vec<u8> {
    let mut out = Vec::new();
    GzDecoder::new(data).read_to_end(&mut out).unwrap();
    out
}

/// Feeds the lines; gives each dispatched request's type and path, and
/// the error, if one ended the exchange.
fn feed_all(lines: &[&str]) -> (Vec<(RequestType, String, bool)>, Option<HttpServerError>) {
    let mut exchange = Exchange::new();
    let mut dispatched = Vec::new();
    for line in lines {
        match exchange.feed(line) {
            Step::Continue => {}
            Step::Dispatch(request, path) => {
                assert_eq!(request.path(), path);
                dispatched.push((request.request_type(), path, exchange.keep_alive()));
                if !exchange.keep_alive() {
                    return (dispatched, None);
                }
            }
            Step::Fail(e) => return (dispatched, Some(e)),
        }
    }
    (dispatched, None)
}

#[test]
fn request_line_tokens() {
    let (t, p) = parse_request_line("GET / HTTP/1.1\r\n").ok().unwrap();
    assert_eq!(t, RequestType::GET);
    assert_eq!(p, "/");
    let (t, p) = parse_request_line("  post\t/submit  ").ok().unwrap();
    assert_eq!(t, RequestType::POST);
    assert_eq!(p, "/submit");
}

#[test]
fn method_default() {
    let (t, p) = parse_request_line("FROBNICATE /x HTTP/1.1\r\n").ok().unwrap();
    assert_eq!(t, RequestType::GET);
    assert_eq!(p, "/x");
}

#[test]
fn malformed_request_line() {
    assert!(matches!(parse_request_line("\r\n"), Err(HttpServerError::HttpMethodNotPresent)));
    assert!(matches!(parse_request_line(""), Err(HttpServerError::HttpMethodNotPresent)));
    assert!(matches!(parse_request_line("GET\r\n"), Err(HttpServerError::PathNotPresent)));
    let (dispatched, err) = feed_all(&["\r\n"]);
    assert!(dispatched.is_empty());
    assert!(matches!(err, Some(HttpServerError::HttpMethodNotPresent)));
}

#[test]
fn header_lines() {
    assert!(matches!(parse_header_line("\r\n"), HeaderLine::End));
    assert!(matches!(parse_header_line("  \t\n"), HeaderLine::End));
    assert!(matches!(parse_header_line("no colon here\r\n"), HeaderLine::Other));
    match parse_header_line("Host:  example.org \r\n") {
        HeaderLine::Field(n, v) => {
            assert_eq!(n, "Host");
            assert_eq!(v, "example.org");
        }
        _ => panic!("expected a header"),
    }
    match parse_header_line("X-Time: 10:30\r\n") {
        HeaderLine::Field(n, v) => {
            assert_eq!(n, "X-Time");
            assert_eq!(v, "10:30");
        }
        _ => panic!("expected a header"),
    }
}

#[test]
fn connection_close_detection() {
    assert!(is_connection_close("Connection", "close"));
    assert!(is_connection_close(" CONNECTION ", " Close "));
    assert!(!is_connection_close("Connection", "keep-alive"));
    assert!(!is_connection_close("Connections", "close"));
}

#[test]
fn keep_alive_two_requests() {
    let lines = [
        "GET /a HTTP/1.1\r\n",
        "Host: x\r\n",
        "\r\n",
        "POST /b HTTP/1.1\r\n",
        "\r\n",
    ];
    let (dispatched, err) = feed_all(&lines);
    assert!(err.is_none());
    assert_eq!(
        dispatched,
        vec![
            (RequestType::GET, "/a".to_string(), true),
            (RequestType::POST, "/b".to_string(), true)
        ]
    );
}

#[test]
fn connection_close_stops_after_request() {
    let lines = [
        "GET / HTTP/1.1\r\n",
        "Host: x\r\n",
        "Connection: close\r\n",
        "\r\n",
        "GET /never HTTP/1.1\r\n",
        "\r\n",
    ];
    let (dispatched, err) = feed_all(&lines);
    assert!(err.is_none());
    assert_eq!(dispatched, vec![(RequestType::GET, "/".to_string(), false)]);
}

#[test]
fn dispatched_request_holds_headers() {
    let mut exchange = Exchange::new();
    assert!(matches!(exchange.feed("FROBNICATE /x HTTP/1.1\r\n"), Step::Continue));
    assert!(matches!(exchange.feed("Host: x\r\n"), Step::Continue));
    assert!(matches!(exchange.feed("junk\r\n"), Step::Continue));
    match exchange.feed("\r\n") {
        Step::Dispatch(request, path) => {
            assert_eq!(path, "/x");
            assert_eq!(request.request_type(), RequestType::GET);
            assert_eq!(request.host(), "localhost");
            assert_eq!(
                request.headers().iter().clone(),
                vec![("Host".to_string(), "x".to_string())]
            );
        }
        _ => panic!("expected a dispatch"),
    }
}

struct Hello;

impl Endpoint<Arc<Mutex<Vec<u8>>>, ()> for Hello {
    fn strict(&self) -> bool {
        true
    }

    fn use_strict_path_matching(&self) -> bool {
        true
    }

    fn process(&self, info: RoutedInfo<Arc<Mutex<Vec<u8>>>>) {
        info.data.lock().unwrap().extend_from_slice(b"HELLO");
    }
}

#[test]
fn route_match_get_root() {
    let mut router = Router::new();
    router.add_path("/", Hello);
    let socket = Arc::new(Mutex::new(Vec::new()));
    let lines = [
        "GET / HTTP/1.1\r\n",
        "Host: x\r\n",
        "Connection: close\r\n",
        "\r\n",
    ];
    let mut exchange = Exchange::new();
    let mut invoked = 0;
    for line in lines {
        if let Step::Dispatch(_, path) = exchange.feed(line) {
            assert_eq!(router.route(&path, socket.clone()), Some(()));
            invoked += 1;
        }
    }
    assert_eq!(invoked, 1);
    assert!(!exchange.keep_alive());
    assert_eq!(socket.lock().unwrap().as_slice(), b"HELLO");
}

#[test]
fn unknown_route_builtin_404() {
    let router: Router<Hello> = Router::new();
    let socket = Arc::new(Mutex::new(Vec::new()));
    let mut exchange = Exchange::new();
    for line in ["GET /missing HTTP/1.1\r\n", "\r\n"] {
        if let Step::Dispatch(_, path) = exchange.feed(line) {
            if router.route(&path, socket.clone()).is_none() {
                socket.lock().unwrap().extend_from_slice(&builtin_not_found());
            }
        }
    }
    let sent = socket.lock().unwrap().clone();
    let head: &[u8] = b"HTTP/1.1 404 NOT FOUND\r\nContent-Type: text/html charset=UTF-8\r\nContent-Encoding: gzip\r\nConnection: close\r\n\r\n";
    assert_eq!(&sent[..head.len()], head);
    assert_eq!(&sent[sent.len() - 2..], b"\r\n");
    let body = &sent[head.len()..sent.len() - 2];
    assert_eq!(body, gzip(b"Could not find resource").as_slice());
    assert_eq!(gunzip(body), b"Could not find resource");
}

#[test]
fn page_responses() {
    let ok = ok_response(b"xyz");
    let head: &[u8] = b"HTTP/1.1 200 OK\r\nContent-Type:text/html charset=UTF-8\r\nContent-Encoding:gzip\r\nCache-Control:max-age=1800\r\nCache-Control:public\r\nContent-Length: 3\r\n\r\nxyz";
    assert_eq!(ok.as_slice(), head);
    let icon = icon_response(b"");
    let head: &[u8] = b"HTTP/1.1 200 OK\r\nContent-Type:image/x-icon\r\nContent-Encoding:gzip\r\nCache-Control:max-age=1800\r\nCache-Control:public\r\nContent-Length: 0\r\n\r\n";
    assert_eq!(icon.as_slice(), head);
    let nf = not_found_response(b"ab");
    let head: &[u8] = b"HTTP/1.1 404 NOT FOUND\r\nContent-Type:text/html charset=UTF-8\r\nContent-Encoding:gzip\r\nCache-Control:max-age=1800\r\nCache-Control:public\r\nConnection:Close\r\nContent-Length: 2\r\n\r\nab";
    assert_eq!(nf.as_slice(), head);
}

#[test]
fn cached_response_with_code() {
    let r = cached_response("202 OK", "text/plain", b"hi");
    let want: &[u8] = b"HTTP/1.1 202 OK\r\nContent-Type:text/plain\r\nContent-Encoding:gzip\r\nCache-Control:max-age=1800\r\nCache-Control:public\r\nContent-Length: 2\r\n\r\nhi";
    assert_eq!(r.as_slice(), want);
}
