use flate2::read::GzDecoder;
use http_server::http::{
    compress_html, compress_html_into, frame, gzip, gzip_into, push_decimal, Headers, RequestBuilder,
    RequestType, Response, ResponseBuilder,
};
use std::io::Read;

fn gunzip(data: &[u8]) -> Vec<u8> {
    let mut out = Vec::new();
    GzDecoder::new(data).read_to_end(&mut out).unwrap();
    out
}

#[test]
fn gzip_round_trips() {
    let packed = gzip(b"hello hello hello hello");
    assert_eq!(&packed[..2], &[0x1f, 0x8b]);
    assert_ne!(packed.as_slice(), b"hello hello hello hello");
    assert_eq!(gunzip(&packed), b"hello hello hello hello");
}

#[test]
fn gzip_into_appends() {
    let mut buffer = vec![1u8, 2, 3];
    gzip_into(b"abc", &mut buffer);
    assert_eq!(&buffer[..3], &[1, 2, 3]);
    assert_eq!(&buffer[3..], gzip(b"abc").as_slice());
}

#[test]
fn compress_html_minifies_then_gzips() {
    let html = "<html>\n   <body>   <p>Hi</p>   </body>\n</html>";
    let packed = compress_html(html);
    let text = String::from_utf8(gunzip(&packed)).unwrap();
    assert_eq!(text, minify::html::minify(html));
    assert!(text.len() < html.len());
    let mut buffer = vec![9u8];
    compress_html_into(html, &mut buffer);
    assert_eq!(&buffer[1..], packed.as_slice());
}

#[test]
fn headers_keep_order() {
    let mut headers = Headers::default();
    headers.add("a".to_string(), "1".to_string());
    headers.add("b".to_string(), "2".to_string());
    let all: Vec<(String, String)> = headers.iter().clone();
    assert_eq!(all, vec![("a".to_string(), "1".to_string()), ("b".to_string(), "2".to_string())]);
    assert_eq!(headers.len(), 2);
}

#[test]
fn request_type_parsing() {
    assert_eq!(RequestType::parse("GET"), Some(RequestType::GET));
    assert_eq!(RequestType::parse(" get \r\n"), Some(RequestType::GET));
    assert_eq!(RequestType::parse("PoSt"), Some(RequestType::POST));
    assert_eq!(RequestType::parse("FROBNICATE"), None);
    assert_eq!(RequestType::parse("gets"), None);
    assert_eq!(RequestType::parse(""), None);
    assert_eq!(RequestType::GET.as_str(), "GET");
    assert_eq!(RequestType::POST.as_str(), "POST");
}

#[test]
fn request_builder_sets_fields() {
    let mut b = RequestBuilder::new(RequestType::POST, "example.org");
    b.port(8080).path("/x").header("Host", "y");
    let r = b.build();
    assert_eq!(r.request_type(), RequestType::POST);
    assert_eq!(r.host(), "example.org");
    assert_eq!(r.port(), 8080);
    assert_eq!(r.path(), "/x");
    assert_eq!(r.headers().iter().clone(), vec![("Host".to_string(), "y".to_string())]);
    let d = RequestBuilder::new(RequestType::GET, "h").build();
    assert_eq!(d.port(), 80);
    assert_eq!(d.path(), "/");
    assert_eq!(d.headers().len(), 0);
}

#[test]
fn response_head_bytes() {
    let mut b = ResponseBuilder::ok_200();
    b.header("Content-Type", "text/html").header("X", "y").body(vec![1, 2]);
    let r = b.build();
    assert_eq!(r.head_bytes(), b"HTTP/1.1 200 OK\r\nContent-Type:text/html\r\nX:y\r\n".to_vec());
    assert_eq!(r.body(), &vec![1u8, 2]);
    let mut b = ResponseBuilder::ok_200();
    b.code("404 NOT FOUND");
    assert_eq!(b.build().head_bytes(), b"HTTP/1.1 404 NOT FOUND\r\n".to_vec());
    let r = Response::with_code("500 OOPS");
    assert_eq!(r.head_bytes(), b"HTTP/1.1 500 OOPS\r\n".to_vec());
    assert!(r.body().is_empty());
}

#[test]
fn decimal_digits() {
    let mut out = Vec::new();
    push_decimal(&mut out, 0);
    assert_eq!(out, b"0".to_vec());
    let mut out = b"x".to_vec();
    push_decimal(&mut out, 1800);
    assert_eq!(out, b"x1800".to_vec());
    let mut out = Vec::new();
    push_decimal(&mut out, usize::MAX);
    assert_eq!(String::from_utf8(out).unwrap(), usize::MAX.to_string());
}

#[test]
fn frame_adds_content_length() {
    let framed = frame(b"HEAD\r\n".to_vec(), b"abc");
    assert_eq!(framed, b"HEAD\r\nContent-Length: 3\r\n\r\nabc".to_vec());
    let framed = frame(Vec::new(), b"");
    assert_eq!(framed, b"Content-Length: 0\r\n\r\n".to_vec());
}
