//! Header, status-line, chunked-framing and response parsing cases.

use httpcore::chunked::ChunkedDecoder;
use httpcore::err::ErrorKind;
use httpcore::header::{add_header, get_all_headers, get_header, has_header, Header};
use httpcore::http11::parse_status_line;
use httpcore::response::{LimitedRead, Response};

#[test]
fn parse_status_line_ok() {
    let ((i1, i2), status) = parse_status_line("HTTP/1.1 200 OK").unwrap();
    assert_eq!(status, 200);
    assert_eq!(i1, 8);
    assert_eq!(i2, 11);
}

#[test]
fn parse_status_line_rejects() {
    assert!(parse_status_line("HTTP/1.1").is_err());
    assert!(parse_status_line("HTTP/1.1 200").is_err());
    assert!(parse_status_line("HTTP/1.1 20 OK").is_err());
    assert!(parse_status_line("HTTP/1.1 abc OK").is_err());
    assert!(parse_status_line("HT 200 OK").is_err());
    assert!(parse_status_line("HTTP/1.1 99999 OK").is_err());
    let e = parse_status_line("garbage").unwrap_err();
    assert_eq!(e.get_kind(), ErrorKind::BadStatus);
}

#[test]
fn header_parse_and_accessors() {
    let h = Header::from_str("X-Forwarded-For: 127.0.0.1").unwrap();
    assert_eq!(h.name(), "X-Forwarded-For");
    assert_eq!(h.value(), "127.0.0.1");
    assert!(h.is_name("x-forwarded-for"));
    assert!(!h.is_name("host"));
    assert!(h.is_value("127.0.0.1", false));
    let h2 = Header::from_str("Accept: text/plain").unwrap();
    assert!(h2.is_value("TEXT/PLAIN", true));
    assert!(!h2.is_value("TEXT/PLAIN", false));
}

#[test]
fn header_parse_rejects() {
    assert!(Header::from_str("no colon here").is_err());
    let e = Header::from_str("bad\u{e9}header: x").unwrap_err();
    assert_eq!(e.get_kind(), ErrorKind::BadHeader);
}

#[test]
fn header_list_lookup() {
    let hs = vec![
        Header::from_str("Host: a").unwrap(),
        Header::from_str("Accept: x").unwrap(),
        Header::from_str("accept: y").unwrap(),
    ];
    assert_eq!(get_header(&hs, "ACCEPT"), Some("x"));
    assert_eq!(get_header(&hs, "missing"), None);
    assert!(has_header(&hs, "host"));
    assert_eq!(get_all_headers(&hs, "accept"), vec!["x", "y"]);
}

#[test]
fn add_header_replaces_except_custom() {
    let mut hs = vec![Header::from_str("Accept: x").unwrap()];
    add_header(&mut hs, Header::from_str("Accept: y").unwrap());
    assert_eq!(hs.len(), 1);
    assert_eq!(get_header(&hs, "accept"), Some("y"));
    add_header(&mut hs, Header::from_str("X-Tag: 1").unwrap());
    add_header(&mut hs, Header::from_str("X-Tag: 2").unwrap());
    assert_eq!(get_all_headers(&hs, "x-tag"), vec!["1", "2"]);
}

#[test]
fn chunked_decoder_vectors() {
    let mut d = ChunkedDecoder::new();
    let mut out = Vec::new();
    let n = d
        .decode(b"5\r\nhello\r\n6\r\n world\r\n0\r\n\r\n", &mut out)
        .unwrap();
    assert_eq!(out, b"hello world".to_vec());
    assert!(d.is_end());
    assert_eq!(n, 26);
}

#[test]
fn chunked_decoder_hex_sizes_and_incremental() {
    let mut d = ChunkedDecoder::new();
    let mut out = Vec::new();
    d.decode(b"A\r\n0123", &mut out).unwrap();
    assert_eq!(out, b"0123".to_vec());
    d.decode(b"456789\r\n0\r\n\r\n", &mut out).unwrap();
    assert_eq!(out, b"0123456789".to_vec());
    assert!(d.is_end());
}

#[test]
fn chunked_decoder_rejects_malformed() {
    let mut d = ChunkedDecoder::new();
    let mut out = Vec::new();
    assert!(d.decode(b"zz\r\nhello", &mut out).is_err());

    let mut d2 = ChunkedDecoder::new();
    let mut out2 = Vec::new();
    // a size over the accepted bound is rejected
    assert!(d2.decode(b"FFFFFFFFF\r\n", &mut out2).is_err());
}

#[test]
fn response_from_bytes_and_accessors() {
    let raw = b"HTTP/1.1 404 Not Found\r\nContent-Type: text/html; charset=ISO-8859-1\r\nContent-Length: 4\r\n\r\nbody";
    let resp = Response::from_bytes(raw).unwrap();
    assert_eq!(resp.status(), 404);
    assert_eq!(resp.status_line(), "HTTP/1.1 404 Not Found");
    assert_eq!(resp.http_version(), "HTTP/1.1");
    assert_eq!(resp.status_text(), "Not Found");
    assert_eq!(resp.content_type(), "text/html");
    assert_eq!(resp.charset(), "ISO-8859-1");
    assert!(resp.has("content-length"));
    assert_eq!(resp.header("content-type"), Some("text/html; charset=ISO-8859-1"));
    assert!(!resp.ok());
    assert!(resp.client_error());
    assert!(resp.error());
    assert!(!resp.redirect());
    assert!(!resp.server_error());
    assert!(!resp.synthetic());
}

#[test]
fn response_defaults_without_content_type() {
    let resp = Response::from_bytes(b"HTTP/1.1 200 OK\r\n\r\n").unwrap();
    assert_eq!(resp.content_type(), "text/plain");
    assert_eq!(resp.charset(), "utf-8");
}

#[test]
fn response_incomplete_head_rejected() {
    assert!(Response::from_bytes(b"HTTP/1.1 200 OK\r\nConte").is_err());
}

#[test]
fn response_skips_unparseable_header_lines() {
    let resp =
        Response::from_bytes(b"HTTP/1.1 200 OK\r\nno colon line\r\nGood: yes\r\n\r\n").unwrap();
    assert_eq!(resp.header("good"), Some("yes"));
    assert_eq!(resp.header("no colon line"), None);
}

#[test]
fn into_reader_applies_content_length() {
    let resp =
        Response::from_bytes(b"HTTP/1.1 200 OK\r\nContent-Length: 3\r\n\r\nabcdef").unwrap();
    let mut r = resp.into_reader().unwrap();
    assert_eq!(r.read_to_end(), b"abc".to_vec());
}

#[test]
fn into_reader_dechunks() {
    let resp = Response::from_bytes(
        b"HTTP/1.1 200 OK\r\nTransfer-Encoding: chunked\r\n\r\n3\r\nabc\r\n0\r\n\r\n",
    )
    .unwrap();
    let mut r = resp.into_reader().unwrap();
    assert_eq!(r.read_to_end(), b"abc".to_vec());
}

#[test]
fn into_reader_until_end() {
    let resp = Response::from_bytes(b"HTTP/1.1 200 OK\r\n\r\neverything").unwrap();
    let mut r = resp.into_reader().unwrap();
    let first = r.read(5);
    assert_eq!(first, b"every".to_vec());
    assert_eq!(r.read_to_end(), b"thing".to_vec());
}

#[test]
fn into_string_decodes_charset() {
    let mut raw =
        b"HTTP/1.1 200 OK\r\nContent-Type: text/plain; charset=iso-8859-1\r\nContent-Length: 1\r\n\r\n"
            .to_vec();
    raw.push(0xE9);
    let resp = Response::from_bytes(&raw).unwrap();
    assert_eq!(resp.into_string().unwrap(), "\u{e9}");
}

#[test]
fn into_string_falls_back_to_utf8() {
    let resp = Response::from_bytes(
        b"HTTP/1.1 200 OK\r\nContent-Type: text/plain; charset=no-such-set\r\nContent-Length: 2\r\n\r\nhi",
    )
    .unwrap();
    assert_eq!(resp.into_string().unwrap(), "hi");
}

#[test]
fn into_json_parses_document() {
    let resp = Response::from_bytes(
        b"HTTP/1.1 200 OK\r\nContent-Length: 17\r\n\r\n{\"hello\":\"world\"}",
    )
    .unwrap();
    let v = resp.into_json().unwrap();
    assert_eq!(v["hello"], "world");
}

#[test]
fn into_json_rejects_non_json() {
    let resp =
        Response::from_bytes(b"HTTP/1.1 200 OK\r\nContent-Length: 3\r\n\r\nnot").unwrap();
    let e = resp.into_json().unwrap_err();
    assert_eq!(e.get_kind(), ErrorKind::Message);
}

#[test]
fn synthetic_response_construction() {
    let resp = Response::new(401, "Authorization Required", "Please log in").unwrap();
    assert_eq!(resp.status(), 401);
    assert_eq!(resp.status_text(), "Authorization Required");
    assert!(Response::new(99, "Low", "x").is_err());
    assert!(Response::new(200, "", "x").is_err());
}

#[test]
fn synthetic_from_error() {
    let e = httpcore::err::Error::BadUrl(String::from("nope"));
    let resp = Response::from_error(e).unwrap();
    assert_eq!(resp.status(), 400);
    assert!(resp.synthetic());
    assert!(matches!(
        resp.synthetic_error(),
        Some(httpcore::err::Error::BadUrl(_))
    ));
}

#[test]
fn limited_read_stops_at_limit() {
    let mut lr = LimitedRead::new(b"abcdef".to_vec(), 4);
    assert_eq!(lr.read(3), b"abc".to_vec());
    assert_eq!(lr.read(10), b"d".to_vec());
    assert_eq!(lr.read(10), Vec::<u8>::new());
}

#[test]
fn response_all_values() {
    let resp = Response::from_bytes(
        b"HTTP/1.1 200 OK\r\nSet-Cookie: a=1\r\nSet-Cookie: b=2\r\n\r\n",
    )
    .unwrap();
    assert_eq!(resp.all("set-cookie"), vec!["a=1", "b=2"]);
    assert!(resp.all("missing").is_empty());
}

#[test]
fn synthetic_fallback_never_fails() {
    // parseable bytes come through as-is
    let ok = Response::from_bytes_or_synthetic(b"HTTP/1.1 200 OK\r\n\r\n");
    assert_eq!(ok.status(), 200);
    assert!(!ok.synthetic());

    // unparseable bytes yield a synthetic failure response instead
    let bad = Response::from_bytes_or_synthetic(b"not a response at all");
    assert_eq!(bad.status(), 500);
    assert!(bad.synthetic());
    assert!(bad.synthetic_error().is_some());
}
