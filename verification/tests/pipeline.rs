//! Body pipeline, limiter selection, connection facade and unit-of-work
//! decisions.

use httpcore::body::{charset_from_headers, Body, BodyImpl, BodyRead, ContentEncoding};
use httpcore::conn::{prepare_request, Connection, Protocol, ProtocolImpl};
use httpcore::err::ErrorKind;
use httpcore::header::{get_header, Header};
use httpcore::http11::RequestHead;
use httpcore::limit::{ContentLength, Limiter};
use httpcore::err::Error;
use httpcore::strutil::{
    ascii_eq_nocase, ascii_str_eq, ascii_to_lower, parse_u16_ascii, parse_u64_ascii,
    str_contains, str_starts_with, str_trim_ascii, u64_to_string,
};
use httpcore::unit::{
    combine_query, cookie_to_parse, match_cookies, redirect_action, scheme_kind, send_expect100,
    send_prelude, ConnParams, CookieData, RedirectAction, SchemeKind, Unit, UrlParts,
};

fn hdrs(lines: &[&str]) -> Vec<Header> {
    lines.iter().map(|l| Header::from_str(l).unwrap()).collect()
}

fn drain(body: &mut Body) -> Vec<u8> {
    let mut out = Vec::new();
    loop {
        match body.read(4096).unwrap() {
            BodyRead::Data(d) => {
                if d.is_empty() {
                    return out;
                }
                out.extend_from_slice(&d);
            }
            BodyRead::NeedInput => panic!("source starved"),
        }
    }
}

#[test]
fn limiter_selection() {
    let chunked = Limiter::from_res(&hdrs(&["Transfer-Encoding: chunked"]));
    assert!(matches!(chunked, Limiter::ChunkedDecoder(_)));
    assert!(chunked.is_reusable_conn());

    let sized = Limiter::from_res(&hdrs(&["Content-Length: 42"]));
    match &sized {
        Limiter::ContentLength(c) => assert_eq!(c.limit, 42),
        _ => panic!("content-length limiter expected"),
    }
    assert!(sized.is_reusable_conn());

    let eof = Limiter::from_res(&hdrs(&[]));
    assert!(matches!(eof, Limiter::UntilEnd(_)));
    assert!(!eof.is_reusable_conn());

    // an unparseable length falls back to until-close
    let bad = Limiter::from_res(&hdrs(&["Content-Length: many"]));
    assert!(matches!(bad, Limiter::UntilEnd(_)));
}

#[test]
fn content_length_counting() {
    let mut c = ContentLength::new(5);
    assert_eq!(c.max_read(3), 3);
    c.note_read(3);
    assert_eq!(c.max_read(10), 2);
    c.note_read(2);
    assert!(c.is_done());
    assert_eq!(c.max_read(10), 0);
}

#[test]
fn content_encoding_selection() {
    assert_eq!(
        ContentEncoding::from_headers(&hdrs(&["Content-Encoding: gzip"]), true),
        ContentEncoding::GzipDecode
    );
    assert_eq!(
        ContentEncoding::from_headers(&hdrs(&["Content-Encoding: gzip"]), false),
        ContentEncoding::GzipEncode
    );
    assert_eq!(
        ContentEncoding::from_headers(&hdrs(&["Content-Encoding: br"]), true),
        ContentEncoding::Plain
    );
    assert_eq!(
        ContentEncoding::from_headers(&hdrs(&[]), true),
        ContentEncoding::Plain
    );
}

#[test]
fn charset_header_extraction() {
    let hs = hdrs(&["Content-Type: text/html; charset=utf-8"]);
    assert_eq!(charset_from_headers(&hs), Some("utf-8"));
    let none = hdrs(&["Content-Type: text/html"]);
    assert_eq!(charset_from_headers(&none), None);
}

#[test]
fn body_passthrough_roundtrip() {
    // with no content codec and no charset codec, received bytes come out
    // exactly as the peer produced them
    let mut b = Body::new(BodyImpl::Http1, ContentEncoding::Deferred);
    b.configure(&hdrs(&[]), true).unwrap();
    b.push_bytes(b"hello ", false).unwrap();
    b.push_bytes(b"world", true).unwrap();
    assert_eq!(drain(&mut b), b"hello world".to_vec());
    // the end is sticky
    match b.read(10).unwrap() {
        BodyRead::Data(d) => assert!(d.is_empty()),
        _ => panic!("end is sticky"),
    }
}

#[test]
fn body_configure_twice_is_error() {
    let mut b = Body::empty();
    b.configure(&hdrs(&[]), false).unwrap();
    let e = b.configure(&hdrs(&[]), false).unwrap_err();
    assert_eq!(e.get_kind(), ErrorKind::Static);
}

#[test]
fn body_read_before_configure_is_error() {
    let mut b = Body::empty();
    let e = b.read(10).unwrap_err();
    assert_eq!(e.get_kind(), ErrorKind::Static);
}

#[test]
fn body_gzip_roundtrip() {
    // encode through the gzip codec
    let mut enc = Body::new(BodyImpl::RequestRead, ContentEncoding::Deferred);
    enc.configure(&hdrs(&["Content-Encoding: gzip"]), false).unwrap();
    enc.push_bytes(b"hello", true).unwrap();
    let gz = drain(&mut enc);
    assert_ne!(gz, b"hello".to_vec());
    assert!(gz.len() > 5);

    // with gzip enabled, reads yield the original text
    let mut dec = Body::new(BodyImpl::Http1, ContentEncoding::Deferred);
    dec.configure(&hdrs(&["Content-Encoding: gzip"]), true).unwrap();
    dec.push_bytes(&gz, true).unwrap();
    assert_eq!(drain(&mut dec), b"hello".to_vec());

    // without it, reads yield the raw gzip bytes
    let mut plain = Body::new(BodyImpl::Http1, ContentEncoding::Deferred);
    plain.configure(&hdrs(&[]), true).unwrap();
    plain.push_bytes(&gz, true).unwrap();
    assert_eq!(drain(&mut plain), gz);
}

#[test]
fn body_bad_gzip_fails() {
    let mut dec = Body::new(BodyImpl::Http1, ContentEncoding::Deferred);
    dec.configure(&hdrs(&["Content-Encoding: gzip"]), true).unwrap();
    dec.push_bytes(b"this is not gzip", true).unwrap();
    let e = dec.read(10).unwrap_err();
    assert_eq!(e.get_kind(), ErrorKind::Message);
}

#[test]
fn body_charset_codec_decodes() {
    let mut b = Body::new(BodyImpl::Http1, ContentEncoding::Deferred);
    b.configure(
        &hdrs(&["Content-Type: text/plain; charset=iso-8859-1"]),
        true,
    )
    .unwrap();
    b.push_bytes(&[0xE9], true).unwrap();
    assert_eq!(drain(&mut b), "\u{e9}".as_bytes().to_vec());
}

#[test]
fn body_as_vec_and_as_string() {
    let mut b = Body::from_bytes(b"hello".to_vec());
    assert_eq!(b.length(), Some(5));
    b.configure(&hdrs(&[]), false).unwrap();
    assert_eq!(b.as_vec(100).unwrap().unwrap(), b"hello".to_vec());

    let mut b2 = Body::from_bytes(b"abcdef".to_vec());
    b2.configure(&hdrs(&[]), false).unwrap();
    let e = b2.as_vec(3).unwrap_err();
    assert_eq!(e.get_kind(), ErrorKind::Static);

    let mut b3 = Body::from_bytes(vec![0xFF, b'a']);
    b3.configure(&hdrs(&[]), false).unwrap();
    let s = b3.as_string(100).unwrap().unwrap();
    assert_eq!(s, "\u{fffd}a");
}

#[test]
fn body_into_connection_rules() {
    // a request body carries no connection
    let e = Body::empty().into_connection().unwrap_err();
    assert_eq!(e.get_kind(), ErrorKind::Static);

    // an undrained h1 body does not give the connection back
    let mut b = Body::new(BodyImpl::Http1, ContentEncoding::Deferred);
    b.configure(&hdrs(&[]), true).unwrap();
    b.push_bytes(b"0123456789", true).unwrap();
    match b.read(4).unwrap() {
        BodyRead::Data(d) => assert_eq!(d.len(), 4),
        _ => panic!("data expected"),
    }
    let e2 = b.into_connection().unwrap_err();
    assert_eq!(e2.get_kind(), ErrorKind::Static);

    // drained, it does
    let mut b2 = Body::new(BodyImpl::Http1, ContentEncoding::Deferred);
    b2.configure(&hdrs(&[]), true).unwrap();
    b2.push_bytes(b"0123456789", true).unwrap();
    drain(&mut b2);
    let conn = b2.into_connection().unwrap();
    assert!(!conn.is_http2());

    // an h2 body gives a clonable connection back at once
    let b3 = Body::new(BodyImpl::Http2, ContentEncoding::Deferred);
    let conn2 = b3.into_connection().unwrap();
    assert!(conn2.is_http2());
    assert!(conn2.maybe_clone().is_some());
    assert!(conn.maybe_clone().is_none());
}

#[test]
fn prepare_request_sets_content_length() {
    let mut head = RequestHead {
        method: String::from("POST"),
        target: String::from("/"),
        headers: Vec::new(),
    };
    let mut body = Body::from_bytes(b"hello".to_vec());
    prepare_request(&mut head, &mut body, false).unwrap();
    assert_eq!(get_header(&head.headers, "content-length"), Some("5"));
}

#[test]
fn prepare_request_sets_chunked_for_reader_body() {
    let mut head = RequestHead {
        method: String::from("POST"),
        target: String::from("/"),
        headers: Vec::new(),
    };
    let mut body = Body::from_sync_read();
    prepare_request(&mut head, &mut body, false).unwrap();
    assert_eq!(get_header(&head.headers, "transfer-encoding"), Some("chunked"));
}

#[test]
fn prepare_request_respects_caller_headers() {
    let mut head = RequestHead {
        method: String::from("POST"),
        target: String::from("/"),
        headers: hdrs(&["Content-Length: 99"]),
    };
    let mut body = Body::from_bytes(b"hello".to_vec());
    prepare_request(&mut head, &mut body, false).unwrap();
    assert_eq!(head.headers.len(), 1);

    // GET with an empty body gets no length header at all
    let mut head2 = RequestHead {
        method: String::from("GET"),
        target: String::from("/"),
        headers: Vec::new(),
    };
    let mut body2 = Body::empty();
    prepare_request(&mut head2, &mut body2, false).unwrap();
    assert!(head2.headers.is_empty());
}

#[test]
fn alpn_protocol_choice() {
    assert_eq!(Protocol::from_alpn(Some(b"h2")), Protocol::Http2);
    assert_eq!(Protocol::from_alpn(Some(b"http/1.1")), Protocol::Http11);
    assert_eq!(Protocol::from_alpn(None), Protocol::Http11);
}

#[test]
fn connection_identity() {
    let c = Connection::new(7, String::from("example.com:80"), ProtocolImpl::Http2);
    assert_eq!(c.id(), 7);
    assert_eq!(c.addr(), "example.com:80");
}

#[test]
fn combine_query_cases() {
    let with_q = UrlParts {
        scheme: String::from("http"),
        host: String::from("h"),
        path: String::from("/p"),
        query: Some(String::from("a=1")),
    };
    let without_q = UrlParts {
        scheme: String::from("http"),
        host: String::from("h"),
        path: String::from("/p"),
        query: None,
    };
    assert_eq!(combine_query(&with_q, "b=2"), "?a=1&b=2");
    assert_eq!(combine_query(&with_q, ""), "?a=1");
    assert_eq!(combine_query(&without_q, "b=2"), "?b=2");
    assert_eq!(combine_query(&without_q, ""), "");
}

#[test]
fn unit_build_and_prelude() {
    let url = UrlParts {
        scheme: String::from("http"),
        host: String::from("example.com"),
        path: String::from("/p"),
        query: Some(String::from("a=1")),
    };
    let unit = Unit::new(
        "GET",
        url,
        "",
        hdrs(&["Accept: text/plain", "Expect: 100-continue"]),
        Vec::new(),
        Some(3),
        1000,
        1000,
        1000,
    );
    assert!(!unit.is_chunked);
    assert!(!unit.is_head);
    assert_eq!(unit.hostname, "example.com");
    assert_eq!(unit.query_string, "?a=1");
    assert_eq!(get_header(&unit.headers, "content-length"), Some("3"));

    let with100 = send_prelude(&unit, "GET", true);
    assert_eq!(
        with100,
        b"GET /p?a=1 HTTP/1.1\r\nHost: example.com\r\nAccept: text/plain\r\nExpect: 100-continue\r\nContent-Length: 3\r\n\r\n"
            .to_vec()
    );
    let without100 = send_prelude(&unit, "GET", false);
    assert_eq!(
        without100,
        b"GET /p?a=1 HTTP/1.1\r\nHost: example.com\r\nAccept: text/plain\r\nContent-Length: 3\r\n\r\n"
            .to_vec()
    );

    let params = ConnParams::new();
    assert!(params.use_pooled && params.use_expect100);
    assert_eq!(params.redirects, 5);
    assert!(send_expect100(&unit, &params));
}

#[test]
fn scheme_dispatch() {
    assert_eq!(scheme_kind("http").unwrap(), SchemeKind::Http);
    assert_eq!(scheme_kind("https").unwrap(), SchemeKind::Https);
    assert_eq!(scheme_kind("test").unwrap(), SchemeKind::Test);
    let e = scheme_kind("gopher").unwrap_err();
    assert_eq!(e.get_kind(), ErrorKind::UnknownScheme);
    assert_eq!(e.message(), "gopher");
}

#[test]
fn redirect_decisions() {
    assert_eq!(redirect_action(200, true, 5), RedirectAction::Done);
    assert_eq!(redirect_action(301, true, 5), RedirectAction::FollowGet);
    assert_eq!(redirect_action(303, true, 5), RedirectAction::FollowGet);
    assert_eq!(redirect_action(307, true, 5), RedirectAction::FollowSameMethod);
    assert_eq!(redirect_action(302, false, 5), RedirectAction::Done);
    assert_eq!(redirect_action(302, true, 0), RedirectAction::TooMany);
}

#[test]
fn cookie_selection() {
    let jar = vec![
        CookieData {
            name: String::from("a"),
            value: String::from("1"),
            domain: Some(String::from("example.com")),
            path: Some(String::from("/shop")),
            secure: false,
        },
        CookieData {
            name: String::from("b"),
            value: String::from("2"),
            domain: Some(String::from("example.com")),
            path: None,
            secure: true,
        },
        CookieData {
            name: String::from("c"),
            value: String::from("3"),
            domain: None,
            path: None,
            secure: false,
        },
    ];
    let picked = match_cookies(&jar, "www.example.com", "/shop/cart", false);
    assert_eq!(picked, vec![0]);
    let picked_secure = match_cookies(&jar, "www.example.com", "/shop/cart", true);
    assert_eq!(picked_secure, vec![0, 1]);
    let picked_other_path = match_cookies(&jar, "www.example.com", "/", true);
    assert_eq!(picked_other_path, vec![1]);
}

#[test]
fn cookie_domain_defaulting() {
    assert_eq!(
        cookie_to_parse("k=v; Domain=a.example", "h.example"),
        "k=v; Domain=a.example"
    );
    assert_eq!(cookie_to_parse("k=v", "h.example"), "k=v; Domain=h.example");
}

#[test]
fn error_synthetic_codes() {
    assert_eq!(Error::BadUrl(String::from("u")).status(), 400);
    assert_eq!(Error::UnknownScheme(String::from("s")).status(), 400);
    assert_eq!(Error::Static("m").status(), 400);
    assert_eq!(Error::BadStatus.status(), 500);
    assert_eq!(Error::TooManyRedirects.status(), 500);
    assert_eq!(Error::RemoteClosed.status(), 500);
    assert_eq!(Error::Io(String::from("x")).status_text(), "Network Error");
    assert_eq!(Error::Message(String::from("mm")).message(), "mm");
}

#[test]
fn string_utilities() {
    assert!(ascii_eq_nocase("Content-Type", "content-type"));
    assert!(!ascii_eq_nocase("a", "b"));
    assert!(ascii_str_eq("abc", "abc"));
    assert!(!ascii_str_eq("abc", "ABC"));
    assert_eq!(str_trim_ascii("  x y\t"), "x y");
    assert_eq!(parse_u64_ascii("1234"), Some(1234));
    assert_eq!(parse_u64_ascii(""), None);
    assert_eq!(parse_u64_ascii("12a"), None);
    assert_eq!(parse_u64_ascii("99999999999999999999999"), None);
    assert_eq!(parse_u16_ascii("65535"), Some(65535));
    assert_eq!(parse_u16_ascii("65536"), None);
    assert_eq!(u64_to_string(0), "0");
    assert_eq!(u64_to_string(90210), "90210");
    assert!(str_contains("www.example.com", "example"));
    assert!(!str_contains("www.example.com", "sample "));
    assert!(str_starts_with("/shop/cart", "/shop"));
    assert!(!str_starts_with("/shop", "/shop/cart"));
    assert_eq!(ascii_to_lower("MiXeD"), "mixed");
}

#[test]
fn parse_u64_boundaries() {
    assert_eq!(parse_u64_ascii("18446744073709551615"), Some(u64::MAX));
    assert_eq!(parse_u64_ascii("18446744073709551616"), None);
    assert_eq!(parse_u64_ascii("0"), Some(0));
}

#[test]
fn unit_head_detection() {
    let url = UrlParts {
        scheme: String::from("http"),
        host: String::from(""),
        path: String::from("/"),
        query: None,
    };
    let unit = Unit::new("HEAD", url, "", Vec::new(), Vec::new(), None, 0, 0, 0);
    assert!(unit.is_head);
    assert_eq!(unit.hostname, "localhost");
    assert!(unit.headers.is_empty());
}

#[test]
fn unit_carries_cookie_headers() {
    let url = UrlParts {
        scheme: String::from("http"),
        host: String::from("example.com"),
        path: String::from("/"),
        query: None,
    };
    let unit = Unit::new(
        "GET",
        url,
        "",
        hdrs(&["Accept: x"]),
        hdrs(&["Cookie: a=1"]),
        None,
        0,
        0,
        0,
    );
    assert_eq!(unit.headers.len(), 2);
    assert_eq!(get_header(&unit.headers, "cookie"), Some("a=1"));
    let wire = send_prelude(&unit, "GET", true);
    assert_eq!(
        wire,
        b"GET / HTTP/1.1\r\nHost: example.com\r\nAccept: x\r\nCookie: a=1\r\n\r\n".to_vec()
    );
}

#[test]
fn gzip_wrapper_matches_independent_encoder() {
    // a gzip stream produced by flate2 directly, outside the library,
    // decodes through the body pipeline to the original text
    let mut enc = flate2::write::GzEncoder::new(Vec::new(), flate2::Compression::default());
    std::io::Write::write_all(&mut enc, b"independent stream").unwrap();
    let gz = enc.finish().unwrap();

    let mut dec = Body::new(BodyImpl::Http1, ContentEncoding::Deferred);
    dec.configure(&hdrs(&["Content-Encoding: gzip"]), true).unwrap();
    dec.push_bytes(&gz, true).unwrap();
    assert_eq!(drain(&mut dec), b"independent stream".to_vec());
}
