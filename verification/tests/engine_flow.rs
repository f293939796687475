//! End-to-end walks of the HTTP/1.1 engine against scripted peers.

use httpcore::engine::{handshake, BodyPoll, Inner, IoNeed, RecvStream, ResponsePoll, State};
use httpcore::http11::{RequestHead, ResponseHead};

fn get_request(target: &str) -> RequestHead {
    RequestHead {
        method: String::from("GET"),
        target: String::from(target),
        headers: Vec::new(),
    }
}

/// Drive the engine until the current send task is fully written,
/// collecting the bytes that went on the wire.
fn drive_writes(inner: &mut Inner) -> Vec<u8> {
    let mut wire = Vec::new();
    loop {
        match inner.next_io() {
            IoNeed::Write => {
                let n = {
                    let bytes = inner.current_write_bytes().expect("write bytes");
                    wire.extend_from_slice(bytes);
                    bytes.len()
                };
                inner.on_wrote(n);
            }
            _ => break,
        }
    }
    wire
}

/// Feed response-head bytes one at a time, as the engine asks.
fn feed_head(inner: &mut Inner, head: &[u8]) {
    let mut i = 0;
    while i < head.len() {
        assert!(matches!(inner.next_io(), IoNeed::ReadHead));
        inner.on_head_byte(head[i]);
        i += 1;
    }
}

/// Read the whole body, feeding transport fills on demand.
fn read_body(
    inner: &mut Inner,
    rs: &mut RecvStream,
    mut fills: Vec<Vec<u8>>,
) -> Result<Vec<u8>, String> {
    let mut out = Vec::new();
    loop {
        match rs.read(inner, 4096) {
            BodyPoll::Data(d) => {
                if d.is_empty() {
                    return Ok(out);
                }
                out.extend_from_slice(&d);
            }
            BodyPoll::Pending => {
                assert!(matches!(inner.next_io(), IoNeed::ReadBody));
                let fill = if fills.is_empty() { Vec::new() } else { fills.remove(0) };
                inner.on_body_read(&fill);
            }
            BodyPoll::Failed(e) => return Err(e.message()),
        }
    }
}

#[test]
fn simple_get_content_length() {
    let (mut sr, mut inner) = handshake();
    let req = get_request("/x");
    let (fut, _stream) = sr
        .send_request(&mut inner, &req, "example.com", true)
        .unwrap();

    let wire = drive_writes(&mut inner);
    assert_eq!(
        wire,
        b"GET /x HTTP/1.1\r\nHost: example.com\r\n\r\n".to_vec()
    );
    assert_eq!(inner.state, State::Waiting);

    assert!(matches!(fut.poll(&mut inner), ResponsePoll::Pending));
    feed_head(&mut inner, b"HTTP/1.1 200 OK\r\nContent-Length: 5\r\n\r\n");
    assert_eq!(inner.state, State::RecvBody);

    let (head, mut rs) = match fut.poll(&mut inner) {
        ResponsePoll::Ready(h, s) => (h, s),
        _ => panic!("response head expected"),
    };
    assert_eq!(head.status, 200);

    let body = read_body(&mut inner, &mut rs, vec![b"hello".to_vec()]).unwrap();
    assert_eq!(body, b"hello".to_vec());
    assert!(rs.is_end());

    // after a clean drain under a known length, the connection is reusable
    assert_eq!(inner.state, State::Ready);
    assert_eq!(inner.cur_seq, 1);

    // once the body ended, every further read yields empty data
    match rs.read(&mut inner, 10) {
        BodyPoll::Data(d) => assert!(d.is_empty()),
        _ => panic!("end is sticky"),
    }
}

#[test]
fn chunked_decode_roundtrip() {
    let (mut sr, mut inner) = handshake();
    let req = get_request("/c");
    let (fut, _stream) = sr
        .send_request(&mut inner, &req, "example.com", true)
        .unwrap();
    drive_writes(&mut inner);

    assert!(matches!(fut.poll(&mut inner), ResponsePoll::Pending));
    feed_head(
        &mut inner,
        b"HTTP/1.1 200 OK\r\nTransfer-Encoding: chunked\r\n\r\n",
    );
    let (_head, mut rs) = match fut.poll(&mut inner) {
        ResponsePoll::Ready(h, s) => (h, s),
        _ => panic!("response head expected"),
    };

    let body = read_body(
        &mut inner,
        &mut rs,
        vec![b"5\r\nhello\r\n6\r\n world\r\n0\r\n\r\n".to_vec()],
    )
    .unwrap();
    assert_eq!(body, b"hello world".to_vec());
    assert_eq!(inner.state, State::Ready);
}

#[test]
fn keep_alive_two_requests() {
    let (mut sr, mut inner) = handshake();
    assert_eq!(inner.cur_seq, 0);

    let (fut1, _s1) = sr
        .send_request(&mut inner, &get_request("/a"), "example.com", true)
        .unwrap();
    let (fut2, _s2) = sr
        .send_request(&mut inner, &get_request("/b"), "example.com", true)
        .unwrap();

    let wire1 = drive_writes(&mut inner);
    assert!(wire1.starts_with(b"GET /a HTTP/1.1\r\n"));
    // the second request's bytes are not written while the first response
    // is outstanding
    assert!(!matches!(inner.next_io(), IoNeed::Write));

    assert!(matches!(fut1.poll(&mut inner), ResponsePoll::Pending));
    feed_head(&mut inner, b"HTTP/1.1 200 OK\r\nContent-Length: 2\r\n\r\n");
    let (_h1, mut rs1) = match fut1.poll(&mut inner) {
        ResponsePoll::Ready(h, s) => (h, s),
        _ => panic!("first head expected"),
    };
    let b1 = read_body(&mut inner, &mut rs1, vec![b"ok".to_vec()]).unwrap();
    assert_eq!(b1, b"ok".to_vec());
    assert_eq!(inner.cur_seq, 1);

    let wire2 = drive_writes(&mut inner);
    assert!(wire2.starts_with(b"GET /b HTTP/1.1\r\n"));

    assert!(matches!(fut2.poll(&mut inner), ResponsePoll::Pending));
    feed_head(&mut inner, b"HTTP/1.1 200 OK\r\nContent-Length: 3\r\n\r\n");
    let (_h2, mut rs2) = match fut2.poll(&mut inner) {
        ResponsePoll::Ready(h, s) => (h, s),
        _ => panic!("second head expected"),
    };
    let b2 = read_body(&mut inner, &mut rs2, vec![b"END".to_vec()]).unwrap();
    assert_eq!(b2, b"END".to_vec());
    assert_eq!(inner.cur_seq, 2);
    assert_eq!(inner.state, State::Ready);
}

#[test]
fn connection_close_header_closes() {
    let (mut sr, mut inner) = handshake();
    let (fut, _s) = sr
        .send_request(&mut inner, &get_request("/"), "example.com", true)
        .unwrap();
    drive_writes(&mut inner);
    assert!(matches!(fut.poll(&mut inner), ResponsePoll::Pending));
    feed_head(
        &mut inner,
        b"HTTP/1.1 200 OK\r\nContent-Length: 2\r\nConnection: close\r\n\r\n",
    );
    let (_h, mut rs) = match fut.poll(&mut inner) {
        ResponsePoll::Ready(h, s) => (h, s),
        _ => panic!("head expected"),
    };
    let b = read_body(&mut inner, &mut rs, vec![b"ok".to_vec()]).unwrap();
    assert_eq!(b, b"ok".to_vec());

    // after drain, the engine is closed; reuse attempts see the error
    assert_eq!(inner.state, State::Closed);
    assert!(inner.get_remote_error().is_some());
    let (fut3, _s3) = sr
        .send_request(&mut inner, &get_request("/again"), "example.com", true)
        .unwrap();
    assert!(matches!(fut3.poll(&mut inner), ResponsePoll::Failed(_)));
}

#[test]
fn http10_without_keep_alive_closes() {
    let (mut sr, mut inner) = handshake();
    let (fut, _s) = sr
        .send_request(&mut inner, &get_request("/"), "example.com", true)
        .unwrap();
    drive_writes(&mut inner);
    assert!(matches!(fut.poll(&mut inner), ResponsePoll::Pending));
    feed_head(&mut inner, b"HTTP/1.0 200 OK\r\nContent-Length: 2\r\n\r\n");
    let (_h, mut rs) = match fut.poll(&mut inner) {
        ResponsePoll::Ready(h, s) => (h, s),
        _ => panic!("head expected"),
    };
    read_body(&mut inner, &mut rs, vec![b"ok".to_vec()]).unwrap();
    assert_eq!(inner.state, State::Closed);
}

#[test]
fn request_body_chunks_then_response() {
    let (mut sr, mut inner) = handshake();
    let req = RequestHead {
        method: String::from("POST"),
        target: String::from("/up"),
        headers: Vec::new(),
    };
    let (fut, mut stream) = sr
        .send_request(&mut inner, &req, "example.com", false)
        .unwrap();
    let wire = drive_writes(&mut inner);
    assert!(wire.starts_with(b"POST /up HTTP/1.1\r\n"));
    assert_eq!(inner.state, State::SendBody);

    stream.send_data(&mut inner, b"abc", false).unwrap();
    stream.send_data(&mut inner, b"def", true).unwrap();
    let wire2 = drive_writes(&mut inner);
    assert_eq!(wire2, b"abcdef".to_vec());
    assert_eq!(inner.state, State::Waiting);

    // sending after the last chunk is refused
    assert!(stream.send_data(&mut inner, b"late", true).is_err());

    assert!(matches!(fut.poll(&mut inner), ResponsePoll::Pending));
    feed_head(&mut inner, b"HTTP/1.1 204 Done\r\nContent-Length: 0\r\n\r\n");
    let (h, mut rs) = match fut.poll(&mut inner) {
        ResponsePoll::Ready(h, s) => (h, s),
        _ => panic!("head expected"),
    };
    assert_eq!(h.status, 204);
    let b = read_body(&mut inner, &mut rs, vec![]).unwrap();
    assert!(b.is_empty());
    assert_eq!(inner.state, State::Ready);
}

#[test]
fn leftover_body_bytes_start_next_head() {
    // the peer sends the first body and the start of the next response in
    // one transport fill; the surplus must reach the next head intact
    let (mut sr, mut inner) = handshake();
    let (fut1, _s1) = sr
        .send_request(&mut inner, &get_request("/a"), "example.com", true)
        .unwrap();
    let (fut2, _s2) = sr
        .send_request(&mut inner, &get_request("/b"), "example.com", true)
        .unwrap();
    drive_writes(&mut inner);
    assert!(matches!(fut1.poll(&mut inner), ResponsePoll::Pending));
    feed_head(&mut inner, b"HTTP/1.1 200 OK\r\nContent-Length: 2\r\n\r\n");
    let (_h1, mut rs1) = match fut1.poll(&mut inner) {
        ResponsePoll::Ready(h, s) => (h, s),
        _ => panic!("first head expected"),
    };
    // one fill holds the two body bytes plus the whole next head
    let fill = b"okHTTP/1.1 200 OK\r\nContent-Length: 3\r\n\r\n".to_vec();
    let b1 = read_body(&mut inner, &mut rs1, vec![fill]).unwrap();
    assert_eq!(b1, b"ok".to_vec());
    assert_eq!(inner.cur_seq, 1);

    drive_writes(&mut inner);
    assert!(matches!(fut2.poll(&mut inner), ResponsePoll::Pending));
    // the buffered surplus is pumped into the next head without reading
    while matches!(inner.next_io(), IoNeed::Pump) {
        assert!(inner.pump_pending());
    }
    let (h2, mut rs2) = match fut2.poll(&mut inner) {
        ResponsePoll::Ready(h, s) => (h, s),
        _ => panic!("second head expected"),
    };
    assert_eq!(h2.status, 200);
    let b2 = read_body(&mut inner, &mut rs2, vec![b"END".to_vec()]).unwrap();
    assert_eq!(b2, b"END".to_vec());
}

#[test]
fn bad_head_fails_and_closes() {
    let (mut sr, mut inner) = handshake();
    let (fut, _s) = sr
        .send_request(&mut inner, &get_request("/"), "example.com", true)
        .unwrap();
    drive_writes(&mut inner);
    assert!(matches!(fut.poll(&mut inner), ResponsePoll::Pending));
    feed_head(&mut inner, b"NOPE\r\n\r\n");
    assert!(matches!(fut.poll(&mut inner), ResponsePoll::Failed(_)));
    assert_eq!(inner.state, State::Closed);
}

#[test]
fn compute_reuse_formula() {
    let h_close = vec![httpcore::header::Header::from_str("Connection: close").unwrap()];
    let h_keep = vec![httpcore::header::Header::from_str("Connection: keep-alive").unwrap()];
    let h_none: Vec<httpcore::header::Header> = Vec::new();
    assert!(httpcore::engine::compute_reuse(false, &h_none, "HTTP/1.1", true));
    assert!(!httpcore::engine::compute_reuse(true, &h_none, "HTTP/1.1", true));
    assert!(!httpcore::engine::compute_reuse(false, &h_close, "HTTP/1.1", true));
    assert!(!httpcore::engine::compute_reuse(false, &h_none, "HTTP/1.1", false));
    assert!(!httpcore::engine::compute_reuse(false, &h_none, "HTTP/1.0", true));
    assert!(httpcore::engine::compute_reuse(false, &h_keep, "HTTP/1.0", true));
}

#[test]
fn send_data_outside_send_phase_fails() {
    let (mut sr, mut inner) = handshake();
    let (_fut, mut stream) = sr
        .send_request(&mut inner, &get_request("/"), "example.com", true)
        .unwrap();
    drive_writes(&mut inner);
    // head sent with end=true: the engine is Waiting, not SendBody
    assert_eq!(inner.state, State::Waiting);
    let e = stream.send_data(&mut inner, b"x", true).unwrap_err();
    assert_eq!(e.get_kind(), httpcore::err::ErrorKind::Message);
}

#[test]
fn premature_close_under_known_length() {
    // the peer closes after 3 of 5 declared bytes: the body ends early and
    // the connection is not reusable
    let (mut sr, mut inner) = handshake();
    let (fut, _s) = sr
        .send_request(&mut inner, &get_request("/"), "example.com", true)
        .unwrap();
    drive_writes(&mut inner);
    assert!(matches!(fut.poll(&mut inner), ResponsePoll::Pending));
    feed_head(&mut inner, b"HTTP/1.1 200 OK\r\nContent-Length: 5\r\n\r\n");
    let (_h, mut rs) = match fut.poll(&mut inner) {
        ResponsePoll::Ready(h, s) => (h, s),
        _ => panic!("head expected"),
    };
    let body = read_body(&mut inner, &mut rs, vec![b"abc".to_vec(), Vec::new()]).unwrap();
    assert_eq!(body, b"abc".to_vec());
    assert!(rs.is_end());
    assert_eq!(inner.state, State::Closed);
}
