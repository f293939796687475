//! The caller-facing response: the parsed head, the raw body bytes behind
//! it, and the convenience consumers that apply the transport delimiter
//! before handing the body out.

use crate::chunked::{ChunkedDecoder, ChunkState};
use crate::err::{Error, ErrorKind};
use crate::header::{get_all_headers, get_header, has_header, spec_find_header, Header};
use crate::http11::{head_matches, parse_response_head, spec_head_ok, ResponseHead};
use crate::strutil::{
    dec_chars, find_from, lemma_dec_chars_digits, lemma_find_from_props, str_trim_ascii, trimmed,
    u64_to_string,
};
use vstd::prelude::*;

verus! {

/// A response: an optional underlying failure (for a synthetic response),
/// the parsed head, and the raw transport bytes after the head.
pub struct Response {
    pub error: Option<Error>,
    pub head: ResponseHead,
    pub body: Vec<u8>,
}

impl Response {
    pub open spec fn wf(&self) -> bool {
        self.head.wf()
    }

    /// Parse a response from accumulated transport bytes: the head up to
    /// the first `\r\n\r\n`, the rest as the raw body.
    pub fn from_bytes(bytes: &[u8]) -> (r: Result<Response, Error>)
        ensures
            r is Ok <==> spec_head_ok(bytes@),
            r matches Ok(resp) ==> resp.wf() && head_matches(bytes@, resp.head) && resp.error
                is None,
            r matches Err(e) ==> e.kind() == ErrorKind::BadStatus || e.kind()
                == ErrorKind::BadHeader,
    {
        let term = match crate::http11::find_terminator(bytes) {
            Some(t) => t,
            None => {
                return Err(Error::BadStatus);
            },
        };
        match parse_response_head(bytes) {
            Ok(Some(head)) => {
                let n = bytes.len();
                let body = vstd::slice::slice_to_vec(
                    vstd::slice::slice_subrange(bytes, term + 4, n),
                );
                Ok(Response { error: None, head, body })
            },
            Ok(None) => Err(Error::BadStatus),
            Err(e) => Err(e),
        }
    }

    /// The whole status line, such as `HTTP/1.1 200 OK`.
    pub fn status_line(&self) -> (r: &str)
        requires
            self.wf(),
        ensures
            r@ == self.head.status_line@,
    {
        self.head.status_line.as_str()
    }

    /// The version token, such as `HTTP/1.1`.
    pub fn http_version(&self) -> (r: &str)
        requires
            self.wf(),
        ensures
            r@ == self.head.status_line@.subrange(0, self.head.index1 as int),
    {
        self.head.http_version()
    }

    /// The numeric status, such as 200.
    pub fn status(&self) -> (r: u16)
        ensures
            r == self.head.status,
    {
        self.head.status
    }

    /// The reason text after the status, trimmed, such as `OK`.
    pub fn status_text(&self) -> (r: &str)
        requires
            self.wf(),
        ensures
            r@ == trimmed(self.head.status_line@.skip(self.head.index2 + 1)),
    {
        let n = self.head.status_line.as_str().unicode_len();
        let tail = self.head.status_line.as_str().substring_ascii(self.head.index2 + 1, n);
        proof {
            assert(tail@ =~= self.head.status_line@.skip(self.head.index2 + 1));
        }
        str_trim_ascii(tail)
    }

    /// The value of the first header with this name, ignoring case.
    pub fn header<'a>(&'a self, name: &str) -> (r: Option<&'a str>)
        requires
            self.wf(),
        ensures
            match spec_find_header(self.head.headers@, name@) {
                Some(i) => r matches Some(v) && v@ == self.head.headers@[i].value_view(),
                None => r is None,
            },
    {
        get_header(&self.head.headers, name)
    }

    /// Whether a header with this name is present, ignoring case.
    pub fn has(&self, name: &str) -> (r: bool)
        requires
            self.wf(),
        ensures
            r == (spec_find_header(self.head.headers@, name@) is Some),
    {
        has_header(&self.head.headers, name)
    }

    /// Every value of headers with this name, in order.
    pub fn all<'a>(&'a self, name: &str) -> (r: Vec<&'a str>)
        requires
            self.wf(),
        ensures
            r@.map_values(|v: &str| v@) == self.head.headers@.filter(
                |h: Header| crate::strutil::eq_nocase(h.name_view(), name@),
            ).map_values(|h: Header| h.value_view()),
    {
        get_all_headers(&self.head.headers, name)
    }

    /// The status says success: 200 through 299.
    pub fn ok(&self) -> (r: bool)
        ensures
            r == (200 <= self.head.status <= 299),
    {
        200 <= self.head.status && self.head.status <= 299
    }

    /// The status says redirect: 300 through 399.
    pub fn redirect(&self) -> (r: bool)
        ensures
            r == (300 <= self.head.status <= 399),
    {
        300 <= self.head.status && self.head.status <= 399
    }

    /// The status says caller error: 400 through 499.
    pub fn client_error(&self) -> (r: bool)
        ensures
            r == (400 <= self.head.status <= 499),
    {
        400 <= self.head.status && self.head.status <= 499
    }

    /// The status says server error: 500 through 599.
    pub fn server_error(&self) -> (r: bool)
        ensures
            r == (500 <= self.head.status <= 599),
    {
        500 <= self.head.status && self.head.status <= 599
    }

    /// The status says some error: 400 through 599.
    pub fn error(&self) -> (r: bool)
        ensures
            r == (400 <= self.head.status <= 599),
    {
        self.client_error() || self.server_error()
    }

    /// Whether this response stands in for a failure rather than a peer's
    /// answer.
    pub fn synthetic(&self) -> (r: bool)
        ensures
            r == (self.error is Some),
    {
        self.error.is_some()
    }

    /// The underlying failure of a synthetic response.
    pub fn synthetic_error(&self) -> (r: &Option<Error>)
        ensures
            r == &self.error,
    {
        &self.error
    }
}

/// The media type of the `Content-Type` value: everything before its
/// first `;`, or the whole value.
pub open spec fn spec_media_type(ct: Seq<char>) -> Seq<char> {
    match find_from(ct, ';', 0) {
        Some(i) => ct.take(i),
        None => ct,
    }
}

/// The charset a `Content-Type` value declares: after its first `;`, the
/// text after the first `=`, trimmed; nothing without `;` or `=`.
pub open spec fn spec_declared_charset(ct: Seq<char>) -> Option<Seq<char>> {
    match find_from(ct, ';', 0) {
        Some(semi) => match find_from(ct, '=', semi + 1) {
            Some(eq) => Some(trimmed(ct.skip(eq + 1))),
            None => None,
        },
        None => None,
    }
}

impl Response {
    /// The media type of the response, `text/plain` when none is declared.
    pub fn content_type<'a>(&'a self) -> (r: &'a str)
        requires
            self.wf(),
        ensures
            r@ == (match spec_find_header(self.head.headers@, ("content-type")@) {
                Some(i) => spec_media_type(self.head.headers@[i].value_view()),
                None => ("text/plain")@,
            }),
    {
        proof {
            assert((59u8 as char) == ';');
        }
        match get_header(&self.head.headers, "content-type") {
            Some(v) => {
                proof {
                    lemma_find_from_props(v@, ';', 0);
                }
                let n = v.unicode_len();
                match crate::strutil::find_char_str(v, 0, 59) {
                    Some(i) => {
                        let r = v.substring_ascii(0, i);
                        proof {
                            assert(r@ =~= v@.take(i as int));
                        }
                        r
                    },
                    None => v,
                }
            },
            None => "text/plain",
        }
    }

    /// The charset the response declares, `utf-8` when none is declared.
    pub fn charset<'a>(&'a self) -> (r: &'a str)
        requires
            self.wf(),
        ensures
            r@ == (match spec_find_header(self.head.headers@, ("content-type")@) {
                Some(i) => match spec_declared_charset(self.head.headers@[i].value_view()) {
                    Some(cs) => cs,
                    None => ("utf-8")@,
                },
                None => ("utf-8")@,
            }),
            r.is_ascii(),
    {
        proof {
            assert((59u8 as char) == ';');
            assert((61u8 as char) == '=');
            reveal_strlit("utf-8");
            assert(vstd::utf8::is_ascii_chars(("utf-8")@)) by {
                assert forall|i: int|
                    0 <= i < ("utf-8")@.len() implies '\0' <= #[trigger] ("utf-8")@[i]
                    <= '\u{7f}' by {
                    if i == 0 {
                        assert(("utf-8")@[0] == 'u');
                    } else if i == 1 {
                        assert(("utf-8")@[1] == 't');
                    } else if i == 2 {
                        assert(("utf-8")@[2] == 'f');
                    } else if i == 3 {
                        assert(("utf-8")@[3] == '-');
                    } else {
                        assert(("utf-8")@[4] == '8');
                    }
                }
            }
        }
        match get_header(&self.head.headers, "content-type") {
            Some(v) => {
                proof {
                    lemma_find_from_props(v@, ';', 0);
                }
                let n0 = v.unicode_len();
                match crate::strutil::find_char_str(v, 0, 59) {
                    Some(semi) => {
                        proof {
                            lemma_find_from_props(v@, '=', semi + 1);
                        }
                        match crate::strutil::find_char_str(v, semi + 1, 61) {
                            Some(eq) => {
                                let n = v.unicode_len();
                                let tail = v.substring_ascii(eq + 1, n);
                                proof {
                                    assert(tail@ =~= v@.skip(eq + 1));
                                }
                                str_trim_ascii(tail)
                            },
                            None => "utf-8",
                        }
                    },
                    None => "utf-8",
                }
            },
            None => "utf-8",
        }
    }
}

/// Whether the response body uses chunked framing: a `Transfer-Encoding`
/// header with any non-empty value.
pub open spec fn spec_resp_chunked(head: ResponseHead) -> bool {
    match spec_find_header(head.headers@, ("transfer-encoding")@) {
        Some(i) => head.headers@[i].value_view().len() > 0,
        None => false,
    }
}

/// The parsed `Content-Length`, when present and a plain decimal number.
pub open spec fn spec_resp_length(head: ResponseHead) -> Option<nat> {
    match spec_find_header(head.headers@, ("content-length")@) {
        Some(i) => {
            let v = head.headers@[i].value_view();
            if v.len() > 0 && crate::strutil::all_digits(v) && crate::strutil::dec_value(v)
                <= u64::MAX {
                Some(crate::strutil::dec_value(v))
            } else {
                None
            }
        },
        None => None,
    }
}

/// How the raw body bytes relate to the payload handed out: de-chunked
/// when chunked framing is declared, cut to the declared length when one
/// is given, unchanged otherwise.
pub open spec fn spec_payload_rel(head: ResponseHead, body: Seq<u8>, out: Seq<u8>) -> bool {
    if spec_resp_chunked(head) {
        exists|k: int|
            0 <= k <= body.len() && match #[trigger] crate::chunked::spec_run(
                (ChunkState::ReadSize { size: 0u64, seen: false }),
                body.take(k),
            ) {
                Some((st, o)) => out == o && (k == body.len() || st is End),
                None => false,
            }
    } else {
        match spec_resp_length(head) {
            Some(n) => out == body.take(vstd::math::min(n as int, body.len() as int)),
            None => out == body,
        }
    }
}

/// A cursor over the delimited payload of a response.
pub struct ResponseReader {
    pub data: Vec<u8>,
    pub pos: usize,
}

impl ResponseReader {
    pub open spec fn wf(&self) -> bool {
        self.pos <= self.data@.len()
    }

    /// Read up to `max` payload bytes; empty exactly at the end.
    pub fn read(&mut self, max: usize) -> (r: Vec<u8>)
        requires
            old(self).wf(),
        ensures
            final(self).wf(),
            final(self).data == old(self).data,
            r@ == old(self).data@.subrange(
                old(self).pos as int,
                old(self).pos + r@.len(),
            ),
            r@.len() == vstd::math::min(max as int, old(self).data@.len() - old(self).pos),
            final(self).pos == old(self).pos + r@.len(),
    {
        let left = self.data.len() - self.pos;
        let k = if max < left {
            max
        } else {
            left
        };
        let piece = vstd::slice::slice_to_vec(
            vstd::slice::slice_subrange(self.data.as_slice(), self.pos, self.pos + k),
        );
        self.pos = self.pos + k;
        piece
    }

    /// Read everything left.
    pub fn read_to_end(&mut self) -> (r: Vec<u8>)
        requires
            old(self).wf(),
        ensures
            final(self).wf(),
            r@ == old(self).data@.skip(old(self).pos as int),
            final(self).pos == final(self).data@.len(),
            final(self).data == old(self).data,
    {
        let n = self.data.len();
        let piece = vstd::slice::slice_to_vec(
            vstd::slice::slice_subrange(self.data.as_slice(), self.pos, n),
        );
        self.pos = n;
        piece
    }
}

/// A byte cursor that stops at a declared limit, whichever of the limit
/// and the data ends first.
pub struct LimitedRead {
    pub data: Vec<u8>,
    pub pos: usize,
    pub limit: usize,
}

impl LimitedRead {
    pub open spec fn wf(&self) -> bool {
        self.pos <= self.data@.len() && self.pos <= self.limit
    }

    pub fn new(data: Vec<u8>, limit: usize) -> (r: Self)
        ensures
            r.data == data,
            r.pos == 0,
            r.limit == limit,
            r.wf(),
    {
        LimitedRead { data, pos: 0, limit }
    }

    /// Read up to `max` bytes, never past the limit.
    pub fn read(&mut self, max: usize) -> (r: Vec<u8>)
        requires
            old(self).wf(),
        ensures
            final(self).wf(),
            final(self).data == old(self).data,
            final(self).limit == old(self).limit,
            r@ == old(self).data@.subrange(old(self).pos as int, old(self).pos + r@.len()),
            r@.len() == vstd::math::min(
                max as int,
                vstd::math::min(
                    old(self).data@.len() - old(self).pos,
                    old(self).limit - old(self).pos,
                ),
            ),
            final(self).pos == old(self).pos + r@.len(),
    {
        let left_data = self.data.len() - self.pos;
        let left_limit = self.limit - self.pos;
        let left = if left_data < left_limit {
            left_data
        } else {
            left_limit
        };
        let k = if max < left {
            max
        } else {
            left
        };
        let piece = vstd::slice::slice_to_vec(
            vstd::slice::slice_subrange(self.data.as_slice(), self.pos, self.pos + k),
        );
        self.pos = self.pos + k;
        piece
    }
}

impl Response {
    /// Turn the response into a reader of its payload, applying the
    /// transport delimiter the headers declare: de-chunking under
    /// `Transfer-Encoding`, cutting to `Content-Length`, or passing the
    /// bytes through. Fails exactly when declared chunked framing does
    /// not decode.
    pub fn into_reader(self) -> (r: Result<ResponseReader, Error>)
        requires
            self.wf(),
        ensures
            r matches Ok(rr) ==> rr.pos == 0 && rr.wf() && spec_payload_rel(
                self.head,
                self.body@,
                rr.data@,
            ),
            r is Err <==> spec_resp_chunked(self.head) && !(exists|k: int|
                0 <= k <= self.body@.len() && (crate::chunked::spec_run(
                    (ChunkState::ReadSize { size: 0u64, seen: false }),
                    #[trigger] self.body@.take(k),
                ) matches Some(st_o) && (k == self.body@.len() || st_o.0 is End))),
    {
        let is_chunked = match get_header(&self.head.headers, "transfer-encoding") {
            Some(v) => v.unicode_len() > 0,
            None => false,
        };
        if is_chunked {
            let mut dec = ChunkedDecoder::new();
            let mut out: Vec<u8> = Vec::new();
            match dec.decode(self.body.as_slice(), &mut out) {
                Ok(k) => {
                    proof {
                        let ks = k as int;
                        assert(0 <= ks <= self.body@.len());
                        assert(crate::chunked::spec_run(
                            (ChunkState::ReadSize { size: 0u64, seen: false }),
                            self.body@.take(ks),
                        ) matches Some(st_o) && (ks == self.body@.len() || st_o.0 is End));
                        assert(out@ =~= Seq::<u8>::empty() + out@);
                    }
                    Ok(ResponseReader { data: out, pos: 0 })
                },
                Err(e) => {
                    proof {
                        assert forall|k: int|
                            0 <= k <= self.body@.len() implies !(crate::chunked::spec_run(
                            (ChunkState::ReadSize { size: 0u64, seen: false }),
                            #[trigger] self.body@.take(k),
                        ) matches Some(st_o) && (k == self.body@.len() || st_o.0 is End)) by {
                            lemma_chunked_err_no_clean_run(self.body@, k);
                        }
                    }
                    Err(e)
                },
            }
        } else {
            match get_header(&self.head.headers, "content-length") {
                Some(v) => match crate::strutil::parse_u64_ascii(v) {
                    Some(n) => {
                        let blen = self.body.len();
                        let k: usize = if n < (blen as u64) {
                            n as usize
                        } else {
                            blen
                        };
                        let data = vstd::slice::slice_to_vec(
                            vstd::slice::slice_subrange(self.body.as_slice(), 0, k),
                        );
                        proof {
                            assert(data@ =~= self.body@.take(
                                vstd::math::min(n as int, self.body@.len() as int),
                            ));
                        }
                        Ok(ResponseReader { data, pos: 0 })
                    },
                    None => Ok(ResponseReader { data: self.body, pos: 0 }),
                },
                None => Ok(ResponseReader { data: self.body, pos: 0 }),
            }
        }
    }
}

/// When decoding rejects, no prefix of the input runs cleanly to the end
/// of the input or of the stream.
proof fn lemma_chunked_err_no_clean_run(body: Seq<u8>, k: int)
    requires
        0 <= k <= body.len(),
        exists|j: int|
            0 <= j < body.len() && match #[trigger] crate::chunked::spec_run(
                (ChunkState::ReadSize { size: 0u64, seen: false }),
                body.take(j),
            ) {
                Some((s2, _)) => crate::chunked::spec_step(s2, body[j]) is None && !(s2 is End),
                None => false,
            },
    ensures
        !(crate::chunked::spec_run(
            (ChunkState::ReadSize { size: 0u64, seen: false }),
            body.take(k),
        ) matches Some(st_o) && (k == body.len() || st_o.0 is End)),
{
    let s0 = (ChunkState::ReadSize { size: 0u64, seen: false });
    let j = choose|j: int|
        0 <= j < body.len() && match #[trigger] crate::chunked::spec_run(s0, body.take(j)) {
            Some((s2, _)) => crate::chunked::spec_step(s2, body[j]) is None && !(s2 is End),
            None => false,
        };
    assert(body.take(j + 1) =~= body.take(j).push(body[j]));
    crate::chunked::lemma_run_snoc(s0, body.take(j), body[j]);
    assert(crate::chunked::spec_run(s0, body.take(j + 1)) is None);
    if crate::chunked::spec_run(s0, body.take(k)) matches Some(st_o) && (k == body.len()
        || st_o.0 is End) {
        if k >= j + 1 {
            crate::chunked::lemma_run_none_extend(s0, body, j + 1, k);
            assert(false);
        } else {
            if k == body.len() {
                assert(false);
            } else {
                match crate::chunked::spec_run(s0, body.take(k)) {
                    Some((st, _)) => {
                        assert(st is End);
                        if k == j {
                            assert(false);
                        } else {
                            assert(body.take(k + 1) =~= body.take(k).push(body[k]));
                            crate::chunked::lemma_run_snoc(s0, body.take(k), body[k]);
                            assert(crate::chunked::spec_step(st, body[k]) is None);
                            assert(crate::chunked::spec_run(s0, body.take(k + 1)) is None);
                            crate::chunked::lemma_run_none_extend(s0, body, k + 1, j);
                            assert(false);
                        }
                    },
                    None => {
                        assert(false);
                    },
                }
            }
        }
    }
}

/// Whether serde_json parses these bytes as a JSON document.
pub uninterp spec fn json_parse_ok(bytes: Seq<u8>) -> bool;

#[verifier::external_type_specification]
#[verifier::external_body]
pub struct ExJsonValue(serde_json::Value);

/// Relies on serde_json's `from_slice`: whether bytes parse as JSON is a
/// function of the bytes alone.
#[verifier::external_body]
fn json_from_bytes(data: &[u8]) -> (r: Result<serde_json::Value, String>)
    ensures
        r is Ok <==> json_parse_ok(data@),
{
    serde_json::from_slice(data).map_err(|e| format!("{}", e))
}

impl Response {
    /// Decode the payload as text: through the declared charset when the
    /// `encoding` library knows it, else as UTF-8, malformed sequences
    /// replaced either way. Fails exactly when declared chunked framing
    /// does not decode.
    pub fn into_string(self) -> (r: Result<String, Error>)
        requires
            self.wf(),
        ensures
            r matches Ok(s) ==> exists|bv: Seq<u8>|
                #[trigger] spec_payload_rel(self.head, self.body@, bv) && {
                    let cs = (match spec_find_header(self.head.headers@, ("content-type")@) {
                        Some(i) => match spec_declared_charset(
                            self.head.headers@[i].value_view(),
                        ) {
                            Some(c) => c,
                            None => ("utf-8")@,
                        },
                        None => ("utf-8")@,
                    });
                    match crate::body::charset_decoded(cs, bv) {
                        Some(t) => s@ == t,
                        None => crate::body::charset_decoded(("utf-8")@, bv) == Some(s@),
                    }
                },
            r is Err <==> (spec_resp_chunked(self.head) && !(exists|k: int|
                0 <= k <= self.body@.len() && (crate::chunked::spec_run(
                    (ChunkState::ReadSize { size: 0u64, seen: false }),
                    #[trigger] self.body@.take(k),
                ) matches Some(st_o) && (k == self.body@.len() || st_o.0 is End)))),
    {
        let cs = self.charset().to_owned();
        let mut reader = match self.into_reader() {
            Ok(rr) => rr,
            Err(e) => {
                return Err(e);
            },
        };
        let bytes = reader.read_to_end();
        proof {
            assert(bytes@ =~= reader.data@);
        }
        match crate::body::charset_decode(cs.as_str(), bytes.as_slice()) {
            Some(s) => Ok(s),
            None => match crate::body::charset_decode("utf-8", bytes.as_slice()) {
                Some(s) => Ok(s),
                None => {
                    proof {
                        assert(false);
                    }
                    Err(Error::BadHeader)
                },
            },
        }
    }

    /// Parse the payload as JSON. Fails when declared chunked framing
    /// does not decode, and exactly on payloads that are not JSON.
    pub fn into_json(self) -> (r: Result<serde_json::Value, Error>)
        requires
            self.wf(),
        ensures
            r is Ok ==> exists|bv: Seq<u8>|
                #[trigger] spec_payload_rel(self.head, self.body@, bv) && json_parse_ok(bv),
            r is Err <==> (spec_resp_chunked(self.head) && !(exists|k: int|
                0 <= k <= self.body@.len() && (crate::chunked::spec_run(
                    (ChunkState::ReadSize { size: 0u64, seen: false }),
                    #[trigger] self.body@.take(k),
                ) matches Some(st_o) && (k == self.body@.len() || st_o.0 is End)))) || (exists|bv: Seq<u8>|
                #[trigger] spec_payload_rel(self.head, self.body@, bv) && !json_parse_ok(bv)),
    {
        let ghost head0 = self.head;
        let ghost body0 = self.body@;
        let mut reader = match self.into_reader() {
            Ok(rr) => rr,
            Err(e) => {
                return Err(e);
            },
        };
        let bytes = reader.read_to_end();
        proof {
            assert(bytes@ =~= reader.data@);
        }
        match json_from_bytes(bytes.as_slice()) {
            Ok(v) => {
                proof {
                    assert forall|bv: Seq<u8>|
                        #[trigger] spec_payload_rel(head0, body0, bv) implies json_parse_ok(
                        bv,
                    ) by {
                        lemma_payload_unique(head0, body0, bv, bytes@);
                    }
                }
                Ok(v)
            },
            Err(msg) => Err(
                Error::Message(String::from_str("Failed to read JSON: ").concat(msg.as_str())),
            ),
        }
    }

    /// Build a response with a status, reason text and a text body, as a
    /// test or a synthetic failure would. Succeeds exactly for a status
    /// of at least 100 with non-empty ASCII reason text.
    pub fn new(status: u16, status_text: &str, body: &str) -> (r: Result<Response, Error>)
        ensures
            r is Ok <==> status >= 100 && vstd::utf8::is_ascii_chars(status_text@)
                && status_text@.len() > 0,
            r matches Ok(resp) ==> resp.wf() && resp.head.status == status && resp.error is None
                && resp.body@ == vstd::utf8::encode_utf8(body@) + seq![10u8]
                && resp.head.headers@ == Seq::<Header>::empty() && trimmed(
                resp.head.status_line@.skip(resp.head.index2 + 1),
            ) == trimmed(status_text@),
            r matches Err(e) ==> e.kind() == ErrorKind::BadStatus,
    {
        if !(status >= 100 && status_text.is_ascii() && status_text.unicode_len() > 0) {
            return Err(Error::BadStatus);
        }
        let digits = u64_to_string(status as u64);
        let nd = digits.as_str().unicode_len();
        let mut line = String::from_str("HTTP/1.1 ");
        line.append(digits.as_str());
        line.append(" ");
        line.append(status_text);
        proof {
            lemma_built_status_line(line@, status, status_text@);
            lemma_dec_chars_digits(status as nat);
        }
        let ll = line.as_str().unicode_len();
        let head = ResponseHead {
            status_line: line,
            index1: 8,
            index2: 8 + nd,
            status,
            headers: Vec::new(),
        };
        let mut body_bytes = body.as_bytes_vec();
        body_bytes.push(10);
        proof {
            assert(head.wf());
            reveal_strlit("HTTP/1.1 ");
            reveal_strlit(" ");
            assert(("HTTP/1.1 ")@.len() == 9);
            assert((" ")@.len() == 1 && (" ")@[0] == ' ');
            assert(head.status_line@.skip(head.index2 + 1) =~= seq![' '] + status_text@);
            assert((seq![' '] + status_text@)[0] == ' ');
            assert(crate::strutil::is_space_char(' '));
            assert(crate::strutil::trim_front(seq![' '] + status_text@)
                == crate::strutil::trim_front((seq![' '] + status_text@).drop_first()));
            assert((seq![' '] + status_text@).drop_first() =~= status_text@);
        }
        Ok(Response { error: None, head, body: body_bytes })
    }

    /// The synthetic response standing in for a failure: its status and
    /// reason text come from the failure, its body from the failure's
    /// message, and the failure itself is kept.
    pub fn from_error(e: Error) -> (r: Result<Response, Error>)
        ensures
            r matches Ok(resp) ==> resp.wf() && resp.head.status == e.spec_status()
                && resp.error == Some(e),
    {
        let status = e.status();
        let text = e.status_text();
        let msg = e.message();
        match Response::new(status, text, msg.as_str()) {
            Ok(mut resp) => {
                resp.error = Some(e);
                Ok(resp)
            },
            Err(e2) => Err(e2),
        }
    }
}

/// A line `HTTP/1.1 <digits> <text>` parses as a status line with the
/// version split at 8, the status token being exactly those digits, and
/// non-empty reason text.
proof fn lemma_built_status_line(line: Seq<char>, status: u16, text: Seq<char>)
    requires
        line == ("HTTP/1.1 ")@ + dec_chars(status as nat) + (" ")@ + text,
        status >= 100,
        vstd::utf8::is_ascii_chars(text),
        text.len() > 0,
    ensures
        crate::http11::spec_parse_status_line(line) == Some(
            ((8int, 8 + dec_chars(status as nat).len() as int), status),
        ),
        vstd::utf8::is_ascii_chars(line),
        8 + dec_chars(status as nat).len() < line.len(),
{
    reveal_strlit("HTTP/1.1 ");
    reveal_strlit(" ");
    let nd = dec_chars(status as nat).len() as int;
    lemma_dec_chars_digits(status as nat);
    crate::strutil::lemma_dec_chars_len3(status as nat);
    crate::strutil::lemma_dec_value_roundtrip(status as nat);
    assert((" ")@.len() == 1 && (" ")@[0] == ' ');
    assert(("HTTP/1.1 ")@.len() == 9);
    assert(("HTTP/1.1 ")@[8] == ' ');
    crate::unit::lemma_ascii_concat4(
        line,
        ("HTTP/1.1 ")@,
        dec_chars(status as nat),
        (" ")@,
        text,
    );
    // one pass over the version prefix gives both facts needed of it:
    // each character is ASCII, and none before position 8 is a space
    assert forall|i: int|
        0 <= i < ("HTTP/1.1 ")@.len() implies '\0' <= #[trigger] ("HTTP/1.1 ")@[i] <= '\u{7f}'
        && (i < 8 ==> ("HTTP/1.1 ")@[i] != ' ') by {
        if i == 0 {
            assert(("HTTP/1.1 ")@[0] == 'H');
        } else if i == 1 {
            assert(("HTTP/1.1 ")@[1] == 'T');
        } else if i == 2 {
            assert(("HTTP/1.1 ")@[2] == 'T');
        } else if i == 3 {
            assert(("HTTP/1.1 ")@[3] == 'P');
        } else if i == 4 {
            assert(("HTTP/1.1 ")@[4] == '/');
        } else if i == 5 {
            assert(("HTTP/1.1 ")@[5] == '1');
        } else if i == 6 {
            assert(("HTTP/1.1 ")@[6] == '.');
        } else if i == 7 {
            assert(("HTTP/1.1 ")@[7] == '1');
        } else {
            assert(("HTTP/1.1 ")@[8] == ' ');
        }
    }
    assert(vstd::utf8::is_ascii_chars(("HTTP/1.1 ")@));
    assert(vstd::utf8::is_ascii_chars((" ")@));
    // the first space is at 8
    assert(line[8] == ' ');
    assert forall|j: int| 0 <= j < 8 implies line[j] != ' ' by {
        assert(line[j] == ("HTTP/1.1 ")@[j]);
    }
    crate::strutil::lemma_find_from_props(line, ' ', 0);
    match crate::strutil::find_from(line, ' ', 0) {
        Some(sp1) => {
            assert(!(sp1 < 8));
            assert(!(sp1 > 8));
        },
        None => {
            assert(false);
        },
    }
    // the digits carry no space, so the second space is right after them
    assert forall|j: int| 9 <= j < 9 + nd implies line[j] != ' ' by {
        assert(line[j] == dec_chars(status as nat)[j - 9]);
        assert(48 <= (dec_chars(status as nat)[j - 9] as u32) < 58);
        if dec_chars(status as nat)[j - 9] == ' ' {
            assert((dec_chars(status as nat)[j - 9] as u32) == 32);
        }
    }
    assert(line[9 + nd] == ' ');
    crate::strutil::lemma_find_from_props(line, ' ', 9);
    match crate::strutil::find_from(line, ' ', 9) {
        Some(sp2) => {
            assert(!(sp2 < 9 + nd));
            assert(!(sp2 > 9 + nd));
            assert(line.subrange(9, sp2) =~= dec_chars(status as nat));
            assert(crate::strutil::all_digits(line.subrange(9, sp2))) by {
                assert forall|j: int|
                    0 <= j < nd implies crate::strutil::is_digit_char(
                    #[trigger] line.subrange(9, 9 + nd)[j],
                ) by {
                    assert(line.subrange(9, 9 + nd)[j] == dec_chars(status as nat)[j]);
                    assert(48 <= (dec_chars(status as nat)[j] as u32) < 58);
                }
            }
            assert(crate::strutil::dec_value(line.subrange(9, sp2)) == status);
            assert(sp2 + 1 < line.len());
        },
        None => {
            assert(false);
        },
    }
}

/// The payload a response's headers delimit is unique: two byte
/// sequences both standing in the payload relation are equal.
proof fn lemma_payload_unique(head: ResponseHead, body: Seq<u8>, bv1: Seq<u8>, bv2: Seq<u8>)
    requires
        spec_payload_rel(head, body, bv1),
        spec_payload_rel(head, body, bv2),
    ensures
        bv1 == bv2,
{
    if spec_resp_chunked(head) {
        let s0 = (ChunkState::ReadSize { size: 0u64, seen: false });
        let k1 = choose|k: int|
            0 <= k <= body.len() && match #[trigger] crate::chunked::spec_run(s0, body.take(k)) {
                Some((st, o)) => bv1 == o && (k == body.len() || st is End),
                None => false,
            };
        let k2 = choose|k: int|
            0 <= k <= body.len() && match #[trigger] crate::chunked::spec_run(s0, body.take(k)) {
                Some((st, o)) => bv2 == o && (k == body.len() || st is End),
                None => false,
            };
        if k1 != k2 {
            let ka = if k1 < k2 {
                k1
            } else {
                k2
            };
            let kb = if k1 < k2 {
                k2
            } else {
                k1
            };
            match crate::chunked::spec_run(s0, body.take(ka)) {
                Some((sta, _)) => {
                    assert(ka < body.len());
                    assert(sta is End);
                    assert(body.take(ka + 1) =~= body.take(ka).push(body[ka]));
                    crate::chunked::lemma_run_snoc(s0, body.take(ka), body[ka]);
                    assert(crate::chunked::spec_run(s0, body.take(ka + 1)) is None);
                    crate::chunked::lemma_run_none_extend(s0, body, ka + 1, kb);
                    assert(false);
                },
                None => {
                    assert(false);
                },
            }
        }
        assert(k1 == k2);
    }
}

impl Response {
    /// Parse a response from transport bytes; bytes that do not parse
    /// yield a synthetic response standing in for the failure, with the
    /// failure kept. Unlike `from_bytes`, this never fails.
    pub fn from_bytes_or_synthetic(bytes: &[u8]) -> (r: Response)
        ensures
            r.wf(),
            spec_head_ok(bytes@) ==> head_matches(bytes@, r.head) && r.error is None,
            !spec_head_ok(bytes@) ==> r.head.status == 500 && (r.error matches Some(e) && (
            e.kind() == ErrorKind::BadStatus || e.kind() == ErrorKind::BadHeader)),
    {
        let e = match Response::from_bytes(bytes) {
            Ok(resp) => {
                return resp;
            },
            Err(e) => e,
        };
        let status = e.status();
        let text = e.status_text();
        let msg = e.message();
        match Response::new(status, text, msg.as_str()) {
            Ok(mut resp) => {
                resp.error = Some(e);
                resp
            },
            Err(_) => {
                proof {
                    reveal_strlit("Bad Status");
                    assert(("Bad Status")@.len() == 10);
                    assert(vstd::utf8::is_ascii_chars(("Bad Status")@)) by {
                        assert forall|i: int|
                            0 <= i < ("Bad Status")@.len() implies '\0' <= #[trigger] (
                        "Bad Status")@[i] <= '\u{7f}' by {
                            if i == 0 {
                                assert(("Bad Status")@[0] == 'B');
                            } else if i == 1 {
                                assert(("Bad Status")@[1] == 'a');
                            } else if i == 2 {
                                assert(("Bad Status")@[2] == 'd');
                            } else if i == 3 {
                                assert(("Bad Status")@[3] == ' ');
                            } else if i == 4 {
                                assert(("Bad Status")@[4] == 'S');
                            } else if i == 5 {
                                assert(("Bad Status")@[5] == 't');
                            } else if i == 6 {
                                assert(("Bad Status")@[6] == 'a');
                            } else if i == 7 {
                                assert(("Bad Status")@[7] == 't');
                            } else if i == 8 {
                                assert(("Bad Status")@[8] == 'u');
                            } else {
                                assert(("Bad Status")@[9] == 's');
                            }
                        }
                    }
                }
                match Response::new(500, "Bad Status", "") {
                    Ok(mut resp) => {
                        resp.error = Some(e);
                        resp
                    },
                    Err(_) => {
                        proof {
                            assert(false);
                        }
                        Response {
                            error: None,
                            head: ResponseHead {
                                status_line: String::new(),
                                index1: 0,
                                index2: 0,
                                status: 0,
                                headers: Vec::new(),
                            },
                            body: Vec::new(),
                        }
                    },
                }
            },
        }
    }
}

} // verus!


