//! Transport-body delimiters: how the end of a response body is decided.
//!
//! One of three delimiters is chosen from the response headers: the chunked
//! decoder, a content-length counter, or read-until-close. Chunked and
//! content-length end cleanly and allow connection reuse; until-close ends
//! only when the transport closes.

use crate::chunked::ChunkedDecoder;
use crate::header::{get_header, headers_wf, spec_find_header, Header};
use crate::strutil::{all_digits, dec_value, parse_u64_ascii};
use vstd::prelude::*;

verus! {

/// Reads at most `limit` bytes; `total` counts what has been read.
pub struct ContentLength {
    pub limit: u64,
    pub total: u64,
}

impl ContentLength {
    pub open spec fn wf(&self) -> bool {
        self.total <= self.limit
    }

    pub fn new(limit: u64) -> (r: Self)
        ensures
            r.limit == limit,
            r.total == 0,
            r.wf(),
    {
        ContentLength { limit, total: 0 }
    }

    /// How many bytes may still be asked for into a buffer of `buf_len`.
    pub fn max_read(&self, buf_len: usize) -> (r: usize)
        requires
            self.wf(),
        ensures
            r as int == vstd::math::min(buf_len as int, self.limit - self.total),
    {
        let left64 = self.limit - self.total;
        if left64 < (buf_len as u64) {
            left64 as usize
        } else {
            buf_len
        }
    }

    /// Count `n` more bytes as read.
    pub fn note_read(&mut self, n: usize)
        requires
            old(self).wf(),
            old(self).total + n <= old(self).limit,
        ensures
            final(self).limit == old(self).limit,
            final(self).total == old(self).total + n,
            final(self).wf(),
    {
        self.total = self.total + (n as u64);
    }

    /// Whether the declared length has been fully read.
    pub fn is_done(&self) -> (r: bool)
        ensures
            r == (self.total == self.limit),
    {
        self.total == self.limit
    }
}

/// Reads until the transport closes.
pub struct UntilEnd;

/// The transport-body delimiter chosen from the response headers.
pub enum Limiter {
    ChunkedDecoder(ChunkedDecoder),
    ContentLength(ContentLength),
    UntilEnd(UntilEnd),
}

/// Which delimiter the headers call for: chunked when
/// `Transfer-Encoding: chunked` is present; else the parsed
/// `Content-Length` when present and a plain decimal number; else
/// until-close.
pub enum LimiterKind {
    Chunked,
    Length(u64),
    Eof,
}

/// The `Transfer-Encoding` header names chunked transfer.
pub open spec fn spec_is_chunked(headers: Seq<Header>) -> bool {
    match spec_find_header(headers, ("transfer-encoding")@) {
        Some(i) => headers[i].value_view() == ("chunked")@,
        None => false,
    }
}

/// The parsed `Content-Length` value, when present and parseable.
pub open spec fn spec_content_length(headers: Seq<Header>) -> Option<u64> {
    match spec_find_header(headers, ("content-length")@) {
        Some(i) => {
            let v = headers[i].value_view();
            if v.len() > 0 && all_digits(v) && dec_value(v) <= u64::MAX {
                Some(dec_value(v) as u64)
            } else {
                None
            }
        },
        None => None,
    }
}

pub open spec fn spec_limiter_kind(headers: Seq<Header>) -> LimiterKind {
    if spec_is_chunked(headers) {
        LimiterKind::Chunked
    } else {
        match spec_content_length(headers) {
            Some(v) => LimiterKind::Length(v),
            None => LimiterKind::Eof,
        }
    }
}

impl Limiter {
    /// Well-formed in its counters and decoder state.
    pub open spec fn wf(&self) -> bool {
        match self {
            Limiter::ChunkedDecoder(d) => d.state.wf(),
            Limiter::ContentLength(c) => c.wf(),
            Limiter::UntilEnd(_) => true,
        }
    }

    /// Choose the delimiter the response headers call for.
    pub fn from_res(headers: &Vec<Header>) -> (r: Limiter)
        requires
            headers_wf(headers@),
        ensures
            r.wf(),
            match spec_limiter_kind(headers@) {
                LimiterKind::Chunked => r is ChunkedDecoder && (r matches Limiter::ChunkedDecoder(
                    d,
                ) ==> d.state == (crate::chunked::ChunkState::ReadSize { size: 0u64, seen: false })),
                LimiterKind::Length(v) => r matches Limiter::ContentLength(c) && c.limit == v
                    && c.total == 0,
                LimiterKind::Eof => r is UntilEnd,
            },
    {
        let chunked = match get_header(headers, "transfer-encoding") {
            Some(v) => crate::strutil::ascii_str_eq(v, "chunked"),
            None => false,
        };
        if chunked {
            return Limiter::ChunkedDecoder(ChunkedDecoder::new());
        }
        match get_header(headers, "content-length") {
            Some(v) => match parse_u64_ascii(v) {
                Some(n) => Limiter::ContentLength(ContentLength::new(n)),
                None => Limiter::UntilEnd(UntilEnd),
            },
            None => Limiter::UntilEnd(UntilEnd),
        }
    }

    /// Whether this delimiter ends the body without a transport close, so
    /// that the connection can be reused.
    pub fn is_reusable_conn(&self) -> (r: bool)
        ensures
            r == !(self is UntilEnd),
    {
        match self {
            Limiter::UntilEnd(_) => false,
            _ => true,
        }
    }
}

} // verus!
