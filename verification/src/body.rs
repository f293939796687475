//! The body pipeline: one byte-reader surface over a source, an optional
//! content-encoding codec, and an optional character-set codec.
//!
//! Codec choice depends on headers not known when the body is built, so
//! the content codec starts `Deferred` and is resolved by `configure`
//! exactly once before the first read. Reading yields empty data exactly
//! once, at the end; every later read yields empty data again.

use crate::err::{Error, ErrorKind};
use crate::header::{get_header, headers_wf, spec_find_header, Header};
use crate::strutil::{ascii_str_eq, find_from, lemma_find_from_props};
use vstd::prelude::*;

verus! {

/// How many bytes a drain step asks for at a time.
pub const BUF_SIZE: usize = 16384;

/// The content-encoding codec slot: unresolved, pass-through, or gzip in
/// one direction.
#[derive(Clone, Copy, PartialEq, Eq, Structural, Debug)]
pub enum ContentEncoding {
    Deferred,
    Plain,
    GzipDecode,
    GzipEncode,
}

/// The codec the `Content-Encoding` header calls for: gzip when it names
/// gzip (decode for responses, encode for requests), pass-through when it
/// is absent or names anything else.
pub open spec fn spec_content_encoding(headers: Seq<Header>, is_decode: bool) -> ContentEncoding {
    match spec_find_header(headers, ("content-encoding")@) {
        Some(i) => if headers[i].value_view() == ("gzip")@ {
            if is_decode {
                ContentEncoding::GzipDecode
            } else {
                ContentEncoding::GzipEncode
            }
        } else {
            ContentEncoding::Plain
        },
        None => ContentEncoding::Plain,
    }
}

impl ContentEncoding {
    /// Choose the codec the headers call for.
    pub fn from_headers(headers: &Vec<Header>, is_decode: bool) -> (r: ContentEncoding)
        requires
            headers_wf(headers@),
        ensures
            r == spec_content_encoding(headers@, is_decode),
    {
        match get_header(headers, "content-encoding") {
            Some(v) => if ascii_str_eq(v, "gzip") {
                if is_decode {
                    ContentEncoding::GzipDecode
                } else {
                    ContentEncoding::GzipEncode
                }
            } else {
                ContentEncoding::Plain
            },
            None => ContentEncoding::Plain,
        }
    }
}

/// The charset named by `Content-Type`, when one is declared: the text
/// after the first `=` of the `Content-Type` value's last `;`-separated
/// part (between two `=` when a second occurs).
pub open spec fn spec_charset_of(ct: Seq<char>) -> Option<Seq<char>> {
    let part = match find_last(ct, ';') {
        Some(i) => crate::strutil::trimmed(ct.skip(i + 1)),
        None => crate::strutil::trimmed(ct),
    };
    match find_from(part, '=', 0) {
        Some(p) => match find_from(part, '=', p + 1) {
            Some(q) => Some(part.subrange(p + 1, q)),
            None => Some(part.skip(p + 1)),
        },
        None => None,
    }
}

/// Last position of `c` in `s`.
pub open spec fn find_last(s: Seq<char>, c: char) -> Option<int>
    decreases s.len(),
{
    if s.len() == 0 {
        None
    } else if s.last() == c {
        Some(s.len() - 1)
    } else {
        find_last(s.drop_last(), c)
    }
}

pub proof fn lemma_find_last_props(s: Seq<char>, c: char)
    ensures
        match find_last(s, c) {
            Some(i) => 0 <= i < s.len() && s[i] == c && forall|j: int| i < j < s.len() ==> s[j]
                != c,
            None => forall|j: int| 0 <= j < s.len() ==> s[j] != c,
        },
    decreases s.len(),
{
    if s.len() > 0 && s.last() != c {
        lemma_find_last_props(s.drop_last(), c);
        assert forall|j: int| 0 <= j < s.len() - 1 implies s.drop_last()[j] == s[j] by {}
    }
}

/// The declared charset of the response, from the `Content-Type` header.
pub fn charset_from_headers<'a>(headers: &'a Vec<Header>) -> (r: Option<&'a str>)
    requires
        headers_wf(headers@),
    ensures
        match spec_find_header(headers@, ("content-type")@) {
            Some(i) => match spec_charset_of(headers@[i].value_view()) {
                Some(cs) => r matches Some(v) && v@ == cs && v.is_ascii(),
                None => r is None,
            },
            None => r is None,
        },
{
    let ct = match get_header(headers, "content-type") {
        Some(v) => v,
        None => {
            return None;
        },
    };
    let n = ct.unicode_len();
    proof {
        lemma_find_last_props(ct@, ';');
        assert((59u8 as char) == ';');
        assert((61u8 as char) == '=');
    }
    let mut start: usize = 0;
    let mut j: usize = n;
    while j > 0
        invariant
            ct.is_ascii(),
            n == ct@.len(),
            j <= n,
            forall|k: int| j <= k < n ==> ct@[k] != ';',
        ensures
            j <= n,
            forall|k: int| j <= k < n ==> ct@[k] != ';',
            j == 0 || ct@[j - 1] == ';',
        decreases j,
    {
        let b = ct.get_ascii(j - 1);
        if b == 59 {
            proof {
                let c = ct@[j - 1];
                assert((c as u32) < 128);
                vstd::utf8::char_u32_cast(c, c as u32);
            }
            break;
        }
        proof {
            let c = ct@[j - 1];
            assert((c as u32) < 128);
            if c == ';' {
                vstd::utf8::char_u32_cast(c, c as u32);
                assert(false);
            }
        }
        j = j - 1;
    }
    proof {
        match find_last(ct@, ';') {
            Some(i) => {
                assert(!(i < j - 1 && j >= 1));
                assert(!(i >= j));
                assert(j >= 1 && i == j - 1);
            },
            None => {
                assert(j == 0) by {
                    if j > 0 {
                        assert(ct@[j - 1] == ';');
                    }
                }
            },
        }
    }
    start = j;
    let part = crate::strutil::str_trim_ascii(ct.substring_ascii(start, n));
    proof {
        assert(ct@.subrange(start as int, n as int) =~= if start == 0 {
            ct@
        } else {
            ct@.skip(start as int)
        });
        lemma_find_from_props(part@, '=', 0);
    }
    let p = match crate::strutil::find_char_str(part, 0, 61) {
        Some(p) => p,
        None => {
            return None;
        },
    };
    proof {
        lemma_find_from_props(part@, '=', p + 1);
    }
    let np = part.unicode_len();
    match crate::strutil::find_char_str(part, p + 1, 61) {
        Some(q) => Some(part.substring_ascii(p + 1, q)),
        None => {
            let r = part.substring_ascii(p + 1, np);
            proof {
                assert(r@ =~= part@.skip(p + 1));
            }
            Some(r)
        },
    }
}

/// The gzip stream flate2's encoder produces for these bytes, at the fast
/// compression level.
pub uninterp spec fn gzip_of(s: Seq<u8>) -> Seq<u8>;

/// What flate2's decoder makes of these bytes: the decompressed payload,
/// or nothing when they are not a well-formed gzip stream.
pub uninterp spec fn gunzip_of(s: Seq<u8>) -> Option<Seq<u8>>;

/// Relies on flate2's `GzEncoder` at `Compression::fast()`: the output is
/// a function of the input bytes alone, and decodes back to the input.
#[verifier::external_body]
fn gzip_encode(data: &[u8]) -> (r: Vec<u8>)
    ensures
        r@ == gzip_of(data@),
        gunzip_of(r@) == Some(data@),
{
    let mut enc = flate2::write::GzEncoder::new(Vec::new(), flate2::Compression::fast());
    let _ = std::io::Write::write_all(&mut enc, data);
    enc.finish().unwrap_or_default()
}

/// Relies on flate2's `GzDecoder`: decoding is a function of the input
/// bytes alone, and fails exactly on input that is not a gzip stream.
#[verifier::external_body]
fn gzip_decode(data: &[u8]) -> (r: Option<Vec<u8>>)
    ensures
        match r {
            Some(v) => gunzip_of(data@) == Some(v@),
            None => gunzip_of(data@) is None,
        },
{
    let mut dec = flate2::read::GzDecoder::new(data);
    let mut out = Vec::new();
    match std::io::Read::read_to_end(&mut dec, &mut out) {
        Ok(_) => Some(out),
        Err(_) => None,
    }
}

/// What the `encoding` crate decodes these bytes to under the charset
/// with this WHATWG label, replacing malformed sequences; nothing when
/// the label names no known charset.
pub uninterp spec fn charset_decoded(label: Seq<char>, bytes: Seq<u8>) -> Option<Seq<char>>;

/// Relies on encoding's `encoding_from_whatwg_label` and
/// `Encoding::decode` with the replacement trap: the result depends on
/// the label and the bytes alone, and the `utf-8` label is always known.
#[verifier::external_body]
pub(crate) fn charset_decode(label: &str, data: &[u8]) -> (r: Option<String>)
    ensures
        match r {
            Some(s) => charset_decoded(label@, data@) == Some(s@),
            None => charset_decoded(label@, data@) is None,
        },
        label@ == ("utf-8")@ ==> r is Some,
{
    match encoding::label::encoding_from_whatwg_label(label) {
        Some(enc) => enc.decode(data, encoding::DecoderTrap::Replace).ok(),
        None => None,
    }
}

/// Lazy transcoding from a declared charset into UTF-8 output bytes.
pub struct CharCodec {
    pub charset: String,
    pub decode: bool,
}

impl CharCodec {
    pub fn new(charset: &str, decode: bool) -> (r: Self)
        ensures
            r.charset@ == charset@,
            r.decode == decode,
    {
        CharCodec { charset: charset.to_owned(), decode }
    }
}

/// What kind of source feeds a body, and for a response body, which
/// protocol the connection underneath speaks.
#[derive(Clone, Copy, PartialEq, Eq, Structural, Debug)]
pub enum BodyImpl {
    RequestEmpty,
    RequestBuffered,
    RequestRead,
    RequestAsyncRead,
    Http1,
    Http2,
}

/// What a reader step produced: bytes (empty exactly at the source's
/// end), or a request for more source input.
pub enum ReaderPoll {
    Data(Vec<u8>),
    NeedInput,
}

/// The byte source under a body: buffered source bytes, with ghost
/// histories of everything taken in and everything handed out.
pub struct BodyReader {
    pub imp: BodyImpl,
    pub fed: Vec<u8>,
    pub source_ended: bool,
    pub is_finished: bool,
    pub consumed: Ghost<Seq<u8>>,
    pub emitted: Ghost<Seq<u8>>,
}

impl BodyReader {
    /// Everything taken in is either handed out already or still buffered.
    pub open spec fn wf(&self) -> bool {
        self.consumed@ == self.emitted@ + self.fed@
    }

    pub fn new(imp: BodyImpl, initial: Vec<u8>, ended: bool) -> (r: Self)
        ensures
            r.imp == imp,
            r.fed@ == initial@,
            r.source_ended == ended,
            !r.is_finished,
            r.consumed@ == initial@,
            r.emitted@ == Seq::<u8>::empty(),
            r.wf(),
    {
        let ghost c = initial@;
        BodyReader {
            imp,
            fed: initial,
            source_ended: ended,
            is_finished: false,
            consumed: Ghost(c),
            emitted: Ghost(Seq::empty()),
        }
    }

    /// Feed source bytes in; `end` marks the source as over.
    pub fn push_source(&mut self, chunk: &[u8], end: bool)
        requires
            old(self).wf(),
        ensures
            final(self).wf(),
            final(self).imp == old(self).imp,
            final(self).fed@ == old(self).fed@ + chunk@,
            final(self).consumed@ == old(self).consumed@ + chunk@,
            final(self).emitted@ == old(self).emitted@,
            final(self).source_ended == (old(self).source_ended || end),
            final(self).is_finished == old(self).is_finished,
    {
        self.fed.extend_from_slice(chunk);
        if end {
            self.source_ended = true;
        }
        proof {
            self.consumed = Ghost(self.consumed@ + chunk@);
            assert(self.consumed@ =~= self.emitted@ + self.fed@);
        }
    }

    /// Hand out up to `max` buffered bytes; empty data exactly when the
    /// source ended and nothing is buffered.
    pub fn read(&mut self, max: usize) -> (r: ReaderPoll)
        requires
            old(self).wf(),
            max >= 1,
        ensures
            final(self).wf(),
            final(self).imp == old(self).imp,
            final(self).source_ended == old(self).source_ended,
            final(self).consumed@ == old(self).consumed@,
            match r {
                ReaderPoll::Data(d) => {
                    &&& final(self).emitted@ == old(self).emitted@ + d@
                    &&& d@.len() as int == vstd::math::min(max as int, old(self).fed@.len() as int)
                    &&& d@.len() <= max
                    &&& d@.len() <= old(self).fed@.len()
                    &&& final(self).fed@ == old(self).fed@.skip(d@.len() as int)
                    &&& d@ == old(self).fed@.take(d@.len() as int)
                    &&& (d@.len() == 0 <==> old(self).fed@.len() == 0 && old(self).source_ended)
                    &&& final(self).is_finished == (old(self).is_finished || d@.len() == 0)
                },
                ReaderPoll::NeedInput => {
                    &&& *final(self) == *old(self)
                    &&& old(self).fed@.len() == 0
                    &&& !old(self).source_ended
                },
            },
    {
        if self.fed.len() == 0 {
            if self.source_ended {
                self.is_finished = true;
                proof {
                    assert(self.fed@.skip(0) =~= self.fed@);
                    assert(self.fed@.take(0) =~= Seq::<u8>::empty());
                    assert(self.emitted@ + Seq::<u8>::empty() =~= self.emitted@);
                }
                return ReaderPoll::Data(Vec::new());
            }
            return ReaderPoll::NeedInput;
        }
        let k = if max < self.fed.len() {
            max
        } else {
            self.fed.len()
        };
        let rest = self.fed.split_off(k);
        let data = self.fed.split_off(0);
        self.fed = rest;
        proof {
            self.emitted = Ghost(self.emitted@ + data@);
            assert(self.consumed@ =~= self.emitted@ + self.fed@);
        }
        ReaderPoll::Data(data)
    }
}

/// Once nothing is left buffered, everything taken in has been handed
/// out: the reader passes its source through unchanged.
pub proof fn lemma_reader_passthrough(r: &BodyReader)
    requires
        r.wf(),
        r.fed@.len() == 0,
    ensures
        r.emitted@ == r.consumed@,
{
    assert(r.emitted@ + r.fed@ =~= r.emitted@);
}

/// The bytes the body pipeline yields for raw source bytes: the content
/// codec first (gzip one way or the other, or pass-through; `None` on a
/// gzip stream that does not decode), then the declared charset decoded
/// into UTF-8 (an unknown charset passes through).
pub open spec fn spec_transform(
    codec: ContentEncoding,
    cs: Option<(Seq<char>, bool)>,
    raw: Seq<u8>,
) -> Option<Seq<u8>> {
    let step1 = match codec {
        ContentEncoding::GzipDecode => gunzip_of(raw),
        ContentEncoding::GzipEncode => Some(gzip_of(raw)),
        _ => Some(raw),
    };
    match step1 {
        None => None,
        Some(b) => Some(
            match cs {
                Some((label, true)) => match charset_decoded(label, b) {
                    Some(t) => vstd::utf8::encode_utf8(t),
                    None => b,
                },
                _ => b,
            },
        ),
    }
}

/// A successful non-empty read strictly advances the pipeline: it runs
/// the transform, or drains source bytes, or serves transformed output.
pub open spec fn spec_read_progress(a: Body, b: Body) -> bool {
    ||| (!a.transformed && b.transformed)
    ||| (a.transformed == b.transformed && b.reader.fed@.len() < a.reader.fed@.len())
    ||| (a.transformed == b.transformed && b.reader.fed@.len() == a.reader.fed@.len()
        && b.out@.len() - b.out_pos < a.out@.len() - a.out_pos)
}

/// What a body read produced: bytes (empty exactly at the end of the
/// body, every time after the first), or a request for source input.
#[derive(Debug)]
pub enum BodyRead {
    Data(Vec<u8>),
    NeedInput,
}

/// The body pipeline: a source, a content codec resolved from headers,
/// and an optional charset codec, behind one reader surface.
pub struct Body {
    pub reader: BodyReader,
    pub codec: ContentEncoding,
    pub char_codec: Option<CharCodec>,
    pub len_hint: Option<u64>,
    pub has_read: bool,
    pub finished: bool,
    pub staged: Vec<u8>,
    pub out: Vec<u8>,
    pub out_pos: usize,
    pub transformed: bool,
    pub acc: Vec<u8>,
    pub emitted: Ghost<Seq<u8>>,
}

impl Body {
    /// Whether the configured codecs change bytes, so that the whole
    /// source must be staged before output begins.
    pub open spec fn spec_needs_transform(&self) -> bool {
        ||| self.codec == ContentEncoding::GzipDecode
        ||| self.codec == ContentEncoding::GzipEncode
        ||| (match self.char_codec {
            Some(c) => c.decode,
            None => false,
        })
    }

    pub open spec fn char_opt(&self) -> Option<(Seq<char>, bool)> {
        match self.char_codec {
            Some(c) => Some((c.charset@, c.decode)),
            None => None,
        }
    }

    /// The pipeline invariant: on the pass-through path the body has
    /// yielded exactly what the reader yielded; on the transforming path
    /// the staged bytes mirror the reader until the transform runs, and
    /// afterwards the output is the transform of the whole source, served
    /// in order.
    pub open spec fn wf(&self) -> bool {
        &&& self.reader.wf()
        &&& self.out_pos <= self.out@.len()
        &&& (!self.has_read ==> !self.finished && !self.transformed && self.emitted@ == Seq::<
            u8,
        >::empty() && self.reader.emitted@ == Seq::<u8>::empty() && self.staged@ == Seq::<
            u8,
        >::empty() && self.out@ == Seq::<u8>::empty())
        &&& (!self.spec_needs_transform() ==> {
            &&& self.emitted@ == self.reader.emitted@
            &&& !self.transformed
            &&& self.staged@.len() == 0
            &&& self.out@.len() == 0
            &&& (self.finished ==> self.reader.fed@.len() == 0 && self.reader.source_ended)
        })
        &&& (self.spec_needs_transform() ==> {
            &&& (!self.transformed ==> self.staged@ == self.reader.emitted@ && self.out@.len()
                == 0 && self.out_pos == 0 && self.emitted@ == Seq::<u8>::empty()
                && !self.finished)
            &&& (self.transformed ==> {
                &&& self.staged@.len() == 0
                &&& Some(self.out@) == spec_transform(
                    self.codec,
                    self.char_opt(),
                    self.reader.emitted@,
                )
                &&& self.emitted@ == self.out@.take(self.out_pos as int)
                &&& self.reader.fed@.len() == 0
                &&& (self.finished ==> self.out_pos == self.out@.len())
            })
        })
    }

    /// A body over the given source kind, its codec still deferred.
    pub fn new(imp: BodyImpl, codec: ContentEncoding) -> (r: Self)
        ensures
            r.reader.imp == imp,
            r.codec == codec,
            r.char_codec is None,
            r.len_hint == (if imp == BodyImpl::RequestEmpty {
                Some(0u64)
            } else {
                None::<u64>
            }),
            !r.has_read,
            !r.finished,
            r.emitted@.len() == 0,
            r.wf(),
    {
        let ended = matches!(imp, BodyImpl::RequestEmpty);
        Body {
            reader: BodyReader::new(imp, Vec::new(), ended),
            codec,
            char_codec: None,
            len_hint: if matches!(imp, BodyImpl::RequestEmpty) {
                Some(0)
            } else {
                None
            },
            has_read: false,
            finished: false,
            staged: Vec::new(),
            out: Vec::new(),
            out_pos: 0,
            transformed: false,
            acc: Vec::new(),
            emitted: Ghost(Seq::empty()),
        }
    }

    /// The empty request body.
    pub fn empty() -> (r: Self)
        ensures
            r.reader.imp == BodyImpl::RequestEmpty,
            r.codec == ContentEncoding::Deferred,
            r.len_hint == Some(0u64),
            !r.has_read,
            r.wf(),
    {
        Body::new(BodyImpl::RequestEmpty, ContentEncoding::Deferred)
    }

    /// A request body whose bytes the driver feeds from a synchronous
    /// reader; its length is unknown.
    pub fn from_sync_read() -> (r: Self)
        ensures
            r.reader.imp == BodyImpl::RequestRead,
            r.codec == ContentEncoding::Deferred,
            r.len_hint is None,
            !r.has_read,
            r.wf(),
    {
        Body::new(BodyImpl::RequestRead, ContentEncoding::Deferred)
    }

    /// A request body whose bytes the driver feeds from an asynchronous
    /// reader; its length is unknown.
    pub fn from_async_read() -> (r: Self)
        ensures
            r.reader.imp == BodyImpl::RequestAsyncRead,
            r.codec == ContentEncoding::Deferred,
            r.len_hint is None,
            !r.has_read,
            r.wf(),
    {
        Body::new(BodyImpl::RequestAsyncRead, ContentEncoding::Deferred)
    }

    /// A request body over owned bytes; its length is known.
    pub fn from_bytes(data: Vec<u8>) -> (r: Self)
        requires
            data@.len() <= u64::MAX,
        ensures
            r.reader.imp == BodyImpl::RequestBuffered,
            r.codec == ContentEncoding::Deferred,
            r.len_hint == Some(data@.len() as u64),
            r.reader.consumed@ == data@,
            !r.has_read,
            r.wf(),
    {
        let n = data.len();
        Body {
            reader: BodyReader::new(BodyImpl::RequestBuffered, data, true),
            codec: ContentEncoding::Deferred,
            char_codec: None,
            len_hint: Some(n as u64),
            has_read: false,
            finished: false,
            staged: Vec::new(),
            out: Vec::new(),
            out_pos: 0,
            transformed: false,
            acc: Vec::new(),
            emitted: Ghost(Seq::empty()),
        }
    }

    /// The length the body knows of itself: sized in-memory sources say
    /// their size, reader and connection sources do not.
    pub fn length(&self) -> (r: Option<u64>)
        ensures
            r == self.len_hint,
    {
        self.len_hint
    }

    /// Resolve the deferred codecs from headers, exactly once, before the
    /// first read. A second call, or one after reading began, is an error
    /// and changes nothing.
    pub fn configure(&mut self, headers: &Vec<Header>, is_decode: bool) -> (r: Result<(), Error>)
        requires
            old(self).wf(),
            headers_wf(headers@),
        ensures
            final(self).wf(),
            r is Err <==> !(old(self).codec == ContentEncoding::Deferred && !old(self).has_read),
            r is Err ==> *final(self) == *old(self),
            r matches Err(e) ==> e.kind() == ErrorKind::Static,
            r is Ok ==> {
                &&& final(self).codec == spec_content_encoding(headers@, is_decode)
                &&& (is_decode ==> final(self).char_opt() == (match spec_find_header(
                    headers@,
                    ("content-type")@,
                ) {
                    Some(i) => match spec_charset_of(headers@[i].value_view()) {
                        Some(cs) => Some((cs, true)),
                        None => None::<(Seq<char>, bool)>,
                    },
                    None => None::<(Seq<char>, bool)>,
                }))
                &&& (!is_decode ==> final(self).char_codec == old(self).char_codec)
                &&& final(self).reader == old(self).reader
                &&& final(self).len_hint == old(self).len_hint
                &&& !final(self).has_read
                &&& !final(self).finished
            },
    {
        if !matches!(self.codec, ContentEncoding::Deferred) || self.has_read {
            return Err(Error::Static("body codec already configured"));
        }
        self.codec = ContentEncoding::from_headers(headers, is_decode);
        if is_decode {
            self.char_codec = match charset_from_headers(headers) {
                Some(cs) => Some(CharCodec::new(cs, true)),
                None => None,
            };
        }
        Ok(())
    }

    /// Feed source bytes from the driver; `end` marks the source as over.
    /// Only reader- and connection-backed bodies take input.
    pub fn push_bytes(&mut self, chunk: &[u8], end: bool) -> (r: Result<(), Error>)
        requires
            old(self).wf(),
        ensures
            final(self).wf(),
            r is Err <==> (old(self).reader.imp == BodyImpl::RequestEmpty || old(
                self,
            ).reader.imp == BodyImpl::RequestBuffered),
            r is Err ==> *final(self) == *old(self),
            r matches Err(e) ==> e.kind() == ErrorKind::Static,
            r is Ok && !old(self).finished && !old(self).transformed ==> final(self).reader.consumed@ == old(self).reader.consumed@ + chunk@ && final(self).emitted@
                == old(self).emitted@ && final(self).finished == old(self).finished && final(self).reader.source_ended == (old(self).reader.source_ended || end),
            r is Ok && (old(self).finished || old(self).transformed) ==> *final(self) == *old(self),
    {
        if matches!(self.reader.imp, BodyImpl::RequestEmpty) || matches!(
            self.reader.imp,
            BodyImpl::RequestBuffered,
        ) {
            return Err(Error::Static("body source is in memory"));
        }
        if self.finished || self.transformed {
            // the body is already past its source; late input is dropped
            return Ok(());
        }
        self.reader.push_source(chunk, end);
        Ok(())
    }
}

impl Body {
    /// Set the character codec by hand, before any read.
    pub fn set_char_codec(&mut self, charset: &str, decode: bool) -> (r: Result<(), Error>)
        requires
            old(self).wf(),
        ensures
            final(self).wf(),
            r is Err <==> old(self).has_read,
            r is Err ==> *final(self) == *old(self),
            r matches Err(e) ==> e.kind() == ErrorKind::Static,
            r is Ok ==> (final(self).char_opt() matches Some(c) && c.0 == charset@ && c.1
                == decode) && final(self).codec == old(self).codec && final(self).reader == old(
                self,
            ).reader,
    {
        if self.has_read {
            return Err(Error::Static("char codec set after body started reading"));
        }
        self.char_codec = Some(CharCodec::new(charset, decode));
        Ok(())
    }

    /// Read up to `max` body bytes through the configured codecs.
    ///
    /// Empty data marks the end of the body, exactly once; every later
    /// read returns empty data again and changes nothing. A read before
    /// `configure` fails fast; a gzip stream that does not decode fails
    /// on every read.
    pub fn read(&mut self, max: usize) -> (r: Result<BodyRead, Error>)
        requires
            old(self).wf(),
            max >= 1,
        ensures
            final(self).wf(),
            final(self).reader.imp == old(self).reader.imp,
            final(self).codec == old(self).codec,
            final(self).char_codec == old(self).char_codec,
            final(self).len_hint == old(self).len_hint,
            final(self).acc == old(self).acc,
            old(self).finished ==> (r matches Ok(o) && o matches BodyRead::Data(d) && d@.len()
                == 0 && *final(self) == *old(self)),
            match r {
                Ok(BodyRead::Data(d)) => {
                    &&& final(self).emitted@ == old(self).emitted@ + d@
                    &&& d@.len() <= max
                    &&& (d@.len() == 0 ==> final(self).finished)
                    &&& (d@.len() > 0 ==> spec_read_progress(*old(self), *final(self))
                        && final(self).finished == old(self).finished)
                },
                Ok(BodyRead::NeedInput) => final(self).finished == old(self).finished && final(self).emitted@ == old(self).emitted@
                    && final(self).reader.fed@.len() == 0 && !final(self).reader.source_ended,
                Err(e) => e.kind() == ErrorKind::Static || e.kind() == ErrorKind::Message,
            },
            old(self).codec == ContentEncoding::Deferred && !old(self).finished ==> (
            r matches Err(e) && e.kind() == ErrorKind::Static),
            (r matches Err(e) && e.kind() == ErrorKind::Static) ==> old(self).codec
                == ContentEncoding::Deferred && *final(self) == *old(self),
            (r matches Err(e) && e.kind() == ErrorKind::Message) ==> old(self).codec
                == ContentEncoding::GzipDecode && gunzip_of(final(self).staged@) is None,
    {
        if self.finished {
            proof {
                assert(self.emitted@ + Seq::<u8>::empty() =~= self.emitted@);
            }
            return Ok(BodyRead::Data(Vec::new()));
        }
        if matches!(self.codec, ContentEncoding::Deferred) {
            return Err(Error::Static("body read before codec was configured"));
        }
        self.has_read = true;
        let gzip_dec = matches!(self.codec, ContentEncoding::GzipDecode);
        let gzip_enc = matches!(self.codec, ContentEncoding::GzipEncode);
        let char_dec = match &self.char_codec {
            Some(c) => c.decode,
            None => false,
        };
        if !(gzip_dec || gzip_enc || char_dec) {
            // pass-through: serve the reader directly
            match self.reader.read(max) {
                ReaderPoll::Data(d) => {
                    if d.len() == 0 {
                        self.finished = true;
                    }
                    proof {
                        self.emitted = Ghost(self.emitted@ + d@);
                    }
                    Ok(BodyRead::Data(d))
                },
                ReaderPoll::NeedInput => Ok(BodyRead::NeedInput),
            }
        } else {
            if !self.transformed {
                // stage the whole source before transforming it
                loop
                    invariant
                        self.wf(),
                        self.spec_needs_transform(),
                        !self.transformed,
                        !self.finished,
                        !old(self).finished,
                        self.emitted@ == Seq::<u8>::empty(),
                        self.has_read,
                        self.reader.imp == old(self).reader.imp,
                        self.codec == old(self).codec,
                        self.char_codec == old(self).char_codec,
                        self.len_hint == old(self).len_hint,
                        self.acc == old(self).acc,
                        self.emitted@ == old(self).emitted@,
                        self.codec == ContentEncoding::GzipDecode || self.codec
                            == ContentEncoding::GzipEncode || self.codec
                            == ContentEncoding::Plain,
                    ensures
                        self.wf(),
                        !self.transformed,
                        self.reader.fed@.len() == 0,
                        self.reader.source_ended,
                        self.staged@ == self.reader.emitted@,
                        self.emitted@ == old(self).emitted@,
                        self.reader.imp == old(self).reader.imp,
                        self.codec == old(self).codec,
                        self.char_codec == old(self).char_codec,
                        self.len_hint == old(self).len_hint,
                        self.acc == old(self).acc,
                    decreases self.reader.fed@.len(),
                {
                    let ghost prefed = self.reader.fed@;
                    let ghost preem = self.reader.emitted@;
                    match self.reader.read(BUF_SIZE) {
                        ReaderPoll::Data(d) => {
                            if d.len() == 0 {
                                break;
                            }
                            self.staged.extend_from_slice(d.as_slice());
                            proof {
                                assert(self.reader.wf());
                                assert(self.staged@ == preem + d@);
                                assert(self.staged@ == self.reader.emitted@);
                                assert(self.reader.fed@.len() < prefed.len());
                            }
                        },
                        ReaderPoll::NeedInput => {
                            return Ok(BodyRead::NeedInput);
                        },
                    }
                }
                // the source is over: run the codecs once
                let content: Vec<u8> = if gzip_dec {
                    match gzip_decode(self.staged.as_slice()) {
                        Some(v) => v,
                        None => {
                            return Err(
                                Error::Message(
                                    String::from_str("body is not a well-formed gzip stream"),
                                ),
                            );
                        },
                    }
                } else if gzip_enc {
                    gzip_encode(self.staged.as_slice())
                } else {
                    let mut c: Vec<u8> = Vec::new();
                    c.extend_from_slice(self.staged.as_slice());
                    proof {
                        assert(c@ =~= self.staged@);
                    }
                    c
                };
                let with_charset: Vec<u8> = if char_dec {
                    let label = match &self.char_codec {
                        Some(c) => c.charset.as_str(),
                        None => "",
                    };
                    match charset_decode(label, content.as_slice()) {
                        Some(t) => t.as_str().as_bytes_vec(),
                        None => content,
                    }
                } else {
                    content
                };
                self.out = with_charset;
                self.staged = Vec::new();
                self.out_pos = 0;
                self.transformed = true;
                proof {
                    assert(self.staged@ =~= Seq::<u8>::empty());
                    assert(self.out@.take(0) =~= Seq::<u8>::empty());
                    assert(self.emitted@ =~= self.out@.take(0));
                }
            }
            // serve the transformed output in order
            let left = self.out.len() - self.out_pos;
            if left == 0 {
                self.finished = true;
                proof {
                    assert(self.emitted@ + Seq::<u8>::empty() =~= self.emitted@);
                }
                return Ok(BodyRead::Data(Vec::new()));
            }
            let k = if max < left {
                max
            } else {
                left
            };
            let piece = vstd::slice::slice_to_vec(
                vstd::slice::slice_subrange(self.out.as_slice(), self.out_pos, self.out_pos + k),
            );
            self.out_pos = self.out_pos + k;
            proof {
                self.emitted = Ghost(self.emitted@ + piece@);
                assert(self.emitted@ =~= self.out@.take(self.out_pos as int));
            }
            Ok(BodyRead::Data(piece))
        }
    }
}

/// On the pass-through pipeline (no content codec, no charset codec), a
/// drained body has yielded exactly the bytes its source produced, in
/// order.
pub proof fn lemma_passthrough_round_trip(b: &Body)
    requires
        b.wf(),
        !b.spec_needs_transform(),
        b.finished,
    ensures
        b.emitted@ == b.reader.consumed@,
{
    lemma_reader_passthrough(&b.reader);
}

impl Body {
    /// Drain the whole body into one buffer of at most `limit` bytes.
    ///
    /// Returns the collected bytes once the body ends, or nothing yet when
    /// the source needs input (collected bytes are kept for the next
    /// call). Fails when the body exceeds `limit`, besides the failures a
    /// read can raise.
    pub fn as_vec(&mut self, limit: usize) -> (r: Result<Option<Vec<u8>>, Error>)
        requires
            old(self).wf(),
        ensures
            final(self).wf(),
            match r {
                Ok(Some(v)) => {
                    &&& final(self).finished
                    &&& v@.len() <= limit
                    &&& old(self).emitted@.len() <= final(self).emitted@.len()
                    &&& v@ == old(self).acc@ + final(self).emitted@.skip(
                        old(self).emitted@.len() as int,
                    )
                    &&& final(self).emitted@.take(old(self).emitted@.len() as int) == old(
                        self,
                    ).emitted@
                },
                Ok(None) => final(self).finished == old(self).finished && final(self).reader.fed@.len() == 0 && !final(self).reader.source_ended,
                Err(e) => e.kind() == ErrorKind::Static || e.kind() == ErrorKind::Message,
            },
            (r matches Err(e) && e.kind() == ErrorKind::Message) ==> old(self).codec
                == ContentEncoding::GzipDecode && gunzip_of(final(self).staged@) is None,
            (r matches Err(e) && e.kind() == ErrorKind::Static) ==> (old(self).codec
                == ContentEncoding::Deferred && !old(self).finished) || old(self).acc@.len()
                + final(self).emitted@.len() - old(self).emitted@.len() > limit,
    {
        let ghost em0 = self.emitted@;
        proof {
            assert(self.emitted@.skip(em0.len() as int) =~= Seq::<u8>::empty());
            assert(self.acc@ + Seq::<u8>::empty() =~= self.acc@);
            assert(self.emitted@.take(em0.len() as int) =~= em0);
        }
        loop
            invariant
                self.wf(),
                em0.len() <= self.emitted@.len(),
                self.acc@ == old(self).acc@ + self.emitted@.skip(em0.len() as int),
                self.emitted@.take(em0.len() as int) == em0,
                em0 == old(self).emitted@,
                self.finished == old(self).finished,
                self.codec == old(self).codec,
                old(self).acc@.len() + self.emitted@.len() - em0.len() == self.acc@.len(),
            decreases (if self.transformed {
                0int
            } else {
                1int
            }), self.reader.fed@.len(), self.out@.len() - self.out_pos, (if self.finished {
                0int
            } else {
                1int
            }),
        {
            let ghost pre = *self;
            match self.read(BUF_SIZE) {
                Ok(BodyRead::Data(d)) => {
                    if d.len() == 0 {
                        proof {
                            assert(self.emitted@ =~= pre.emitted@);
                            assert(self.emitted@.skip(em0.len() as int) =~= pre.emitted@.skip(
                                em0.len() as int,
                            ));
                            assert(self.emitted@.take(em0.len() as int) =~= pre.emitted@.take(
                                em0.len() as int,
                            ));
                        }
                        if self.acc.len() > limit {
                            return Err(Error::Static("body is larger than the given limit"));
                        }
                        let out = self.acc.split_off(0);
                        proof {
                            assert(self.acc@ =~= Seq::<u8>::empty());
                            assert(out@ == pre.acc@);
                        }
                        return Ok(Some(out));
                    }
                    if self.acc.len() >= limit || limit - self.acc.len() < d.len() {
                        return Err(Error::Static("body is larger than the given limit"));
                    }
                    self.acc.extend_from_slice(d.as_slice());
                    proof {
                        assert(self.emitted@.skip(em0.len() as int) =~= pre.emitted@.skip(
                            em0.len() as int,
                        ) + d@);
                        assert(self.acc@ =~= pre.acc@ + d@);
                        assert(pre.acc@ == old(self).acc@ + pre.emitted@.skip(
                            em0.len() as int,
                        ));
                        assert(self.acc@ =~= old(self).acc@ + self.emitted@.skip(
                            em0.len() as int,
                        ));
                        assert(self.emitted@.take(em0.len() as int) =~= em0);
                    }
                },
                Ok(BodyRead::NeedInput) => {
                    return Ok(None);
                },
                Err(e) => {
                    return Err(e);
                },
            }
        }
    }

    /// Drain the whole body and decode it as UTF-8, lossily. This does
    /// not consult the declared charset; the charset codec does.
    pub fn as_string(&mut self, limit: usize) -> (r: Result<Option<String>, Error>)
        requires
            old(self).wf(),
        ensures
            final(self).wf(),
            match r {
                Ok(Some(s)) => {
                    &&& final(self).finished
                    &&& s@ == utf8_lossy_of(
                        old(self).acc@ + final(self).emitted@.skip(
                            old(self).emitted@.len() as int,
                        ),
                    )
                },
                Ok(None) => final(self).finished == old(self).finished && final(self).reader.fed@.len() == 0 && !final(self).reader.source_ended,
                Err(e) => e.kind() == ErrorKind::Static || e.kind() == ErrorKind::Message,
            },
            (r matches Err(e) && e.kind() == ErrorKind::Message) ==> old(self).codec
                == ContentEncoding::GzipDecode && gunzip_of(final(self).staged@) is None,
            (r matches Err(e) && e.kind() == ErrorKind::Static) ==> (old(self).codec
                == ContentEncoding::Deferred && !old(self).finished) || old(self).acc@.len()
                + final(self).emitted@.len() - old(self).emitted@.len() > limit,
    {
        match self.as_vec(limit) {
            Ok(Some(v)) => Ok(Some(utf8_lossy(v.as_slice()))),
            Ok(None) => Ok(None),
            Err(e) => Err(e),
        }
    }
}

/// What `String::from_utf8_lossy` makes of these bytes: a function of the
/// bytes alone, with malformed sequences replaced.
pub uninterp spec fn utf8_lossy_of(bytes: Seq<u8>) -> Seq<char>;

/// Relies on alloc's `String::from_utf8_lossy`: deterministic in the
/// bytes, and the identity on valid UTF-8.
#[verifier::external_body]
fn utf8_lossy(bytes: &[u8]) -> (r: String)
    ensures
        r@ == utf8_lossy_of(bytes@),
        vstd::utf8::valid_utf8(bytes@) ==> r@ == vstd::utf8::decode_utf8(bytes@),
{
    String::from_utf8_lossy(bytes).into_owned()
}

impl Body {
    /// Consume the body and reclaim the connection underneath.
    ///
    /// Only a response body carries a connection. An HTTP/1.1 connection
    /// comes back only once the body has been fully read (the driver
    /// drains it first); an HTTP/2 connection is multiplexed and comes
    /// back at once.
    pub fn into_connection(self) -> (r: Result<crate::conn::Connection, Error>)
        ensures
            r is Ok <==> (self.reader.imp == BodyImpl::Http1 && self.finished)
                || self.reader.imp == BodyImpl::Http2,
            r matches Ok(c) ==> (self.reader.imp == BodyImpl::Http1 ==> c.p is Http1) && (
            self.reader.imp == BodyImpl::Http2 ==> c.p is Http2),
            r matches Err(e) ==> e.kind() == ErrorKind::Static,
    {
        match self.reader.imp {
            BodyImpl::Http1 => {
                if self.finished {
                    Ok(
                        crate::conn::Connection::new(
                            0,
                            String::new(),
                            crate::conn::ProtocolImpl::Http1(crate::engine::SendRequest {  }),
                        ),
                    )
                } else {
                    Err(Error::Static("connection reuse needs the body drained first"))
                }
            },
            BodyImpl::Http2 => Ok(
                crate::conn::Connection::new(0, String::new(), crate::conn::ProtocolImpl::Http2),
            ),
            _ => Err(Error::Static("not a response body")),
        }
    }
}

} // verus!




