//! HTTP/1.1 head wire format: serializing a request head, and parsing a
//! response head (status line plus header lines, terminated by an empty
//! line).

use crate::err::{Error, ErrorKind};
use crate::header::{headers_wf, Header};
use crate::strutil::{all_digits, dec_value, find_from, lemma_find_from_props, parse_u16_ascii};
use vstd::prelude::*;

verus! {

/// Each byte is ASCII.
pub open spec fn all_ascii_bytes(bytes: Seq<u8>) -> bool {
    forall|i: int| 0 <= i < bytes.len() ==> #[trigger] bytes[i] < 128
}

/// The characters an ASCII byte sequence spells.
pub open spec fn ascii_chars_of(bytes: Seq<u8>) -> Seq<char> {
    bytes.map_values(|b: u8| b as char)
}

/// First position at or after `from` where `\r\n` begins.
pub open spec fn find_crlf(bytes: Seq<u8>, from: int) -> Option<int>
    decreases bytes.len() - from,
{
    if from < 0 || from + 1 >= bytes.len() {
        None
    } else if bytes[from] == 13 && bytes[from + 1] == 10 {
        Some(from)
    } else {
        find_crlf(bytes, from + 1)
    }
}

pub proof fn lemma_find_crlf_props(bytes: Seq<u8>, from: int)
    requires
        0 <= from,
    ensures
        match find_crlf(bytes, from) {
            Some(i) => from <= i && i + 1 < bytes.len() && bytes[i] == 13 && bytes[i + 1] == 10
                && forall|j: int| from <= j < i ==> !(#[trigger] bytes[j] == 13 && bytes[j + 1] == 10),
            None => forall|j: int|
                from <= j < bytes.len() - 1 ==> !(#[trigger] bytes[j] == 13 && bytes[j + 1]
                    == 10),
        },
    decreases bytes.len() - from,
{
    if from + 1 < bytes.len() && !(bytes[from] == 13 && bytes[from + 1] == 10) {
        lemma_find_crlf_props(bytes, from + 1);
    }
}

/// Whether the head terminator `\r\n\r\n` occurs in `bytes`.
pub open spec fn has_head_terminator(bytes: Seq<u8>) -> bool {
    exists|i: int|
        0 <= i && i + 3 < bytes.len() && #[trigger] bytes[i] == 13 && bytes[i + 1] == 10
            && bytes[i + 2] == 13 && bytes[i + 3] == 10
}

/// Whether `bytes` ends with `\r\n\r\n`.
pub open spec fn ends_crlfcrlf(bytes: Seq<u8>) -> bool {
    bytes.len() >= 4 && bytes[bytes.len() - 4] == 13 && bytes[bytes.len() - 3] == 10
        && bytes[bytes.len() - 2] == 13 && bytes[bytes.len() - 1] == 10
}

/// The header lines after the status line: each line up to its `\r\n`,
/// ending at the first empty line (or when no full line remains).
pub open spec fn spec_head_lines(bytes: Seq<u8>) -> Seq<Seq<u8>>
    decreases bytes.len(),
    via spec_head_lines_dec
{
    match find_crlf(bytes, 0) {
        None => Seq::<Seq<u8>>::empty(),
        Some(i) => {
            if i == 0 {
                Seq::<Seq<u8>>::empty()
            } else {
                seq![bytes.take(i)] + spec_head_lines(bytes.skip(i + 2))
            }
        },
    }
}

#[via_fn]
proof fn spec_head_lines_dec(bytes: Seq<u8>) {
    lemma_find_crlf_props(bytes, 0);
}

/// The status line split: `((index1, index2), status)` where `index1` is
/// the length of the version token and `index2` is `index1` plus the length
/// of the status token; the reason text after the second space must be
/// non-empty. Mirrors what the accessors slice out of the stored line.
pub open spec fn spec_parse_status_line(s: Seq<char>) -> Option<((int, int), u16)> {
    if !vstd::utf8::is_ascii_chars(s) {
        None
    } else {
        match find_from(s, ' ', 0) {
            None => None,
            Some(sp1) => {
                if sp1 < 5 {
                    None
                } else {
                    match find_from(s, ' ', sp1 + 1) {
                        None => None,
                        Some(sp2) => {
                            let tok = s.subrange(sp1 + 1, sp2);
                            if tok.len() < 3 || !all_digits(tok) || dec_value(tok) > u16::MAX
                                || sp2 + 1 >= s.len() {
                                None
                            } else {
                                Some(((sp1, sp1 + (sp2 - sp1 - 1)), dec_value(tok) as u16))
                            }
                        },
                    }
                }
            },
        }
    }
}

/// Parse a status line such as `HTTP/1.1 200 OK`.
///
/// Returns the version/status token boundaries and the numeric status;
/// rejects exactly what the functional model rejects: a non-ASCII line, a
/// missing space, a version shorter than 5, a status token shorter than 3
/// or non-numeric or out of range, or empty reason text.
pub fn parse_status_line(line: &str) -> (r: Result<((usize, usize), u16), Error>)
    ensures
        r is Ok <==> spec_parse_status_line(line@) is Some,
        r matches Ok(v) ==> Some(((v.0.0 as int, v.0.1 as int), v.1)) == spec_parse_status_line(
            line@,
        ),
        r matches Err(e) ==> e.kind() == ErrorKind::BadStatus,
{
    if !line.is_ascii() {
        return Err(Error::BadStatus);
    }
    let n = line.unicode_len();
    proof {
        lemma_find_from_props(line@, ' ', 0);
        assert((32u8 as char) == ' ');
    }
    let sp1 = match crate::strutil::find_char_str(line, 0, 32) {
        Some(i) => i,
        None => {
            return Err(Error::BadStatus);
        },
    };
    if sp1 < 5 {
        return Err(Error::BadStatus);
    }
    proof {
        lemma_find_from_props(line@, ' ', sp1 + 1);
    }
    let sp2 = match crate::strutil::find_char_str(line, sp1 + 1, 32) {
        Some(i) => i,
        None => {
            return Err(Error::BadStatus);
        },
    };
    let tok = line.substring_ascii(sp1 + 1, sp2);
    if tok.unicode_len() < 3 {
        return Err(Error::BadStatus);
    }
    let status = match parse_u16_ascii(tok) {
        Some(v) => v,
        None => {
            return Err(Error::BadStatus);
        },
    };
    if sp2 + 1 >= n {
        return Err(Error::BadStatus);
    }
    Ok(((sp1, sp1 + (sp2 - sp1 - 1)), status))
}

/// A parsed response head: the status line kept whole with the token split
/// positions, the numeric status, and the header list.
pub struct ResponseHead {
    pub status_line: String,
    pub index1: usize,
    pub index2: usize,
    pub status: u16,
    pub headers: Vec<Header>,
}

impl ResponseHead {
    /// The version token of the status line, such as `HTTP/1.1`.
    pub fn http_version(&self) -> (r: &str)
        requires
            self.wf(),
        ensures
            r@ == self.status_line@.subrange(0, self.index1 as int),
            r.is_ascii(),
    {
        self.status_line.as_str().substring_ascii(0, self.index1)
    }

    pub open spec fn wf(&self) -> bool {
        &&& vstd::utf8::is_ascii_chars(self.status_line@)
        &&& spec_parse_status_line(self.status_line@) == Some(
            ((self.index1 as int, self.index2 as int), self.status),
        )
        &&& self.index1 <= self.index2 < self.status_line@.len()
        &&& headers_wf(self.headers@)
    }
}

/// A header line is usable when it is ASCII and holds a colon.
pub open spec fn line_parseable(l: Seq<u8>) -> bool {
    all_ascii_bytes(l) && find_from(ascii_chars_of(l), ':', 0) is Some
}

/// An accumulated head parses: the terminator arrived, the status line is
/// ASCII and parses, and every header line before the empty line is ASCII.
pub open spec fn spec_head_ok(buf: Seq<u8>) -> bool {
    &&& has_head_terminator(buf)
    &&& match find_crlf(buf, 0) {
        Some(e0) => {
            &&& all_ascii_bytes(buf.take(e0))
            &&& spec_parse_status_line(ascii_chars_of(buf.take(e0))) is Some
            &&& (forall|k: int|
                0 <= k < spec_head_lines_from(buf, e0 + 2).len() ==> all_ascii_bytes(
                    #[trigger] spec_head_lines_from(buf, e0 + 2)[k],
                ))
        },
        None => false,
    }
}

/// The parsed head `h` is exactly what `buf` spells: the first line with
/// its token split, and the parseable header lines in order.
pub open spec fn head_matches(buf: Seq<u8>, h: ResponseHead) -> bool {
    match find_crlf(buf, 0) {
        Some(e0) => {
            &&& h.wf()
            &&& h.status_line@ == ascii_chars_of(buf.take(e0))
            &&& Some(((h.index1 as int, h.index2 as int), h.status)) == spec_parse_status_line(
                ascii_chars_of(buf.take(e0)),
            )
            &&& h.headers@.map_values(|hh: Header| hh.line@) == spec_head_lines_from(
                buf,
                e0 + 2,
            ).filter(|l: Seq<u8>| line_parseable(l)).map_values(|l: Seq<u8>| ascii_chars_of(l))
        },
        None => false,
    }
}

/// The header lines of `bytes` starting at `pos`: each line up to its
/// `\r\n`, ending at the first empty line (or when no full line remains).
pub open spec fn spec_head_lines_from(bytes: Seq<u8>, pos: int) -> Seq<Seq<u8>>
    decreases bytes.len() - pos,
    via spec_head_lines_from_dec
{
    match find_crlf(bytes, pos) {
        None => Seq::<Seq<u8>>::empty(),
        Some(i) => {
            if i == pos {
                Seq::<Seq<u8>>::empty()
            } else {
                seq![bytes.subrange(pos, i)] + spec_head_lines_from(bytes, i + 2)
            }
        },
    }
}

#[via_fn]
proof fn spec_head_lines_from_dec(bytes: Seq<u8>, pos: int) {
    lemma_find_crlf_props(bytes, if pos < 0 { 0 } else { pos });
    if pos >= 0 {
        match find_crlf(bytes, pos) {
            Some(i) => {
                assert(i >= pos);
            },
            None => {},
        }
    } else {
        assert(find_crlf(bytes, pos) is None);
    }
}

/// First position at or after `from` where `\r\n` begins, over a slice.
fn find_crlf_slice(buf: &[u8], from: usize) -> (r: Option<usize>)
    ensures
        match find_crlf(buf@, from as int) {
            Some(i) => r == Some(i as usize),
            None => r is None,
        },
{
    proof {
        lemma_find_crlf_props(buf@, from as int);
    }
    let n = buf.len();
    if from >= n {
        return None;
    }
    let mut i: usize = from;
    while n - i > 1
        invariant
            n == buf@.len(),
            from <= i < n,
            forall|j: int| from <= j < i ==> !(#[trigger] buf@[j] == 13 && buf@[j + 1] == 10),
        decreases n - i,
    {
        if buf[i] == 13 && buf[i + 1] == 10 {
            proof {
                lemma_find_crlf_props(buf@, from as int);
                match find_crlf(buf@, from as int) {
                    Some(k) => {
                        assert(!(k < i));
                        assert(!(k > i));
                    },
                    None => {
                        assert(false);
                    },
                }
            }
            return Some(i);
        }
        i = i + 1;
    }
    proof {
        lemma_find_crlf_props(buf@, from as int);
    }
    None
}

/// Position of the first head terminator `\r\n\r\n`, if any.
pub fn find_terminator(buf: &[u8]) -> (r: Option<usize>)
    ensures
        r is Some <==> has_head_terminator(buf@),
        r matches Some(t) ==> t + 3 < buf@.len() && buf@[t as int] == 13 && buf@[t + 1] == 10
            && buf@[t + 2] == 13 && buf@[t + 3] == 10 && (forall|j: int|
            0 <= j < t ==> !(#[trigger] buf@[j] == 13 && buf@[j + 1] == 10 && buf@[j + 2] == 13
                && buf@[j + 3] == 10)),
{
    let n = buf.len();
    if n < 4 {
        return None;
    }
    let mut i: usize = 0;
    while i + 3 < n
        invariant
            n == buf@.len(),
            i + 3 <= n,
            forall|j: int|
                0 <= j < i ==> !(#[trigger] buf@[j] == 13 && buf@[j + 1] == 10 && buf@[j + 2]
                    == 13 && buf@[j + 3] == 10),
        decreases n - i,
    {
        if buf[i] == 13 && buf[i + 1] == 10 && buf[i + 2] == 13 && buf[i + 3] == 10 {
            proof {
                assert(has_head_terminator(buf@));
            }
            return Some(i);
        }
        i = i + 1;
    }
    proof {
        if has_head_terminator(buf@) {
            let t = choose|t: int|
                0 <= t && t + 3 < buf@.len() && #[trigger] buf@[t] == 13 && buf@[t + 1] == 10
                    && buf@[t + 2] == 13 && buf@[t + 3] == 10;
            assert(t < i);
            assert(false);
        }
    }
    None
}

/// Parse an accumulated response head.
///
/// `Ok(None)` exactly while the terminator `\r\n\r\n` has not arrived.
/// Once it has: the first line must parse as a status line (else
/// `BadStatus`) and every following header line up to the empty line must
/// be ASCII (else `BadHeader`); header lines without a colon are skipped,
/// the rest are kept in order.
pub fn parse_response_head(buf: &[u8]) -> (r: Result<Option<ResponseHead>, Error>)
    ensures
        (r matches Ok(o) && o is None) <==> !has_head_terminator(buf@),
        has_head_terminator(buf@) ==> match find_crlf(buf@, 0) {
            Some(e0) => {
                let sl = buf@.take(e0);
                let lines = spec_head_lines_from(buf@, e0 + 2);
                if !all_ascii_bytes(sl) || spec_parse_status_line(ascii_chars_of(sl)) is None {
                    r matches Err(e) && e.kind() == ErrorKind::BadStatus
                } else if exists|k: int|
                    0 <= k < lines.len() && !all_ascii_bytes(#[trigger] lines[k]) {
                    r matches Err(e) && e.kind() == ErrorKind::BadHeader
                } else {
                    r matches Ok(o) && o matches Some(h) && h.wf() && h.status_line@
                        == ascii_chars_of(sl) && Some(((h.index1 as int, h.index2 as int), h.status))
                        == spec_parse_status_line(ascii_chars_of(sl)) && h.headers@.map_values(
                        |hh: Header| hh.line@,
                    ) == lines.filter(|l: Seq<u8>| line_parseable(l)).map_values(
                        |l: Seq<u8>| ascii_chars_of(l),
                    )
                }
            },
            None => false,
        },
        (r matches Ok(o) && o is Some) <==> spec_head_ok(buf@),
        match r {
            Ok(Some(h)) => head_matches(buf@, h),
            _ => true,
        },
        r is Err <==> has_head_terminator(buf@) && !spec_head_ok(buf@),
{
    let term = match find_terminator(buf) {
        Some(t) => t,
        None => {
            return Ok(None);
        },
    };
    proof {
        lemma_find_crlf_props(buf@, 0);
        if find_crlf(buf@, 0) is None {
            assert(buf@[term as int] == 13 && buf@[term + 1] == 10);
            assert(false);
        }
    }
    let e0 = match find_crlf_slice(buf, 0) {
        Some(i) => i,
        None => {
            return Ok(None);
        },
    };
    proof {
        lemma_find_crlf_props(buf@, 0);
    }
    let sl_slice = vstd::slice::slice_subrange(buf, 0, e0);
    let status_line = match crate::strutil::bytes_to_ascii_string(sl_slice) {
        Some(s) => s,
        None => {
            return Err(Error::BadStatus);
        },
    };
    proof {
        assert(sl_slice@ == buf@.subrange(0, e0 as int));
        assert(status_line@ =~= ascii_chars_of(buf@.take(e0 as int)));
    }
    let parsed = match parse_status_line(status_line.as_str()) {
        Ok(v) => v,
        Err(_) => {
            return Err(Error::BadStatus);
        },
    };
    let n = buf.len();
    proof {
        assert(e0 + 1 < n);
    }
    let ghost lines = spec_head_lines_from(buf@, e0 + 2);
    let ghost lp = |l: Seq<u8>| line_parseable(l);
    let ghost cmap = |l: Seq<u8>| ascii_chars_of(l);
    let ghost hmap = |hh: Header| hh.line@;
    let mut headers: Vec<Header> = Vec::new();
    let mut pos: usize = e0 + 2;
    let ghost mut done: Seq<Seq<u8>> = Seq::<Seq<u8>>::empty();
    proof {
        assert(lines =~= done + spec_head_lines_from(buf@, pos as int));
    }
    loop
        invariant
            lp == (|l: Seq<u8>| line_parseable(l)),
            cmap == (|l: Seq<u8>| ascii_chars_of(l)),
            hmap == (|hh: Header| hh.line@),
            n == buf@.len(),
            e0 + 2 <= pos <= n,
            has_head_terminator(buf@),
            Some(e0 as int) == find_crlf(buf@, 0),
            status_line@ == ascii_chars_of(buf@.take(e0 as int)),
            all_ascii_bytes(buf@.take(e0 as int)),
            Some(((parsed.0.0 as int, parsed.0.1 as int), parsed.1)) == spec_parse_status_line(
                status_line@,
            ),
            lines == spec_head_lines_from(buf@, e0 + 2),
            lines =~= done + spec_head_lines_from(buf@, pos as int),
            forall|k: int| 0 <= k < done.len() ==> all_ascii_bytes(#[trigger] done[k]),
            headers@.map_values(hmap) =~~= done.filter(lp).map_values(cmap),
            headers_wf(headers@),
        ensures
            lines == spec_head_lines_from(buf@, e0 + 2),
            done == lines,
            forall|k: int| 0 <= k < lines.len() ==> all_ascii_bytes(#[trigger] lines[k]),
            headers@.map_values(hmap) =~~= done.filter(lp).map_values(cmap),
            headers_wf(headers@),
        decreases n - pos,
    {
        proof {
            lemma_find_crlf_props(buf@, pos as int);
        }
        let i = match find_crlf_slice(buf, pos) {
            Some(i) => i,
            None => {
                proof {
                    assert(spec_head_lines_from(buf@, pos as int) =~= Seq::<Seq<u8>>::empty());
                    assert(done =~= lines);
                }
                break;
            },
        };
        if i == pos {
            proof {
                assert(spec_head_lines_from(buf@, pos as int) =~= Seq::<Seq<u8>>::empty());
                assert(done =~= lines);
            }
            break;
        }
        let ghost line_b = buf@.subrange(pos as int, i as int);
        proof {
            assert(spec_head_lines_from(buf@, pos as int) == seq![line_b]
                + spec_head_lines_from(buf@, i + 2));
            assert(done.push(line_b) + spec_head_lines_from(buf@, i + 2) =~= done + (seq![line_b]
                + spec_head_lines_from(buf@, i + 2)));
        }
        let line_slice = vstd::slice::slice_subrange(buf, pos, i);
        let line_s = match crate::strutil::bytes_to_ascii_string(line_slice) {
            Some(s) => s,
            None => {
                proof {
                    let di = done.len() as int;
                    assert(lines[di] == line_b);
                    assert(!all_ascii_bytes(lines[di]));
                }
                return Err(Error::BadHeader);
            },
        };
        proof {
            reveal(Seq::filter);
            assert(done.push(line_b).drop_last() =~= done);
            assert(done.push(line_b).last() == line_b);
            assert(line_s@ == ascii_chars_of(line_b));
            assert(done.push(line_b).filter(lp) == if lp(line_b) {
                done.filter(lp).push(line_b)
            } else {
                done.filter(lp)
            });
        }
        match Header::from_str(line_s.as_str()) {
            Ok(h) => {
                proof {
                    assert(line_parseable(line_b));
                }
                headers.push(h);
                proof {
                    assert(h.line@ == ascii_chars_of(line_b));
                    assert(lp(line_b));
                    assert(done.push(line_b).filter(lp) == done.filter(lp).push(line_b));
                    assert(headers@.last() == h);
                    assert(headers@.drop_last().map_values(hmap) =~~= done.filter(lp).map_values(
                        cmap,
                    ));
                    let lhs = headers@.map_values(hmap);
                    let rhs = done.push(line_b).filter(lp).map_values(cmap);
                    assert(lhs.len() == rhs.len());
                    assert forall|k: int| 0 <= k < lhs.len() implies lhs[k] == rhs[k] by {
                        if k < lhs.len() - 1 {
                            assert(lhs[k] == hmap(headers@[k]));
                            assert(headers@[k] == headers@.drop_last()[k]);
                            assert(headers@.drop_last().map_values(hmap)[k] == hmap(
                                headers@.drop_last()[k],
                            ));
                            assert(done.filter(lp).map_values(cmap)[k] == cmap(
                                done.filter(lp)[k],
                            ));
                            assert(rhs[k] == cmap(done.filter(lp).push(line_b)[k]));
                            assert(done.filter(lp).push(line_b)[k] == done.filter(lp)[k]);
                        } else {
                            assert(lhs[k] == hmap(h));
                            assert(rhs[k] == cmap(done.filter(lp).push(line_b)[k]));
                            assert(done.filter(lp).push(line_b)[k] == line_b);
                        }
                    }
                    assert(headers@.map_values(hmap) =~~= done.push(line_b).filter(lp).map_values(
                        cmap,
                    ));
                }
            },
            Err(_) => {
                proof {
                    assert(!line_parseable(line_b));
                    assert(!lp(line_b));
                    assert(done.push(line_b).filter(lp) == done.filter(lp));
                    assert(headers@.map_values(hmap) =~~= done.push(line_b).filter(lp).map_values(
                        cmap,
                    ));
                }
            },
        }
        proof {
            done = done.push(line_b);
        }
        pos = i + 2;
    }
    let h = ResponseHead {
        status_line,
        index1: parsed.0.0,
        index2: parsed.0.1,
        status: parsed.1,
        headers,
    };
    proof {
        assert(h.status_line@ == ascii_chars_of(buf@.take(e0 as int)));
        assert(h.index1 <= h.index2 < h.status_line@.len()) by {
            match find_from(h.status_line@, ' ', 0) {
                Some(sp1) => {
                    lemma_find_from_props(h.status_line@, ' ', 0);
                    match find_from(h.status_line@, ' ', sp1 + 1) {
                        Some(sp2) => {
                            lemma_find_from_props(h.status_line@, ' ', sp1 + 1);
                        },
                        None => {},
                    }
                },
                None => {},
            }
        }
        assert(h.wf());
    }
        Ok(Some(h))
}


/// A request head ready for serialization: method, request target
/// (`path?query`), and the caller's headers in insertion order.
pub struct RequestHead {
    pub method: String,
    pub target: String,
    pub headers: Vec<Header>,
}

impl RequestHead {
    pub open spec fn wf(&self) -> bool {
        &&& vstd::utf8::is_ascii_chars(self.method@)
        &&& vstd::utf8::is_ascii_chars(self.target@)
        &&& crate::header::headers_wf(self.headers@)
    }
}

/// One serialized header line, `name: value\r\n`, as UTF-8 bytes.
pub open spec fn header_line_bytes(h: Header) -> Seq<u8> {
    vstd::utf8::encode_utf8(h.name_view()) + vstd::utf8::encode_utf8((": ")@)
        + vstd::utf8::encode_utf8(h.value_view()) + vstd::utf8::encode_utf8(("\r\n")@)
}

/// The serialized header block, in order.
pub open spec fn header_block_bytes(hs: Seq<Header>) -> Seq<u8>
    decreases hs.len(),
{
    if hs.len() == 0 {
        Seq::<u8>::empty()
    } else {
        header_line_bytes(hs[0]) + header_block_bytes(hs.drop_first())
    }
}

/// The whole request head on the wire: request line, an inserted `Host`
/// header when the caller set none, the caller's headers verbatim in
/// insertion order, and the blank line.
pub open spec fn spec_request_head_bytes(
    method: Seq<char>,
    target: Seq<char>,
    host: Option<Seq<char>>,
    headers: Seq<Header>,
) -> Seq<u8> {
    vstd::utf8::encode_utf8(method) + vstd::utf8::encode_utf8((" ")@) + vstd::utf8::encode_utf8(
        target,
    ) + vstd::utf8::encode_utf8((" HTTP/1.1\r\n")@) + (match host {
        Some(h) => vstd::utf8::encode_utf8(("Host: ")@) + vstd::utf8::encode_utf8(h)
            + vstd::utf8::encode_utf8(("\r\n")@),
        None => Seq::<u8>::empty(),
    }) + header_block_bytes(headers) + vstd::utf8::encode_utf8(("\r\n")@)
}

/// Splitting the header block after one more header peels one line.
proof fn lemma_header_block_take(hs: Seq<Header>, i: int)
    requires
        0 <= i < hs.len(),
    ensures
        header_block_bytes(hs.take(i)) + header_line_bytes(hs[i]) =~= header_block_bytes(
            hs.take(i + 1),
        ),
    decreases i + 1,
{
    if i == 0 {
        assert(hs.take(0) =~= Seq::<Header>::empty());
        assert(hs.take(1)[0] == hs[0]);
        assert(hs.take(1).drop_first() =~= Seq::<Header>::empty());
        assert(header_block_bytes(hs.take(1)) == header_line_bytes(hs.take(1)[0])
            + header_block_bytes(hs.take(1).drop_first()));
    } else {
        lemma_header_block_take(hs.drop_first(), i - 1);
        assert(hs.take(i + 1)[0] == hs[0]);
        assert(hs.take(i + 1).drop_first() =~= hs.drop_first().take(i));
        assert(hs.take(i).drop_first() =~= hs.drop_first().take(i - 1));
        assert(hs.take(i)[0] == hs[0]);
        assert(hs.drop_first()[i - 1] == hs[i]);
        assert(header_block_bytes(hs.take(i + 1)) == header_line_bytes(hs[0])
            + header_block_bytes(hs.drop_first().take(i)));
        assert(header_block_bytes(hs.take(i)) == header_line_bytes(hs[0]) + header_block_bytes(
            hs.drop_first().take(i - 1),
        ));
        assert(header_block_bytes(hs.take(i)) + header_line_bytes(hs[i]) =~= header_block_bytes(
            hs.take(i + 1),
        ));
    }
}

/// Serialize a request head. `Host` is added from `host` only when the
/// caller's headers do not name one.
pub fn write_http11_req(req: &RequestHead, host: &str) -> (r: Vec<u8>)
    requires
        req.wf(),
    ensures
        r@ == spec_request_head_bytes(
            req.method@,
            req.target@,
            if crate::header::spec_find_header(req.headers@, ("host")@) is Some {
                None
            } else {
                Some(host@)
            },
            req.headers@,
        ),
{
    let ghost hostopt: Option<Seq<char>> = if crate::header::spec_find_header(
        req.headers@,
        ("host")@,
    ) is Some {
        None
    } else {
        Some(host@)
    };
    let mut out: Vec<u8> = Vec::new();
    out.extend_from_slice(req.method.as_str().as_bytes());
    out.extend_from_slice(" ".as_bytes());
    out.extend_from_slice(req.target.as_str().as_bytes());
    out.extend_from_slice(" HTTP/1.1\r\n".as_bytes());
    if !crate::header::has_header(&req.headers, "host") {
        out.extend_from_slice("Host: ".as_bytes());
        out.extend_from_slice(host.as_bytes());
        out.extend_from_slice("\r\n".as_bytes());
    }
    let ghost head_prefix = out@;
    let n = req.headers.len();
    let mut i: usize = 0;
    proof {
        assert(req.headers@.take(0) =~= Seq::<Header>::empty());
        assert(out@ =~= head_prefix + header_block_bytes(req.headers@.take(0)));
    }
    while i < n
        invariant
            req.wf(),
            n == req.headers@.len(),
            i <= n,
            out@ == head_prefix + header_block_bytes(req.headers@.take(i as int)),
        decreases n - i,
    {
        proof {
            lemma_header_block_take(req.headers@, i as int);
        }
        let h = &req.headers[i];
        out.extend_from_slice(h.name().as_bytes());
        out.extend_from_slice(": ".as_bytes());
        out.extend_from_slice(h.value().as_bytes());
        out.extend_from_slice("\r\n".as_bytes());
        proof {
            assert(out@ =~= head_prefix + header_block_bytes(req.headers@.take(i + 1)));
        }
        i = i + 1;
    }
    out.extend_from_slice("\r\n".as_bytes());
    proof {
        assert(req.headers@.take(n as int) =~= req.headers@);
        assert(out@ =~= spec_request_head_bytes(req.method@, req.target@, hostopt, req.headers@));
    }
    out
}

} // verus!