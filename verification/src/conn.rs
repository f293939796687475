//! The connection facade: which protocol a connection speaks, the ALPN
//! choice, and the header defaults applied when a request is submitted.

use crate::body::{Body, ContentEncoding};
use crate::err::{Error, ErrorKind};
use crate::header::{spec_find_header, Header};
use crate::http11::RequestHead;
use crate::strutil::{ascii_str_eq, dec_chars, is_space_char, lemma_dec_chars_digits, lemma_digits_untrimmed, trim_back, trim_front, trimmed, u64_to_string};
use vstd::prelude::*;

verus! {

/// Which protocol the connection speaks. An HTTP/1.1 connection carries
/// its engine handle; the HTTP/2 framing library and its handles live
/// with the driver.
#[derive(Clone, Copy, Debug)]
pub enum ProtocolImpl {
    Http1(crate::engine::SendRequest),
    Http2,
}

/// The protocol negotiated on the transport.
#[derive(Clone, Copy, PartialEq, Eq, Structural, Debug)]
pub enum Protocol {
    Http11,
    Http2,
}

impl Protocol {
    /// The protocol an ALPN answer names: `h2` means HTTP/2, anything
    /// else (or no answer) means HTTP/1.1.
    pub fn from_alpn(alpn: Option<&[u8]>) -> (r: Protocol)
        ensures
            r == (match alpn {
                Some(a) => if a@ == seq![104u8, 50u8] {
                    Protocol::Http2
                } else {
                    Protocol::Http11
                },
                None => Protocol::Http11,
            }),
    {
        match alpn {
            Some(a) => {
                if a.len() == 2 && a[0] == 104 && a[1] == 50 {
                    proof {
                        assert(a@ =~= seq![104u8, 50u8]);
                    }
                    Protocol::Http2
                } else {
                    proof {
                        if a@ == seq![104u8, 50u8] {
                            assert(a@.len() == 2 && a@[0] == 104 && a@[1] == 50);
                        }
                    }
                    Protocol::Http11
                }
            },
            None => Protocol::Http11,
        }
    }
}

/// A usable connection: an identity for pooling, the address it dialed,
/// and the protocol it speaks.
#[derive(Debug)]
pub struct Connection {
    pub id: usize,
    pub addr: String,
    pub p: ProtocolImpl,
}

impl Connection {
    pub fn new(id: usize, addr: String, p: ProtocolImpl) -> (r: Self)
        ensures
            r.id == id,
            r.addr@ == addr@,
            r.p == p,
    {
        Connection { id, addr, p }
    }

    pub fn id(&self) -> (r: usize)
        ensures
            r == self.id,
    {
        self.id
    }

    pub fn addr(&self) -> (r: &str)
        ensures
            r@ == self.addr@,
    {
        self.addr.as_str()
    }

    pub fn is_http2(&self) -> (r: bool)
        ensures
            r == (self.p is Http2),
    {
        match self.p {
            ProtocolImpl::Http1(_) => false,
            ProtocolImpl::Http2 => true,
        }
    }

    /// HTTP/2 connections multiplex and may be cloned; HTTP/1.1
    /// connections may not.
    pub fn maybe_clone(&self) -> (r: Option<Connection>)
        ensures
            (r is Some) == (self.p is Http2),
            r matches Some(c) ==> c.p is Http2 && c.id == self.id && c.addr@ == self.addr@,
    {
        match self.p {
            ProtocolImpl::Http2 => Some(
                Connection { id: self.id, addr: self.addr.clone(), p: ProtocolImpl::Http2 },
            ),
            ProtocolImpl::Http1(_) => None,
        }
    }
}

/// The request method implies a body (POST, PUT or PATCH).
pub open spec fn spec_method_has_body(m: Seq<char>) -> bool {
    m == ("POST")@ || m == ("PUT")@ || m == ("PATCH")@
}

/// Apply the length defaults a submitted request gets (the first steps of
/// sending a request):
///
/// when the caller set no `Content-Length`, a body of known length `n`
/// gets `Content-Length: n` (unless `n` is zero and the method implies no
/// body), and a body of unknown length on HTTP/1.1 with a body-bearing
/// method gets `Transfer-Encoding: chunked` unless the caller chose an
/// encoding; then the body's deferred codec is resolved from the final
/// headers.
pub fn prepare_request(head: &mut RequestHead, body: &mut Body, is_http2: bool) -> (r: Result<
    (),
    Error,
>)
    requires
        old(head).wf(),
        old(body).wf(),
    ensures
        final(head).wf(),
        final(body).wf(),
        final(head).method@ == old(head).method@,
        final(head).target@ == old(head).target@,
        r is Err <==> !(old(body).codec == ContentEncoding::Deferred && !old(body).has_read),
        r matches Err(e) ==> e.kind() == ErrorKind::Static,
        r is Ok ==> final(body).codec == crate::body::spec_content_encoding(
            final(head).headers@,
            false,
        ),
        r is Ok && spec_find_header(old(head).headers@, ("content-length")@) is Some ==> final(head).headers@ == old(head).headers@,
        r is Ok && spec_find_header(old(head).headers@, ("content-length")@) is None ==> (
        match old(body).len_hint {
            Some(n) => {
                if n > 0 || spec_method_has_body(old(head).method@) {
                    final(head).headers@.len() == old(head).headers@.len() + 1 && (forall|j: int|
                        0 <= j < old(head).headers@.len() ==> final(head).headers@[j] == old(head).headers@[j]) && final(head).headers@.last().name_view() == (
                    "Content-Length")@ && final(head).headers@.last().value_view() == dec_chars(
                        n as nat,
                    )
                } else {
                    final(head).headers@ == old(head).headers@
                }
            },
            None => {
                if !is_http2 && spec_method_has_body(old(head).method@) && spec_find_header(
                    old(head).headers@,
                    ("transfer-encoding")@,
                ) is None {
                    final(head).headers@.len() == old(head).headers@.len() + 1 && (forall|j: int|
                        0 <= j < old(head).headers@.len() ==> final(head).headers@[j] == old(head).headers@[j]) && final(head).headers@.last().name_view() == (
                    "Transfer-Encoding")@ && final(head).headers@.last().value_view() == (
                    "chunked")@
                } else {
                    final(head).headers@ == old(head).headers@
                }
            },
        }),
{
    let user_set_length = crate::header::has_header(&head.headers, "content-length");
    let m = head.method.as_str();
    let method_indicates_body = ascii_str_eq(m, "POST") || ascii_str_eq(m, "PUT") || ascii_str_eq(
        m,
        "PATCH",
    );
    if !user_set_length {
        match body.length() {
            Some(n) => {
                if n > 0 || method_indicates_body {
                    let mut line = String::from_str("Content-Length: ");
                    line.append(u64_to_string(n).as_str());
                    let h = Header { line, index: 14 };
                    proof {
                        reveal_strlit("Content-Length: ");
                        reveal_strlit("Content-Length");
                        reveal_strlit(": ");
                        assert(("Content-Length: ")@ =~= ("Content-Length")@ + (": ")@);
                        assert(h.line@ == ("Content-Length")@ + (": ")@ + dec_chars(n as nat));
                        lemma_dec_chars_digits(n as nat);
                        lemma_digits_untrimmed(dec_chars(n as nat));
                        lemma_built_header(h, ("Content-Length")@, dec_chars(n as nat));
                    }
                    head.headers.push(h);
                }
            },
            None => {
                if !is_http2 && method_indicates_body {
                    let user_set_te = crate::header::has_header(
                        &head.headers,
                        "transfer-encoding",
                    );
                    if !user_set_te {
                        let mut line = String::from_str("Transfer-Encoding: ");
                        line.append("chunked");
                        let h = Header { line, index: 17 };
                        proof {
                            reveal_strlit("Transfer-Encoding: ");
                            reveal_strlit("Transfer-Encoding");
                            reveal_strlit(": ");
                            reveal_strlit("chunked");
                            assert(("Transfer-Encoding: ")@ =~= ("Transfer-Encoding")@
                                + (": ")@);
                            assert(h.line@ == ("Transfer-Encoding")@ + (": ")@ + ("chunked")@);
                            assert(vstd::utf8::is_ascii_chars(("Transfer-Encoding")@));
                            assert(vstd::utf8::is_ascii_chars(("chunked")@));
                            assert(!is_space_char(("chunked")@[0]));
                            assert(!is_space_char(("chunked")@.last()));
                            assert(trim_front(("chunked")@) == ("chunked")@);
                            assert(trim_back(("chunked")@) == ("chunked")@);
                            lemma_built_header(h, ("Transfer-Encoding")@, ("chunked")@);
                        }
                        head.headers.push(h);
                    }
                }
            },
        }
    }
    body.configure(&head.headers, false)
}

/// A header built as `name: value` from an ASCII name and an ASCII,
/// already-trimmed value has exactly that name and value, with the colon
/// at the end of the name.
pub proof fn lemma_built_header(h: Header, name: Seq<char>, value: Seq<char>)
    requires
        h.line@ == name + (": ")@ + value,
        h.index as int == name.len(),
        vstd::utf8::is_ascii_chars(name),
        vstd::utf8::is_ascii_chars(value),
        trimmed(value) == value,
    ensures
        h.wf(),
        h.name_view() == name,
        h.value_view() == value,
{
    reveal_strlit(": ");
    assert((": ")@.len() == 2);
    assert((": ")@[0] == ':');
    assert((": ")@[1] == ' ');
    assert(h.line@[name.len() as int] == ':');
    assert forall|i: int|
        0 <= i < h.line@.len() implies '\0' <= #[trigger] h.line@[i] <= '\u{7f}' by {
        if i < name.len() {
            assert(h.line@[i] == name[i]);
        } else if i == name.len() {
            assert(h.line@[i] == ':');
            assert((':' as u32) == 58);
        } else if i == name.len() + 1 {
            assert(h.line@[i] == ' ');
            assert((' ' as u32) == 32);
        } else {
            assert(h.line@[i] == value[i - name.len() - 2]);
        }
    }
    assert(h.wf());
    assert(h.name_view() =~= name);
    assert(h.line@.skip(h.index + 1) =~= seq![' '] + value);
    assert((seq![' '] + value)[0] == ' ');
    assert(is_space_char(' '));
    if value.len() > 0 {
        assert(trim_front(seq![' '] + value) == trim_front((seq![' '] + value).drop_first()));
        assert((seq![' '] + value).drop_first() =~= value);
        assert(h.value_view() == trimmed(value));
    } else {
        assert((seq![' '] + value).drop_first() =~= value);
        assert(trim_front(seq![' '] + value) == trim_front(value));
        assert(h.value_view() == trimmed(value));
    }
}

} // verus!
