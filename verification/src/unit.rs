//! One unit of work: a request bound to a URL, with the decisions around
//! connecting, redirecting, and cookie selection as verified functions.

use crate::err::{Error, ErrorKind};
use crate::header::{
    get_header, has_header, headers_wf, spec_find_header, Header,
};
use crate::http11::{spec_request_head_bytes, RequestHead};
use crate::strutil::{
    ascii_eq_nocase, ascii_str_eq, ascii_to_lower, contains_seq, eq_nocase, lower_chars,
    str_contains, str_starts_with,
};
use vstd::prelude::*;

verus! {

/// The parts of a URL the protocol logic reads, as plain values.
pub struct UrlParts {
    pub scheme: String,
    pub host: String,
    pub path: String,
    pub query: Option<String>,
}

impl UrlParts {
    pub open spec fn wf(&self) -> bool {
        &&& vstd::utf8::is_ascii_chars(self.scheme@)
        &&& vstd::utf8::is_ascii_chars(self.host@)
        &&& vstd::utf8::is_ascii_chars(self.path@)
        &&& match self.query {
            Some(q) => vstd::utf8::is_ascii_chars(q@),
            None => true,
        }
    }
}

/// The query string a request uses: the URL's query joined with the
/// caller's extra query by `&`, with a leading `?` when non-empty.
pub open spec fn spec_combined_query(urlq: Option<Seq<char>>, extra: Seq<char>) -> Seq<char> {
    match urlq {
        Some(u) => if extra.len() > 0 {
            ("?")@ + u + ("&")@ + extra
        } else {
            ("?")@ + u
        },
        None => if extra.len() > 0 {
            ("?")@ + extra
        } else {
            Seq::<char>::empty()
        },
    }
}

/// Join the URL's query with the caller's extra query.
pub fn combine_query(url: &UrlParts, extra: &str) -> (r: String)
    requires
        url.wf(),
        extra.is_ascii(),
    ensures
        r@ == spec_combined_query(
            match url.query {
                Some(q) => Some(q@),
                None => None,
            },
            extra@,
        ),
        vstd::utf8::is_ascii_chars(r@),
{
    proof {
        reveal_strlit("?");
        reveal_strlit("&");
        assert(("?")@.len() == 1 && ("?")@[0] == '?');
        assert(("&")@.len() == 1 && ("&")@[0] == '&');
        assert(('?' as u32) == 63);
        assert(('&' as u32) == 38);
    }
    match &url.query {
        Some(u) => {
            if extra.unicode_len() > 0 {
                let r = String::from_str("?").concat(u.as_str()).concat("&").concat(extra);
                proof {
                    lemma_ascii_concat4(r@, ("?")@, u@, ("&")@, extra@);
                }
                r
            } else {
                let r = String::from_str("?").concat(u.as_str());
                proof {
                    lemma_ascii_concat4(r@, ("?")@, u@, Seq::<char>::empty(), Seq::empty());
                    assert(r@ =~= ("?")@ + u@ + Seq::<char>::empty() + Seq::<char>::empty());
                }
                r
            }
        },
        None => {
            if extra.unicode_len() > 0 {
                let r = String::from_str("?").concat(extra);
                proof {
                    lemma_ascii_concat4(r@, ("?")@, extra@, Seq::<char>::empty(), Seq::empty());
                    assert(r@ =~= ("?")@ + extra@ + Seq::<char>::empty() + Seq::<char>::empty());
                }
                r
            } else {
                String::new()
            }
        },
    }
}

/// A concatenation of four ASCII pieces is ASCII.
pub proof fn lemma_ascii_concat4(
    whole: Seq<char>,
    a: Seq<char>,
    b: Seq<char>,
    c: Seq<char>,
    d: Seq<char>,
)
    requires
        whole == a + b + c + d,
        vstd::utf8::is_ascii_chars(a),
        vstd::utf8::is_ascii_chars(b),
        vstd::utf8::is_ascii_chars(c),
        vstd::utf8::is_ascii_chars(d),
    ensures
        vstd::utf8::is_ascii_chars(whole),
{
    assert forall|i: int| 0 <= i < whole.len() implies '\0' <= #[trigger] whole[i]
        <= '\u{7f}' by {
        if i < a.len() {
            assert(whole[i] == a[i]);
        } else if i < a.len() + b.len() {
            assert(whole[i] == b[i - a.len()]);
        } else if i < a.len() + b.len() + c.len() {
            assert(whole[i] == c[i - a.len() - b.len()]);
        } else {
            assert(whole[i] == d[i - a.len() - b.len() - c.len()]);
        }
    }
}

/// A unit of work: one request against one URL.
pub struct Unit {
    pub url: UrlParts,
    pub is_chunked: bool,
    pub is_head: bool,
    pub hostname: String,
    pub query_string: String,
    pub headers: Vec<Header>,
    pub timeout_connect: u64,
    pub timeout_read: u64,
    pub timeout_write: u64,
}

impl Unit {
    pub open spec fn wf(&self) -> bool {
        &&& self.url.wf()
        &&& headers_wf(self.headers@)
        &&& vstd::utf8::is_ascii_chars(self.hostname@)
        &&& vstd::utf8::is_ascii_chars(self.query_string@)
    }

    /// Build the unit: whether the caller chose chunked transfer, whether
    /// the method is HEAD, the hostname, the combined query string, and
    /// the header list — the caller's headers, then the selected cookie
    /// headers, then `Content-Length` when a sized body needs one.
    pub fn new(
        method: &str,
        url: UrlParts,
        extra_query: &str,
        req_headers: Vec<Header>,
        cookie_headers: Vec<Header>,
        body_size: Option<u64>,
        timeout_connect: u64,
        timeout_read: u64,
        timeout_write: u64,
    ) -> (r: Unit)
        requires
            method.is_ascii(),
            extra_query.is_ascii(),
            url.wf(),
            headers_wf(req_headers@),
            headers_wf(cookie_headers@),
        ensures
            r.wf(),
            r.is_chunked == (match spec_find_header(req_headers@, ("transfer-encoding")@) {
                Some(i) => req_headers@[i].value_view().len() > 0,
                None => false,
            }),
            r.is_head == eq_nocase(method@, ("head")@),
            r.hostname@ == (if url.host@.len() > 0 {
                url.host@
            } else {
                ("localhost")@
            }),
            r.query_string@ == spec_combined_query(
                match url.query {
                    Some(q) => Some(q@),
                    None => None,
                },
                extra_query@,
            ),
            r.headers@.len() == req_headers@.len() + cookie_headers@.len() + (
            if !r.is_chunked && spec_find_header(req_headers@, ("content-length")@) is None
                && body_size is Some {
                1int
            } else {
                0int
            }),
            forall|j: int| 0 <= j < req_headers@.len() ==> r.headers@[j] == req_headers@[j],
            forall|j: int|
                0 <= j < cookie_headers@.len() ==> r.headers@[req_headers@.len() + j]
                    == cookie_headers@[j],
            match body_size {
                Some(n) => (!r.is_chunked && spec_find_header(
                    req_headers@,
                    ("content-length")@,
                ) is None) ==> r.headers@.last().name_view() == ("Content-Length")@
                    && r.headers@.last().value_view() == crate::strutil::dec_chars(n as nat),
                None => true,
            },
            r.timeout_connect == timeout_connect,
            r.timeout_read == timeout_read,
            r.timeout_write == timeout_write,
    {
        let is_chunked = match get_header(&req_headers, "transfer-encoding") {
            Some(v) => v.unicode_len() > 0,
            None => false,
        };
        let is_head = ascii_eq_nocase(method, "head");
        let hostname = if url.host.as_str().unicode_len() > 0 {
            url.host.clone()
        } else {
            String::from_str("localhost")
        };
        proof {
            reveal_strlit("localhost");
            assert(vstd::utf8::is_ascii_chars(("localhost")@)) by {
                assert forall|i: int|
                    0 <= i < ("localhost")@.len() implies '\0' <= #[trigger] ("localhost")@[i]
                    <= '\u{7f}' by {
                    if i == 0 {
                        assert(("localhost")@[0] == 'l');
                    } else if i == 1 {
                        assert(("localhost")@[1] == 'o');
                    } else if i == 2 {
                        assert(("localhost")@[2] == 'c');
                    } else if i == 3 {
                        assert(("localhost")@[3] == 'a');
                    } else if i == 4 {
                        assert(("localhost")@[4] == 'l');
                    } else if i == 5 {
                        assert(("localhost")@[5] == 'h');
                    } else if i == 6 {
                        assert(("localhost")@[6] == 'o');
                    } else if i == 7 {
                        assert(("localhost")@[7] == 's');
                    } else {
                        assert(("localhost")@[8] == 't');
                    }
                }
            }
        }
        let query_string = combine_query(&url, extra_query);
        let add_length = !is_chunked && !has_header(&req_headers, "content-length");
        let ghost orig_req = req_headers@;
        let ghost orig_cookies = cookie_headers@;
        let mut headers = req_headers;
        let cookies = cookie_headers;
        let n_cookies = cookies.len();
        let mut k: usize = 0;
        while k < n_cookies
            invariant
                headers_wf(headers@),
                headers_wf(cookies@),
                orig_cookies == cookies@,
                n_cookies == cookies@.len(),
                k <= n_cookies,
                headers@.len() == orig_req.len() + k,
                forall|j: int| 0 <= j < orig_req.len() ==> headers@[j] == orig_req[j],
                forall|j: int|
                    0 <= j < k ==> headers@[orig_req.len() + j] == orig_cookies[j],
            decreases n_cookies - k,
        {
            headers.push(cookies[k].duplicate());
            k = k + 1;
        }
        if add_length {
            match body_size {
                Some(n) => {
                    let mut line = String::from_str("Content-Length: ");
                    line.append(crate::strutil::u64_to_string(n).as_str());
                    let h = Header { line, index: 14 };
                    proof {
                        reveal_strlit("Content-Length: ");
                        reveal_strlit("Content-Length");
                        reveal_strlit(": ");
                        assert(("Content-Length: ")@ =~= ("Content-Length")@ + (": ")@);
                        assert(h.line@ == ("Content-Length")@ + (": ")@
                            + crate::strutil::dec_chars(n as nat));
                        crate::strutil::lemma_dec_chars_digits(n as nat);
                        crate::strutil::lemma_digits_untrimmed(
                            crate::strutil::dec_chars(n as nat),
                        );
                        crate::conn::lemma_built_header(
                            h,
                            ("Content-Length")@,
                            crate::strutil::dec_chars(n as nat),
                        );
                    }
                    headers.push(h);
                },
                None => {},
            }
        }
        let unit = Unit {
            url,
            is_chunked,
            is_head,
            hostname,
            query_string,
            headers,
            timeout_connect,
            timeout_read,
            timeout_write,
        };
        unit
    }
}

/// Connection-attempt parameters: whether a pooled connection may be
/// used, whether `Expect: 100-continue` is honored, and how many
/// redirects are left.
pub struct ConnParams {
    pub use_pooled: bool,
    pub use_expect100: bool,
    pub redirects: u32,
}

impl ConnParams {
    pub fn new() -> (r: Self)
        ensures
            r.use_pooled,
            r.use_expect100,
            r.redirects == 5,
    {
        ConnParams { use_pooled: true, use_expect100: true, redirects: 5 }
    }
}

/// Whether the request carries `Expect: 100-continue` and the parameters
/// allow honoring it.
pub fn send_expect100(unit: &Unit, params: &ConnParams) -> (r: bool)
    requires
        unit.wf(),
    ensures
        r == (params.use_expect100 && (match spec_find_header(unit.headers@, ("expect")@) {
            Some(i) => eq_nocase(unit.headers@[i].value_view(), ("100-continue")@),
            None => false,
        })),
{
    let has = match get_header(&unit.headers, "expect") {
        Some(v) => ascii_eq_nocase(v, "100-continue"),
        None => false,
    };
    params.use_expect100 && has
}

/// Which transport a URL scheme calls for.
#[derive(Clone, Copy, PartialEq, Eq, Structural, Debug)]
pub enum SchemeKind {
    Http,
    Https,
    Test,
}

/// Map a scheme to its transport; an unknown scheme is an error naming
/// the scheme.
pub fn scheme_kind(scheme: &str) -> (r: Result<SchemeKind, Error>)
    requires
        scheme.is_ascii(),
    ensures
        scheme@ == ("http")@ ==> r == Ok::<SchemeKind, Error>(SchemeKind::Http),
        scheme@ == ("https")@ ==> r == Ok::<SchemeKind, Error>(SchemeKind::Https),
        scheme@ == ("test")@ ==> r == Ok::<SchemeKind, Error>(SchemeKind::Test),
        scheme@ != ("http")@ && scheme@ != ("https")@ && scheme@ != ("test")@ ==> (
        r matches Err(e) && e.kind() == ErrorKind::UnknownScheme && e.msg_view() == scheme@),
{
    proof {
        reveal_strlit("http");
        reveal_strlit("https");
        reveal_strlit("test");
        assert(("http")@.len() == 4);
        assert(("https")@.len() == 5);
        assert(("test")@.len() == 4);
        assert(("http")@[0] == 'h');
        assert(("test")@[0] == 't');
    }
    if ascii_str_eq(scheme, "http") {
        Ok(SchemeKind::Http)
    } else if ascii_str_eq(scheme, "https") {
        Ok(SchemeKind::Https)
    } else if ascii_str_eq(scheme, "test") {
        Ok(SchemeKind::Test)
    } else {
        Err(Error::UnknownScheme(scheme.to_owned()))
    }
}

/// What to do with a response during the redirect walk.
#[derive(Clone, Copy, PartialEq, Eq, Structural, Debug)]
pub enum RedirectAction {
    /// Not a redirect (or no `Location`): hand the response out.
    Done,
    /// Follow to the location, switching the method to GET.
    FollowGet,
    /// Follow to the location with the same method.
    FollowSameMethod,
    /// A redirect, but no redirects are left.
    TooMany,
}

/// The redirect decision: for a 3xx status with a `Location` header,
/// follow (with GET for 301, 302 and 303; with the same method
/// otherwise), unless no redirects are left; anything else ends the walk.
pub fn redirect_action(status: u16, has_location: bool, redirects_left: u32) -> (r:
    RedirectAction)
    ensures
        !(300 <= status <= 399) ==> r == RedirectAction::Done,
        300 <= status <= 399 && redirects_left == 0 ==> r == RedirectAction::TooMany,
        300 <= status <= 399 && redirects_left > 0 && !has_location ==> r == RedirectAction::Done,
        300 <= status <= 399 && redirects_left > 0 && has_location ==> r == (
        if status == 301 || status == 302 || status == 303 {
            RedirectAction::FollowGet
        } else {
            RedirectAction::FollowSameMethod
        }),
{
    if !(300 <= status && status <= 399) {
        return RedirectAction::Done;
    }
    if redirects_left == 0 {
        return RedirectAction::TooMany;
    }
    if !has_location {
        return RedirectAction::Done;
    }
    if status == 301 || status == 302 || status == 303 {
        RedirectAction::FollowGet
    } else {
        RedirectAction::FollowSameMethod
    }
}

/// Serialize the request start and headers for this unit: the request
/// line from the method, path and combined query, a `Host` header when
/// the caller set none, and the unit's headers — leaving out
/// `Expect: 100-continue` when it is not honored.
pub fn send_prelude(unit: &Unit, method: &str, use_expect100: bool) -> (r: Vec<u8>)
    requires
        unit.wf(),
        method.is_ascii(),
    ensures
        r@ == spec_request_head_bytes(
            method@,
            unit.url.path@ + unit.query_string@,
            if spec_find_header(unit.headers@, ("host")@) is Some {
                None
            } else {
                Some(unit.hostname@)
            },
            unit.headers@.filter(
                |h: Header| !(!use_expect100 && eq_nocase(h.name_view(), ("expect")@)
                    && eq_nocase(h.value_view(), ("100-continue")@)),
            ),
        ),
{
    let ghost keep = |h: Header| !(!use_expect100 && eq_nocase(h.name_view(), ("expect")@)
        && eq_nocase(h.value_view(), ("100-continue")@));
    let mut kept: Vec<Header> = Vec::new();
    let n = unit.headers.len();
    let mut i: usize = 0;
    while i < n
        invariant
            keep == (|h: Header| !(!use_expect100 && eq_nocase(h.name_view(), ("expect")@)
                && eq_nocase(h.value_view(), ("100-continue")@))),
            unit.wf(),
            n == unit.headers@.len(),
            i <= n,
            headers_wf(kept@),
            kept@ == unit.headers@.take(i as int).filter(keep),
        decreases n - i,
    {
        proof {
            reveal(Seq::filter);
            assert(unit.headers@.take(i + 1).drop_last() =~= unit.headers@.take(i as int));
            assert(unit.headers@.take(i + 1).last() == unit.headers@[i as int]);
            assert(unit.headers@.take(i + 1).filter(keep) == if keep(unit.headers@[i as int]) {
                unit.headers@.take(i as int).filter(keep).push(unit.headers@[i as int])
            } else {
                unit.headers@.take(i as int).filter(keep)
            });
        }
        let h = &unit.headers[i];
        let skip = !use_expect100 && h.is_name("expect") && h.is_value("100-continue", true);
        if !skip {
            kept.push(h.duplicate());
        }
        i = i + 1;
    }
    proof {
        assert(unit.headers@.take(n as int) =~= unit.headers@);
    }
    let target = unit.url.path.clone().concat(unit.query_string.as_str());
    let req = RequestHead { method: method.to_owned(), target, headers: kept };
    proof {
        lemma_ascii_concat4(
            req.target@,
            unit.url.path@,
            unit.query_string@,
            Seq::<char>::empty(),
            Seq::empty(),
        );
        assert(req.target@ =~= unit.url.path@ + unit.query_string@ + Seq::<char>::empty()
            + Seq::<char>::empty());
        assert(req.wf());
        reveal_strlit("host");
        reveal_strlit("expect");
        assert(("host")@.len() == 4);
        assert(("expect")@.len() == 6);
        assert forall|h: Header|
            eq_nocase(#[trigger] h.name_view(), ("host")@) implies keep(h) by {
            if !keep(h) {
                assert(eq_nocase(h.name_view(), ("expect")@));
                assert(lower_chars(h.name_view()).len() == lower_chars(("host")@).len());
                assert(lower_chars(h.name_view()).len() == lower_chars(("expect")@).len());
                assert(false);
            }
        }
        lemma_filter_find_host(unit.headers@, keep);
    }
    crate::http11::write_http11_req(&req, unit.hostname.as_str())
}

/// Filtering out `Expect` headers does not change whether a `Host`
/// header is present.
proof fn lemma_filter_find_host(hs: Seq<Header>, keep: spec_fn(Header) -> bool)
    requires
        forall|h: Header| eq_nocase(#[trigger] h.name_view(), ("host")@) ==> keep(h),
    ensures
        (spec_find_header(hs, ("host")@) is Some) == (spec_find_header(
            hs.filter(keep),
            ("host")@,
        ) is Some),
    decreases hs.len(),
{
    reveal(Seq::filter);
    crate::header::lemma_find_header_props(hs, ("host")@);
    crate::header::lemma_find_header_props(hs.filter(keep), ("host")@);
    crate::header::lemma_filter_membership_hdr(hs, keep);
    match spec_find_header(hs, ("host")@) {
        Some(i) => {
            assert(eq_nocase(hs[i].name_view(), ("host")@));
            assert(keep(hs[i]));
            hs.lemma_filter_contains(keep, i);
            let j = choose|j: int|
                0 <= j < hs.filter(keep).len() && hs.filter(keep)[j] == hs[i];
            match spec_find_header(hs.filter(keep), ("host")@) {
                Some(_) => {},
                None => {
                    assert(!eq_nocase(hs.filter(keep)[j].name_view(), ("host")@));
                    assert(false);
                },
            }
        },
        None => {
            match spec_find_header(hs.filter(keep), ("host")@) {
                Some(j) => {
                    assert(eq_nocase(hs.filter(keep)[j].name_view(), ("host")@));
                    let m = choose|m: int|
                        0 <= m < hs.len() && hs[m] == hs.filter(keep)[j];
                    assert(!eq_nocase(hs[m].name_view(), ("host")@));
                    assert(false);
                },
                None => {},
            }
        },
    }
}

/// One stored cookie, as plain values.
pub struct CookieData {
    pub name: String,
    pub value: String,
    pub domain: Option<String>,
    pub path: Option<String>,
    pub secure: bool,
}

impl CookieData {
    pub open spec fn wf(&self) -> bool {
        &&& vstd::utf8::is_ascii_chars(self.name@)
        &&& vstd::utf8::is_ascii_chars(self.value@)
        &&& match self.domain {
            Some(d) => vstd::utf8::is_ascii_chars(d@),
            None => true,
        }
        &&& match self.path {
            Some(p) => vstd::utf8::is_ascii_chars(p@),
            None => true,
        }
    }
}

/// Whether a stored cookie is sent with a request: its domain must be
/// set and occur in the request's domain, its path (when set) must be a
/// prefix of the request's path, and a secure cookie needs a secure
/// request.
pub open spec fn spec_cookie_matches(
    c: CookieData,
    domain: Seq<char>,
    path: Seq<char>,
    is_secure: bool,
) -> bool {
    &&& match c.domain {
        Some(d) => contains_seq(domain, d@),
        None => false,
    }
    &&& match c.path {
        Some(p) => p@.len() <= path.len() && path.take(p@.len() as int) == p@,
        None => true,
    }
    &&& (!c.secure || is_secure)
}

/// Select the stored cookies a request to `domain`/`path` carries.
pub fn match_cookies(
    jar: &Vec<CookieData>,
    domain: &str,
    path: &str,
    is_secure: bool,
) -> (r: Vec<usize>)
    requires
        forall|i: int| 0 <= i < jar@.len() ==> (#[trigger] jar@[i]).wf(),
        domain.is_ascii(),
        path.is_ascii(),
    ensures
        forall|k: int|
            0 <= k < r@.len() ==> (#[trigger] r@[k]) < jar@.len() && spec_cookie_matches(
                jar@[r@[k] as int],
                domain@,
                path@,
                is_secure,
            ),
        forall|i: int|
            0 <= i < jar@.len() && spec_cookie_matches(
                #[trigger] jar@[i],
                domain@,
                path@,
                is_secure,
            ) ==> r@.contains(i as usize),
        forall|k1: int, k2: int| 0 <= k1 < k2 < r@.len() ==> r@[k1] < r@[k2],
{
    let n = jar.len();
    let mut out: Vec<usize> = Vec::new();
    let mut i: usize = 0;
    while i < n
        invariant
            forall|k: int| 0 <= k < jar@.len() ==> (#[trigger] jar@[k]).wf(),
            domain.is_ascii(),
            path.is_ascii(),
            n == jar@.len(),
            i <= n,
            forall|k: int|
                0 <= k < out@.len() ==> (#[trigger] out@[k]) < jar@.len()
                    && spec_cookie_matches(out_at(jar@, out@, k), domain@, path@, is_secure),
            forall|j: int|
                0 <= j < i && spec_cookie_matches(
                    #[trigger] jar@[j],
                    domain@,
                    path@,
                    is_secure,
                ) ==> out@.contains(j as usize),
            forall|k: int| 0 <= k < out@.len() ==> (#[trigger] out@[k]) < i,
            forall|k1: int, k2: int| 0 <= k1 < k2 < out@.len() ==> out@[k1] < out@[k2],
        decreases n - i,
    {
        let c = &jar[i];
        let domain_ok = match &c.domain {
            Some(d) => str_contains(domain, d.as_str()),
            None => false,
        };
        let path_ok = match &c.path {
            Some(p) => str_starts_with(path, p.as_str()),
            None => true,
        };
        let secure_ok = !c.secure || is_secure;
        let ghost pre_out = out@;
        let matched = domain_ok && path_ok && secure_ok;
        if matched {
            out.push(i);
        }
        proof {
            assert forall|j: int|
                0 <= j < i + 1 && spec_cookie_matches(
                    #[trigger] jar@[j],
                    domain@,
                    path@,
                    is_secure,
                ) implies out@.contains(j as usize) by {
                if j < i {
                    let k = choose|k: int| 0 <= k < pre_out.len() && pre_out[k] == (j as usize);
                    assert(out@[k] == (j as usize));
                } else {
                    assert(matched);
                    assert(out@[out@.len() - 1] == (i as usize));
                }
            }
        }
        i = i + 1;
    }
    out
}

/// The cookie at a selected index.
pub open spec fn out_at(jar: Seq<CookieData>, out: Seq<usize>, k: int) -> CookieData {
    jar[out[k] as int]
}

/// The text a received `Set-Cookie` value is parsed from: itself when it
/// already names a domain (in any case), else with the request's
/// hostname appended as the domain.
pub fn cookie_to_parse(raw: &str, hostname: &str) -> (r: String)
    requires
        raw.is_ascii(),
        hostname.is_ascii(),
    ensures
        contains_seq(lower_chars(raw@), ("domain=")@) ==> r@ == raw@,
        !contains_seq(lower_chars(raw@), ("domain=")@) ==> r@ == raw@ + ("; Domain=")@
            + hostname@,
{
    let lowered = ascii_to_lower(raw);
    proof {
        reveal_strlit("domain=");
    }
    if str_contains(lowered.as_str(), "domain=") {
        raw.to_owned()
    } else {
        raw.to_owned().concat("; Domain=").concat(hostname)
    }
}

} // verus!


