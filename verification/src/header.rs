//! Header lines: an ASCII `name: value` pair kept as one line plus the
//! position of the colon, with case-insensitive lookup over header lists.

use crate::err::{Error, ErrorKind};
use crate::strutil::{
    ascii_eq_nocase, ascii_str_eq, eq_nocase, find_char_str, find_from, lemma_find_from_props,
    lower_char, str_trim_ascii, trimmed,
};
use vstd::prelude::*;

verus! {

/// One header line, `name: value`. `index` is the position of the colon.
#[derive(Debug)]
pub struct Header {
    pub line: String,
    pub index: usize,
}

impl Header {
    /// The line is ASCII and the colon is inside it.
    pub open spec fn wf(&self) -> bool {
        &&& vstd::utf8::is_ascii_chars(self.line@)
        &&& self.index < self.line@.len()
        &&& self.line@[self.index as int] == ':'
    }

    /// The characters before the colon.
    pub open spec fn name_view(&self) -> Seq<char> {
        self.line@.subrange(0, self.index as int)
    }

    /// The characters after the colon, trimmed of surrounding whitespace.
    pub open spec fn value_view(&self) -> Seq<char> {
        trimmed(self.line@.skip(self.index + 1))
    }

    /// Parse one header line. Succeeds exactly on ASCII input holding a
    /// colon; the name is everything before the first colon.
    pub fn from_str(s: &str) -> (r: Result<Header, Error>)
        ensures
            r is Ok <==> vstd::utf8::is_ascii_chars(s@) && find_from(s@, ':', 0) is Some,
            r matches Ok(h) ==> h.wf() && h.line@ == s@ && Some(h.index as int) == find_from(
                s@,
                ':',
                0,
            ),
            r matches Err(e) && e.kind() == ErrorKind::BadHeader <== r is Err,
    {
        if !s.is_ascii() {
            return Err(Error::BadHeader);
        }
        proof {
            lemma_find_from_props(s@, ':', 0);
        }
        proof {
            assert((58u8 as char) == ':');
        }
        let n = s.unicode_len();
        match find_char_str(s, 0, 58) {
            Some(i) => {
                let h = Header { line: s.to_owned(), index: i };
                proof {
                    assert(h.line@ == s@);
                    match find_from(s@, ':', 0) {
                        Some(k) => {
                            assert(k < n);
                        },
                        None => {
                            assert(false);
                        },
                    }
                    assert(Some(h.index as int) == find_from(s@, ':', 0));
                    assert(h.line@[h.index as int] == ':');
                    assert(h.wf());
                }
                Ok(h)
            },
            None => Err(Error::BadHeader),
        }
    }

    /// The header name.
    pub fn name(&self) -> (r: &str)
        requires
            self.wf(),
        ensures
            r@ == self.name_view(),
            r.is_ascii(),
    {
        self.line.as_str().substring_ascii(0, self.index)
    }

    /// The header value, trimmed.
    pub fn value(&self) -> (r: &str)
        requires
            self.wf(),
        ensures
            r@ == self.value_view(),
            r.is_ascii(),
    {
        let n = self.line.as_str().unicode_len();
        let tail = self.line.as_str().substring_ascii(self.index + 1, n);
        proof {
            assert(tail@ =~= self.line@.skip(self.index + 1));
        }
        str_trim_ascii(tail)
    }

    /// Whether the given name matches this header's name, ignoring case.
    pub fn is_name(&self, other: &str) -> (r: bool)
        requires
            self.wf(),
        ensures
            r == eq_nocase(self.name_view(), other@),
    {
        ascii_eq_nocase(self.name(), other)
    }

    /// Whether the given text matches this header's value, optionally
    /// ignoring case.
    pub fn is_value(&self, other: &str, ignore_case: bool) -> (r: bool)
        requires
            self.wf(),
        ensures
            ignore_case ==> r == eq_nocase(self.value_view(), other@),
            !ignore_case ==> r == (self.value_view() == other@),
    {
        if ignore_case {
            ascii_eq_nocase(self.value(), other)
        } else {
            ascii_str_eq(self.value(), other)
        }
    }

    /// A copy with the same line and colon position.
    pub fn duplicate(&self) -> (r: Header)
        ensures
            r == *self,
    {
        Header { line: self.line.clone(), index: self.index }
    }
}

/// Every header in the list is well formed.
pub open spec fn headers_wf(hs: Seq<Header>) -> bool {
    forall|i: int| 0 <= i < hs.len() ==> (#[trigger] hs[i]).wf()
}

/// First index whose header name matches `name`, ignoring case.
pub open spec fn spec_find_header(hs: Seq<Header>, name: Seq<char>) -> Option<int>
    decreases hs.len(),
{
    if hs.len() == 0 {
        None
    } else if eq_nocase(hs[0].name_view(), name) {
        Some(0)
    } else {
        match spec_find_header(hs.drop_first(), name) {
            Some(i) => Some(i + 1),
            None => None,
        }
    }
}

pub proof fn lemma_find_header_props(hs: Seq<Header>, name: Seq<char>)
    ensures
        match spec_find_header(hs, name) {
            Some(i) => 0 <= i < hs.len() && eq_nocase(hs[i].name_view(), name) && forall|j: int|
                0 <= j < i ==> !eq_nocase(hs[j].name_view(), name),
            None => forall|j: int| 0 <= j < hs.len() ==> !eq_nocase(hs[j].name_view(), name),
        },
    decreases hs.len(),
{
    if hs.len() > 0 && !eq_nocase(hs[0].name_view(), name) {
        lemma_find_header_props(hs.drop_first(), name);
        assert forall|j: int| 1 <= j < hs.len() implies hs.drop_first()[j - 1] == hs[j] by {}
    }
}

/// The value of the first header whose name matches, ignoring case.
pub fn get_header<'b>(headers: &'b Vec<Header>, name: &str) -> (r: Option<&'b str>)
    requires
        headers_wf(headers@),
    ensures
        match spec_find_header(headers@, name@) {
            Some(i) => r matches Some(v) && v@ == headers@[i].value_view() && v.is_ascii(),
            None => r is None,
        },
{
    proof {
        lemma_find_header_props(headers@, name@);
    }
    let n = headers.len();
    let mut i: usize = 0;
    while i < n
        invariant
            headers_wf(headers@),
            n == headers@.len(),
            i <= n,
            forall|j: int| 0 <= j < i ==> !eq_nocase(headers@[j].name_view(), name@),
        decreases n - i,
    {
        if headers[i].is_name(name) {
            proof {
                lemma_find_header_props(headers@, name@);
                match spec_find_header(headers@, name@) {
                    Some(k) => {
                        assert(!(k < i));
                        assert(!(k > i));
                    },
                    None => {
                        assert(false);
                    },
                }
            }
            return Some(headers[i].value());
        }
        i = i + 1;
    }
    proof {
        lemma_find_header_props(headers@, name@);
    }
    None
}

/// Whether some header's name matches, ignoring case.
pub fn has_header(headers: &Vec<Header>, name: &str) -> (r: bool)
    requires
        headers_wf(headers@),
    ensures
        r == (spec_find_header(headers@, name@) is Some),
{
    proof {
        lemma_find_header_props(headers@, name@);
    }
    match get_header(headers, name) {
        Some(_) => true,
        None => false,
    }
}

/// The values of every header whose name matches, ignoring case, in order.
pub fn get_all_headers<'b>(headers: &'b Vec<Header>, name: &str) -> (r: Vec<&'b str>)
    requires
        headers_wf(headers@),
    ensures
        r@.map_values(|v: &str| v@) == headers@.filter(
            |h: Header| eq_nocase(h.name_view(), name@),
        ).map_values(|h: Header| h.value_view()),
{
    let ghost pred = |h: Header| eq_nocase(h.name_view(), name@);
    let n = headers.len();
    let mut out: Vec<&'b str> = Vec::new();
    let mut i: usize = 0;
    while i < n
        invariant
            headers_wf(headers@),
            pred == (|h: Header| eq_nocase(h.name_view(), name@)),
            n == headers@.len(),
            i <= n,
            out@.len() == headers@.take(i as int).filter(pred).len(),
            forall|k: int|
                0 <= k < out@.len() ==> (#[trigger] out@[k])@ == headers@.take(i as int).filter(
                    pred,
                )[k].value_view(),
        decreases n - i,
    {
        proof {
            reveal(Seq::filter);
            assert(headers@.take(i + 1).drop_last() =~= headers@.take(i as int));
            assert(headers@.take(i + 1).last() == headers@[i as int]);
            assert(headers@.take(i + 1).filter(pred) == if pred(headers@[i as int]) {
                headers@.take(i as int).filter(pred).push(headers@[i as int])
            } else {
                headers@.take(i as int).filter(pred)
            });
        }
        if headers[i].is_name(name) {
            out.push(headers[i].value());
        }
        i = i + 1;
    }
    proof {
        assert(headers@.take(n as int) =~= headers@);
        assert(out@.map_values(|v: &str| v@) =~= headers@.filter(pred).map_values(
            |h: Header| h.value_view(),
        ));
    }
    out
}

/// Whether a header name marks a caller-custom header (`x-` prefix, any
/// case). Custom headers stack; others replace earlier ones of the same
/// name.
pub open spec fn is_custom_name(name: Seq<char>) -> bool {
    name.len() >= 2 && lower_char(name[0]) == 'x' && name[1] == '-'
}

/// Add a header to a list. A custom (`x-`-prefixed) header is appended;
/// any other first evicts every header with exactly the same name.
pub fn add_header(headers: &mut Vec<Header>, header: Header)
    requires
        headers_wf(old(headers)@),
        header.wf(),
    ensures
        headers_wf(final(headers)@),
        is_custom_name(header.name_view()) ==> final(headers)@ == old(headers)@.push(header),
        !is_custom_name(header.name_view()) ==> final(headers)@ == old(headers)@.filter(
            |h: Header| h.name_view() != header.name_view(),
        ).push(header),
{
    let name = header.name();
    let custom = if name.unicode_len() >= 2 {
        let b0 = name.get_ascii(0);
        let b1 = name.get_ascii(1);
        let l0: u8 = if 65 <= b0 && b0 <= 90 {
            b0 + 32
        } else {
            b0
        };
        proof {
            let c0 = header.name_view()[0];
            let c1 = header.name_view()[1];
            assert((c0 as u32) < 128 && (c1 as u32) < 128);
            if l0 == 120 {
                vstd::utf8::char_u32_cast(lower_char(c0), lower_char(c0) as u32);
            }
            if c1 == '-' {
            }
            if l0 == 120 && b1 == 45 {
                assert((lower_char(c0) as u32) == 120);
                assert(lower_char(c0) == 'x');
                vstd::utf8::char_u32_cast(c1, c1 as u32);
                assert(c1 == '-');
            }
        }
        l0 == 120 && b1 == 45
    } else {
        false
    };
    proof {
        if custom {
            assert(is_custom_name(header.name_view()));
        } else {
            if is_custom_name(header.name_view()) {
                let c0 = header.name_view()[0];
                let c1 = header.name_view()[1];
                assert((lower_char(c0) as u32) == 120);
                assert((c1 as u32) == 45);
                assert(false);
            }
        }
    }
    if !custom {
        let ghost pred = |h: Header| h.name_view() != header.name_view();
        let ghost orig = headers@;
        let mut kept: Vec<Header> = Vec::new();
        while headers.len() > 0
            invariant
                pred == (|h: Header| h.name_view() != header.name_view()),
                name@ == header.name_view(),
                name.is_ascii(),
                headers_wf(orig),
                headers_wf(kept@),
                header.wf(),
                headers@.len() <= orig.len(),
                headers@ == orig.skip(orig.len() - headers@.len()),
                kept@ == orig.take(orig.len() - headers@.len()).filter(pred),
            decreases headers@.len(),
        {
            let ghost i = orig.len() - headers@.len();
            let h = headers.remove(0);
            proof {
                reveal(Seq::filter);
                assert(orig.take(i + 1).drop_last() =~= orig.take(i));
                assert(orig.take(i + 1).last() == orig[i]);
                assert(h == orig[i]);
                assert(headers@ =~= orig.skip(i + 1));
            }
            if !ascii_str_eq(h.name(), name) {
                kept.push(h);
            }
        }
        proof {
            assert(orig.take(orig.len() as int) =~= orig);
        }
        let mut kept = kept;
        kept.push(header);
        *headers = kept;
    } else {
        headers.push(header);
    }
}

/// Every element of a filtered header list occurs in the original list.
pub proof fn lemma_filter_membership_hdr(s: Seq<Header>, pred: spec_fn(Header) -> bool)
    ensures
        forall|k: int|
            0 <= k < s.filter(pred).len() ==> exists|j: int|
                0 <= j < s.len() && s[j] == #[trigger] s.filter(pred)[k],
    decreases s.len(),
{
    reveal(Seq::filter);
    if s.len() > 0 {
        lemma_filter_membership_hdr(s.drop_last(), pred);
        assert forall|k: int| 0 <= k < s.filter(pred).len() implies exists|j: int|
            0 <= j < s.len() && s[j] == #[trigger] s.filter(pred)[k] by {
            if k < s.drop_last().filter(pred).len() {
                assert(s.filter(pred)[k] == s.drop_last().filter(pred)[k]);
                let j = choose|j: int|
                    0 <= j < s.drop_last().len() && s.drop_last()[j] == s.drop_last().filter(
                        pred,
                    )[k];
                assert(s[j] == s.filter(pred)[k]);
            } else {
                assert(s.filter(pred)[k] == s.last());
                assert(s[s.len() - 1] == s.filter(pred)[k]);
            }
        }
    }
}

} // verus!

