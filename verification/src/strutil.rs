//! ASCII string utilities the protocol needs: case-insensitive comparison,
//! trimming, searching, and decimal numbers, each against a direct
//! mathematical statement.

use vstd::prelude::*;

verus! {

/// ASCII upper-case letters fold to lower case; every other character is
/// left alone.
pub open spec fn lower_char(c: char) -> char {
    if 65 <= (c as u32) && (c as u32) <= 90 {
        (((c as u8) + 32) as char)
    } else {
        c
    }
}

pub open spec fn lower_chars(s: Seq<char>) -> Seq<char> {
    s.map_values(|c: char| lower_char(c))
}

/// Equality up to ASCII case.
pub open spec fn eq_nocase(a: Seq<char>, b: Seq<char>) -> bool {
    lower_chars(a) == lower_chars(b)
}

pub open spec fn is_space_char(c: char) -> bool {
    c == ' ' || c == '\t' || c == '\r' || c == '\n'
}

pub open spec fn trim_front(s: Seq<char>) -> Seq<char>
    decreases s.len(),
{
    if s.len() > 0 && is_space_char(s[0]) {
        trim_front(s.drop_first())
    } else {
        s
    }
}

pub open spec fn trim_back(s: Seq<char>) -> Seq<char>
    decreases s.len(),
{
    if s.len() > 0 && is_space_char(s.last()) {
        trim_back(s.drop_last())
    } else {
        s
    }
}

/// The sequence with leading and trailing ASCII whitespace removed.
pub open spec fn trimmed(s: Seq<char>) -> Seq<char> {
    trim_back(trim_front(s))
}

pub open spec fn is_digit_char(c: char) -> bool {
    48 <= (c as u32) && (c as u32) <= 57
}

pub open spec fn all_digits(s: Seq<char>) -> bool {
    forall|i: int| 0 <= i < s.len() ==> is_digit_char(#[trigger] s[i])
}

pub open spec fn digit_val(c: char) -> nat {
    ((c as u32) - 48) as nat
}

/// The number a sequence of decimal digits denotes.
pub open spec fn dec_value(s: Seq<char>) -> nat
    decreases s.len(),
{
    if s.len() == 0 {
        0
    } else {
        dec_value(s.drop_last()) * 10 + digit_val(s.last())
    }
}

pub open spec fn digit_char(d: nat) -> char {
    (((48 + d) as u8) as char)
}

/// The canonical decimal digit bytes of a number, most significant first.
pub open spec fn dec_bytes(v: nat) -> Seq<u8>
    decreases v,
{
    if v < 10 {
        seq![((48 + v) as u8)]
    } else {
        dec_bytes(v / 10).push(((48 + v % 10) as u8))
    }
}

/// The canonical decimal digits of a number, most significant first.
pub open spec fn dec_chars(v: nat) -> Seq<char> {
    dec_bytes(v).map_values(|b: u8| b as char)
}

/// First position at or after `from` holding `c`.
pub open spec fn find_from(s: Seq<char>, c: char, from: int) -> Option<int>
    decreases s.len() - from,
{
    if from < 0 || from >= s.len() {
        None
    } else if s[from] == c {
        Some(from)
    } else {
        find_from(s, c, from + 1)
    }
}

pub proof fn lemma_find_from_props(s: Seq<char>, c: char, from: int)
    requires
        0 <= from,
    ensures
        match find_from(s, c, from) {
            Some(i) => from <= i < s.len() && s[i] == c && forall|j: int|
                from <= j < i ==> s[j] != c,
            None => forall|j: int| from <= j < s.len() ==> s[j] != c,
        },
    decreases s.len() - from,
{
    if from < s.len() && s[from] != c {
        lemma_find_from_props(s, c, from + 1);
    }
}

/// A character whose scalar value is below 128 is an ASCII character.
proof fn lemma_char_below_128_ascii(c: char)
    requires
        (c as u32) < 128,
    ensures
        '\0' <= c <= '\u{7f}',
{
}

/// Case-insensitively unequal: an ASCII sequence never folds equal to one
/// holding a character beyond ASCII.
proof fn lemma_nocase_needs_ascii(a: Seq<char>, b: Seq<char>)
    requires
        vstd::utf8::is_ascii_chars(a),
        !vstd::utf8::is_ascii_chars(b),
    ensures
        !eq_nocase(a, b),
{
    if a.len() == b.len() {
        if eq_nocase(a, b) {
            assert forall|i: int| 0 <= i < b.len() implies '\0' <= #[trigger] b[i]
                <= '\u{7f}' by {
                let ac = a[i];
                let bc = b[i];
                assert(lower_chars(a)[i] == lower_chars(b)[i]);
                assert(lower_char(ac) == lower_char(bc));
                assert('\0' <= ac <= '\u{7f}');
                assert((ac as u32) < 128);
                assert((lower_char(ac) as u32) < 128);
                if (bc as u32) >= 128 {
                    assert(lower_char(bc) == bc);
                    assert(false);
                }
                assert((bc as u32) < 128);
                lemma_char_below_128_ascii(bc);
            }
            assert(vstd::utf8::is_ascii_chars(b));
            assert(false);
        }
    } else {
        assert(lower_chars(a).len() != lower_chars(b).len());
    }
}

/// Compare two strings ignoring ASCII case.
pub fn ascii_eq_nocase(a: &str, b: &str) -> (r: bool)
    requires
        a.is_ascii(),
    ensures
        r == eq_nocase(a@, b@),
{
    if !b.is_ascii() {
        proof {
            lemma_nocase_needs_ascii(a@, b@);
        }
        return false;
    }
    let na = a.unicode_len();
    let nb = b.unicode_len();
    if na != nb {
        proof {
            assert(lower_chars(a@).len() != lower_chars(b@).len());
        }
        return false;
    }
    let mut i: usize = 0;
    while i < na
        invariant
            a.is_ascii(),
            b.is_ascii(),
            na == a@.len(),
            na == b@.len(),
            i <= na,
            forall|j: int| 0 <= j < i ==> lower_char(a@[j]) == lower_char(b@[j]),
        decreases na - i,
    {
        let ba = a.get_ascii(i);
        let bb = b.get_ascii(i);
        let la: u8 = if 65 <= ba && ba <= 90 {
            ba + 32
        } else {
            ba
        };
        let lb: u8 = if 65 <= bb && bb <= 90 {
            bb + 32
        } else {
            bb
        };
        if la != lb {
            proof {
                assert(lower_char(a@[i as int]) != lower_char(b@[i as int]));
                assert(lower_chars(a@)[i as int] != lower_chars(b@)[i as int]);
            }
            return false;
        }
        proof {
            assert(lower_char(a@[i as int]) == lower_char(b@[i as int]));
        }
        i = i + 1;
    }
    proof {
        assert(lower_chars(a@) =~= lower_chars(b@));
    }
    true
}

/// Exact (case-sensitive) string equality.
pub fn ascii_str_eq(a: &str, b: &str) -> (r: bool)
    requires
        a.is_ascii(),
    ensures
        r == (a@ == b@),
{
    if !b.is_ascii() {
        proof {
            if a@ == b@ {
                assert(vstd::utf8::is_ascii_chars(b@));
            }
        }
        return false;
    }
    let na = a.unicode_len();
    let nb = b.unicode_len();
    if na != nb {
        return false;
    }
    let mut i: usize = 0;
    while i < na
        invariant
            a.is_ascii(),
            b.is_ascii(),
            na == a@.len(),
            na == b@.len(),
            i <= na,
            forall|j: int| 0 <= j < i ==> a@[j] == b@[j],
        decreases na - i,
    {
        let ba = a.get_ascii(i);
        let bb = b.get_ascii(i);
        if ba != bb {
            proof {
                let ca = a@[i as int];
                let cb = b@[i as int];
                assert((ca as u32) < 128 && (cb as u32) < 128);
                assert(ca != cb);
            }
            return false;
        }
        proof {
            let ca = a@[i as int];
            let cb = b@[i as int];
            assert((ca as u32) < 128 && (cb as u32) < 128);
            vstd::utf8::char_u32_cast(ca, ca as u32);
            vstd::utf8::char_u32_cast(cb, cb as u32);
            assert(ca == cb);
        }
        i = i + 1;
    }
    proof {
        assert(a@ =~= b@);
    }
    true
}

/// First position at or after `from` holding the ASCII character `target`.
pub fn find_char_str(s: &str, from: usize, target: u8) -> (r: Option<usize>)
    requires
        s.is_ascii(),
        target < 128,
    ensures
        match find_from(s@, target as char, from as int) {
            Some(i) => r == Some(i as usize),
            None => r is None,
        },
{
    proof {
        lemma_find_from_props(s@, target as char, from as int);
    }
    let n = s.unicode_len();
    let mut i: usize = from;
    if i > n {
        proof {
            assert(find_from(s@, target as char, from as int) is None);
        }
        return None;
    }
    while i < n
        invariant
            s.is_ascii(),
            target < 128,
            n == s@.len(),
            from <= i <= n,
            forall|j: int| from <= j < i ==> s@[j] != (target as char),
        decreases n - i,
    {
        let b = s.get_ascii(i);
        if b == target {
            proof {
                let c = s@[i as int];
                assert((c as u32) < 128);
                vstd::utf8::char_u32_cast(c, c as u32);
                assert(c == (target as char));
                lemma_find_from_props(s@, target as char, from as int);
                match find_from(s@, target as char, from as int) {
                    Some(k) => {
                        assert(!(k < i));
                        assert(!(k > i));
                    },
                    None => {
                        assert(false);
                    },
                }
            }
            return Some(i);
        }
        proof {
            let c = s@[i as int];
            assert((c as u32) < 128);
            if c == (target as char) {
                vstd::utf8::char_u32_cast(c, c as u32);
                assert(false);
            }
        }
        i = i + 1;
    }
    proof {
        lemma_find_from_props(s@, target as char, from as int);
    }
    None
}

/// Strip leading and trailing ASCII whitespace.
pub fn str_trim_ascii(s: &str) -> (r: &str)
    requires
        s.is_ascii(),
    ensures
        r@ == trimmed(s@),
        r.is_ascii(),
{
    let n = s.unicode_len();
    let mut i: usize = 0;
    proof {
        assert(s@.skip(0) =~= s@);
    }
    while i < n
        invariant
            s.is_ascii(),
            n == s@.len(),
            i <= n,
            trim_front(s@) == trim_front(s@.skip(i as int)),
        ensures
            i <= n,
            trim_front(s@) == trim_front(s@.skip(i as int)),
            i == n || !is_space_char(s@[i as int]),
        decreases n - i,
    {
        let b = s.get_ascii(i);
        if !(b == 32 || b == 9 || b == 13 || b == 10) {
            break;
        }
        proof {
            assert(s@.skip(i as int).drop_first() =~= s@.skip(i + 1));
        }
        i = i + 1;
    }
    proof {
        if i < n {
            assert(trim_front(s@.skip(i as int)) == s@.skip(i as int));
        } else {
            assert(s@.skip(i as int) =~= Seq::<char>::empty());
        }
        assert(trim_front(s@) == s@.skip(i as int));
    }
    let mut j: usize = n;
    proof {
        assert(s@.skip(i as int) =~= s@.subrange(i as int, n as int));
    }
    while j > i
        invariant
            s.is_ascii(),
            n == s@.len(),
            i <= j <= n,
            trim_front(s@) == s@.skip(i as int),
            trim_back(s@.skip(i as int)) == trim_back(s@.subrange(i as int, j as int)),
        ensures
            i <= j <= n,
            trim_back(s@.skip(i as int)) == trim_back(s@.subrange(i as int, j as int)),
            j == i || !is_space_char(s@[j - 1]),
        decreases j,
    {
        let b = s.get_ascii(j - 1);
        if !(b == 32 || b == 9 || b == 13 || b == 10) {
            break;
        }
        proof {
            assert(s@.subrange(i as int, j as int).last() == s@[j - 1]);
            assert(s@.subrange(i as int, j as int).drop_last() =~= s@.subrange(
                i as int,
                j - 1,
            ));
        }
        j = j - 1;
    }
    proof {
        if j > i {
            assert(s@.subrange(i as int, j as int).last() == s@[j - 1]);
            assert(trim_back(s@.subrange(i as int, j as int)) == s@.subrange(
                i as int,
                j as int,
            ));
        } else {
            assert(s@.subrange(i as int, j as int) =~= Seq::<char>::empty());
        }
        assert(s@.skip(i as int) =~= s@.subrange(i as int, n as int));
    }
    s.substring_ascii(i, j)
}

/// The value of a prefix never exceeds the value of the whole.
proof fn lemma_dec_prefix_mono(s: Seq<char>, i: int, j: int)
    requires
        0 <= i <= j <= s.len(),
    ensures
        dec_value(s.subrange(0, i)) <= dec_value(s.subrange(0, j)),
    decreases j - i,
{
    if i < j {
        lemma_dec_prefix_mono(s, i, j - 1);
        assert(s.subrange(0, j).drop_last() =~= s.subrange(0, j - 1));
        assert(dec_value(s.subrange(0, j)) == dec_value(s.subrange(0, j - 1)) * 10 + digit_val(
            s.subrange(0, j).last(),
        ));
    }
}

/// Parse an unsigned decimal number. Succeeds exactly on non-empty
/// all-digit input whose value fits in a `u64`.
pub fn parse_u64_ascii(s: &str) -> (r: Option<u64>)
    requires
        s.is_ascii(),
    ensures
        r is Some <==> s@.len() > 0 && all_digits(s@) && dec_value(s@) <= u64::MAX,
        r matches Some(v) ==> v == dec_value(s@),
{
    let n = s.unicode_len();
    if n == 0 {
        return None;
    }
    let mut v: u64 = 0;
    let mut i: usize = 0;
    while i < n
        invariant
            s.is_ascii(),
            n == s@.len(),
            i <= n,
            all_digits(s@.subrange(0, i as int)),
            v == dec_value(s@.subrange(0, i as int)),
        decreases n - i,
    {
        let b = s.get_ascii(i);
        if b < 48 || b > 57 {
            proof {
                assert(!is_digit_char(s@[i as int]));
            }
            return None;
        }
        let d = b - 48;
        proof {
            assert(s@.subrange(0, i + 1).drop_last() =~= s@.subrange(0, i as int));
            assert(s@.subrange(0, i + 1).last() == s@[i as int]);
        }
        if v > (u64::MAX - (d as u64)) / 10 {
            proof {
                assert(dec_value(s@.subrange(0, i + 1)) > u64::MAX);
                lemma_dec_prefix_mono(s@, i + 1, n as int);
                assert(s@.subrange(0, n as int) =~= s@);
            }
            return None;
        }
        v = v * 10 + (d as u64);
        proof {
            assert(all_digits(s@.subrange(0, i + 1)));
        }
        i = i + 1;
    }
    proof {
        assert(s@.subrange(0, n as int) =~= s@);
    }
    Some(v)
}

/// Parse an unsigned decimal number into a `u16`.
pub fn parse_u16_ascii(s: &str) -> (r: Option<u16>)
    requires
        s.is_ascii(),
    ensures
        r is Some <==> s@.len() > 0 && all_digits(s@) && dec_value(s@) <= u16::MAX,
        r matches Some(v) ==> v == dec_value(s@),
{
    match parse_u64_ascii(s) {
        Some(v) => if v <= 65535 {
            Some(v as u16)
        } else {
            None
        },
        None => {
            proof {
                if s@.len() > 0 && all_digits(s@) && dec_value(s@) <= u16::MAX {
                    assert(dec_value(s@) <= u64::MAX);
                }
            }
            None
        },
    }
}

/// Decimal digit bytes are ASCII digits.
pub proof fn lemma_dec_bytes_ascii(v: nat)
    ensures
        forall|i: int| 0 <= i < dec_bytes(v).len() ==> 48 <= #[trigger] dec_bytes(v)[i] < 58,
    decreases v,
{
    if v >= 10 {
        lemma_dec_bytes_ascii(v / 10);
        assert forall|i: int|
            0 <= i < dec_bytes(v).len() implies 48 <= #[trigger] dec_bytes(v)[i] < 58 by {
            if i < dec_bytes(v / 10).len() {
                assert(dec_bytes(v)[i] == dec_bytes(v / 10)[i]);
            } else {
                assert(dec_bytes(v)[i] == ((48 + v % 10) as u8));
            }
        }
    }
}

/// Relies on alloc's `String::from_utf8`: bytes below 128 are valid UTF-8
/// and decode to one character per byte, the character with that code.
#[verifier::external_body]
fn ascii_bytes_to_string(v: &[u8]) -> (r: String)
    requires
        forall|i: int| 0 <= i < v@.len() ==> v@[i] < 128,
    ensures
        r@.len() == v@.len(),
        forall|i: int| 0 <= i < v@.len() ==> r@[i] == (#[trigger] v@[i] as char),
{
    String::from_utf8(v.to_vec()).unwrap_or_default()
}

/// Append the decimal digits of `v`, most significant first.
fn push_dec_bytes(v: u64, out: &mut Vec<u8>)
    ensures
        final(out)@ == old(out)@ + dec_bytes(v as nat),
    decreases v,
{
    if v < 10 {
        out.push(48 + (v as u8));
        proof {
            assert(final(out)@ =~= old(out)@ + dec_bytes(v as nat));
        }
    } else {
        push_dec_bytes(v / 10, out);
        out.push(48 + ((v % 10) as u8));
        proof {
            assert(final(out)@ =~= old(out)@ + dec_bytes(v as nat));
        }
    }
}

/// The canonical decimal rendering of `v`.
pub fn u64_to_string(v: u64) -> (r: String)
    ensures
        r@ == dec_chars(v as nat),
{
    let mut bytes: Vec<u8> = Vec::new();
    push_dec_bytes(v, &mut bytes);
    proof {
        lemma_dec_bytes_ascii(v as nat);
        assert(bytes@ =~= dec_bytes(v as nat));
    }
    let r = ascii_bytes_to_string(bytes.as_slice());
    proof {
        assert(r@ =~= dec_chars(v as nat));
    }
    r
}

/// A `String` holding exactly the given ASCII bytes, one character each.
pub fn bytes_to_ascii_string(v: &[u8]) -> (r: Option<String>)
    ensures
        r is Some <==> (forall|i: int| 0 <= i < v@.len() ==> v@[i] < 128),
        r matches Some(s) ==> s@.len() == v@.len() && (forall|i: int|
            0 <= i < v@.len() ==> s@[i] == (#[trigger] v@[i] as char)) && s.is_ascii(),
{
    let mut i: usize = 0;
    let n = v.len();
    while i < n
        invariant
            n == v@.len(),
            i <= n,
            forall|j: int| 0 <= j < i ==> v@[j] < 128,
        decreases n - i,
    {
        if v[i] >= 128 {
            return None;
        }
        i = i + 1;
    }
    let s = ascii_bytes_to_string(v);
    proof {
        assert forall|k: int| 0 <= k < s@.len() implies '\0' <= #[trigger] s@[k]
            <= '\u{7f}' by {
            assert(s@[k] == (v@[k] as char));
            assert(v@[k] < 128);
        }
        assert(vstd::utf8::is_ascii_chars(s@));
    }
    Some(s)
}

/// The decimal digits of a number are non-empty ASCII digit characters.
pub proof fn lemma_dec_chars_digits(v: nat)
    ensures
        dec_chars(v).len() > 0,
        forall|i: int|
            0 <= i < dec_chars(v).len() ==> 48 <= (#[trigger] dec_chars(v)[i] as u32) < 58,
        vstd::utf8::is_ascii_chars(dec_chars(v)),
{
    lemma_dec_bytes_ascii(v);
    assert forall|i: int|
        0 <= i < dec_chars(v).len() implies 48 <= (#[trigger] dec_chars(v)[i] as u32) < 58 by {
        assert(dec_chars(v)[i] == (dec_bytes(v)[i] as char));
        assert(48 <= dec_bytes(v)[i] < 58);
    }
    assert forall|i: int|
        0 <= i < dec_chars(v).len() implies '\0' <= #[trigger] dec_chars(v)[i] <= '\u{7f}' by {
        assert(48 <= (dec_chars(v)[i] as u32) < 58);
    }
}

/// A non-empty sequence of ASCII digits carries no surrounding
/// whitespace.
pub proof fn lemma_digits_untrimmed(s: Seq<char>)
    requires
        s.len() > 0,
        forall|i: int| 0 <= i < s.len() ==> 48 <= (#[trigger] s[i] as u32) < 58,
    ensures
        trimmed(s) == s,
{
    assert(!is_space_char(s[0])) by {
        assert(48 <= (s[0] as u32) < 58);
        if s[0] == ' ' {
            assert((s[0] as u32) == 32);
        }
        if s[0] == '\t' {
            assert((s[0] as u32) == 9);
        }
        if s[0] == '\r' {
            assert((s[0] as u32) == 13);
        }
        if s[0] == '\n' {
            assert((s[0] as u32) == 10);
        }
    }
    assert(!is_space_char(s.last())) by {
        assert(48 <= (s.last() as u32) < 58);
        if s.last() == ' ' {
            assert((s.last() as u32) == 32);
        }
        if s.last() == '\t' {
            assert((s.last() as u32) == 9);
        }
        if s.last() == '\r' {
            assert((s.last() as u32) == 13);
        }
        if s.last() == '\n' {
            assert((s.last() as u32) == 10);
        }
    }
    assert(trim_front(s) == s);
    assert(trim_back(s) == s);
}

/// `needle` occurs in `hay` starting at `i`.
pub open spec fn occurs_at(hay: Seq<char>, needle: Seq<char>, i: int) -> bool {
    0 <= i && i + needle.len() <= hay.len() && hay.subrange(i, i + needle.len()) == needle
}

/// `needle` occurs somewhere in `hay`.
pub open spec fn contains_seq(hay: Seq<char>, needle: Seq<char>) -> bool {
    exists|i: int| occurs_at(hay, needle, i)
}

/// Whether `hay` starts with `needle` at position `i`.
fn matches_at(hay: &str, needle: &str, i: usize) -> (r: bool)
    requires
        hay.is_ascii(),
        needle.is_ascii(),
        i + needle@.len() <= hay@.len(),
    ensures
        r == occurs_at(hay@, needle@, i as int),
{
    let hl = hay.unicode_len();
    let m = needle.unicode_len();
    let mut k: usize = 0;
    while k < m
        invariant
            hl == hay@.len(),
            i + m <= hl,
            hay.is_ascii(),
            needle.is_ascii(),
            m == needle@.len(),
            i + m <= hay@.len(),
            k <= m,
            forall|j: int| 0 <= j < k ==> hay@[i + j] == needle@[j],
        decreases m - k,
    {
        let hb = hay.get_ascii(i + k);
        let nb = needle.get_ascii(k);
        if hb != nb {
            proof {
                assert(hay@[i + k] != needle@[k as int]);
                if occurs_at(hay@, needle@, i as int) {
                    assert(hay@.subrange(i as int, i + needle@.len())[k as int]
                        == needle@[k as int]);
                }
            }
            return false;
        }
        proof {
            let hc = hay@[i + k];
            let nc = needle@[k as int];
            assert((hc as u32) < 128 && (nc as u32) < 128);
            vstd::utf8::char_u32_cast(hc, hc as u32);
            vstd::utf8::char_u32_cast(nc, nc as u32);
            assert(hc == nc);
        }
        k = k + 1;
    }
    proof {
        assert(hay@.subrange(i as int, i + needle@.len()) =~= needle@);
    }
    true
}

/// Whether `needle` occurs anywhere in `hay`.
pub fn str_contains(hay: &str, needle: &str) -> (r: bool)
    requires
        hay.is_ascii(),
        needle.is_ascii(),
    ensures
        r == contains_seq(hay@, needle@),
{
    let nh = hay.unicode_len();
    let nn = needle.unicode_len();
    if nn > nh {
        proof {
            if contains_seq(hay@, needle@) {
                let i = choose|i: int| occurs_at(hay@, needle@, i);
                assert(false);
            }
        }
        return false;
    }
    let mut i: usize = 0;
    while i <= nh - nn
        invariant
            hay.is_ascii(),
            needle.is_ascii(),
            nh == hay@.len(),
            nn == needle@.len(),
            nn <= nh,
            i <= nh - nn + 1,
            forall|j: int| 0 <= j < i ==> !occurs_at(hay@, needle@, j),
        decreases nh - nn - i + 1,
    {
        if matches_at(hay, needle, i) {
            return true;
        }
        proof {
            if nn == 0 {
                assert(hay@.subrange(i as int, i as int) =~= needle@);
                assert(occurs_at(hay@, needle@, i as int));
                assert(false);
            }
        }
        i = i + 1;
    }
    proof {
        if contains_seq(hay@, needle@) {
            let j = choose|j: int| occurs_at(hay@, needle@, j);
            assert(j < i);
            assert(false);
        }
    }
    false
}

/// Whether `hay` starts with `needle`.
pub fn str_starts_with(hay: &str, needle: &str) -> (r: bool)
    requires
        hay.is_ascii(),
        needle.is_ascii(),
    ensures
        r == (needle@.len() <= hay@.len() && hay@.take(needle@.len() as int) == needle@),
{
    let nh = hay.unicode_len();
    let nn = needle.unicode_len();
    if nn > nh {
        return false;
    }
    let r = matches_at(hay, needle, 0);
    proof {
        assert(hay@.subrange(0, needle@.len() as int) == hay@.take(needle@.len() as int));
    }
    r
}

/// The string lowered with ASCII case folding.
pub fn ascii_to_lower(s: &str) -> (r: String)
    requires
        s.is_ascii(),
    ensures
        r@ == lower_chars(s@),
        r.is_ascii(),
{
    let n = s.unicode_len();
    let mut bytes: Vec<u8> = Vec::new();
    let mut i: usize = 0;
    while i < n
        invariant
            s.is_ascii(),
            n == s@.len(),
            i <= n,
            bytes@.len() == i,
            forall|j: int|
                0 <= j < i ==> #[trigger] bytes@[j] < 128 && bytes@[j] == (lower_char(s@[j])
                    as u32 as u8),
        decreases n - i,
    {
        let b = s.get_ascii(i);
        let lb: u8 = if 65 <= b && b <= 90 {
            b + 32
        } else {
            b
        };
        bytes.push(lb);
        proof {
            let c = s@[i as int];
            assert((c as u32) < 128);
            assert(lb == (lower_char(c) as u32 as u8));
        }
        i = i + 1;
    }
    let r = ascii_bytes_to_string(bytes.as_slice());
    proof {
        assert forall|j: int| 0 <= j < r@.len() implies r@[j] == lower_chars(s@)[j] by {
            let c = s@[j];
            let lc = lower_char(c);
            assert((lc as u32) < 128);
            assert(r@[j] == (bytes@[j] as char));
            assert(bytes@[j] == (lc as u32 as u8));
            vstd::utf8::char_u32_cast(lc, lc as u32);
        }
        assert(r@ =~= lower_chars(s@));
        assert forall|j: int| 0 <= j < r@.len() implies '\0' <= #[trigger] r@[j]
            <= '\u{7f}' by {
            assert(r@[j] == (bytes@[j] as char));
            assert(bytes@[j] < 128);
        }
    }
    r
}

/// Reading back the canonical decimal digits gives the number itself.
pub proof fn lemma_dec_value_roundtrip(v: nat)
    ensures
        dec_value(dec_chars(v)) == v,
    decreases v,
{
    lemma_dec_bytes_ascii(v);
    if v < 10 {
        assert(dec_bytes(v) == seq![((48 + v) as u8)]);
        assert(dec_chars(v) =~= seq![(((48 + v) as u8) as char)]);
        assert(dec_chars(v).drop_last() =~= Seq::<char>::empty());
        assert(dec_value(Seq::<char>::empty()) == 0);
        assert(dec_chars(v).last() == (((48 + v) as u8) as char));
        assert(digit_val((((48 + v) as u8) as char)) == v);
        assert(dec_value(dec_chars(v)) == dec_value(dec_chars(v).drop_last()) * 10 + digit_val(
            dec_chars(v).last(),
        ));
    } else {
        lemma_dec_value_roundtrip(v / 10);
        let b = ((48 + v % 10) as u8);
        assert(dec_bytes(v) == dec_bytes(v / 10).push(b));
        assert(dec_chars(v).drop_last() =~= dec_chars(v / 10));
        assert(dec_chars(v).last() == (b as char));
        assert(digit_val((b as char)) == v % 10);
        assert(dec_value(dec_chars(v)) == dec_value(dec_chars(v / 10)) * 10 + (v % 10));
        assert((v / 10) * 10 + (v % 10) == v);
    }
}

/// A number of at least 100 has at least three digits.
pub proof fn lemma_dec_chars_len3(v: nat)
    requires
        v >= 100,
    ensures
        dec_chars(v).len() >= 3,
{
    assert(v / 10 >= 10);
    assert(v / 10 / 10 >= 1);
    assert(dec_bytes(v).len() == dec_bytes(v / 10).len() + 1);
    assert(dec_bytes(v / 10).len() == dec_bytes(v / 10 / 10).len() + 1);
    assert(dec_bytes(v / 10 / 10).len() >= 1) by {
        if v / 10 / 10 >= 10 {
            assert(dec_bytes(v / 10 / 10).len() == dec_bytes(v / 10 / 10 / 10).len() + 1);
            assert(dec_bytes(v / 10 / 10 / 10).len() >= 0);
        }
    }
}

} // verus!



