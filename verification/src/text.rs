//! Character-sequence utilities shared by every module: conversions between
//! `&str`/`String` and `Vec<char>`, Unicode whitespace, trimming, searching
//! and the UTF-8 byte length that `str::len` reports.

use vstd::prelude::*;
use vstd::string::StringSliceAdditionalSpecFns;

verus! {

// ─────────────────────────────────────────────────────────────
// Conversions
// ─────────────────────────────────────────────────────────────

/// Converts a string slice into its characters.
pub fn chars_of(s: &str) -> (v: Vec<char>)
    ensures
        v@ == s@,
{
    let mut v: Vec<char> = Vec::new();
    for c in it: s.chars()
        invariant
            v@ == it.seq().take(it.index() as int),
    {
        v.push(c);
        assert(it.seq().take(it.index() as int + 1) =~= v@);
    }
    v
}

/// `String::push`: appends one character to the end of the string.
#[verifier::external_body]
pub(crate) fn string_push(s: &mut String, c: char)
    ensures
        final(s)@ == old(s)@.push(c),
{
    s.push(c);
}

/// Builds a `String` from a character sequence.
pub fn string_of(v: &[char]) -> (s: String)
    ensures
        s@ == v@,
{
    let mut s = String::new();
    let mut i: usize = 0;
    while i < v.len()
        invariant
            i <= v@.len(),
            s@ == v@.take(i as int),
        decreases v@.len() - i,
    {
        string_push(&mut s, v[i]);
        assert(v@.take(i as int + 1) =~= v@.take(i as int).push(v@[i as int]));
        i = i + 1;
    }
    assert(v@.take(v@.len() as int) =~= v@);
    s
}

/// Appends a character sequence to a `String`.
pub fn push_chars(s: &mut String, v: &[char])
    ensures
        final(s)@ == old(s)@ + v@,
{
    let mut i: usize = 0;
    while i < v.len()
        invariant
            i <= v@.len(),
            s@ == old(s)@ + v@.take(i as int),
        decreases v@.len() - i,
    {
        string_push(s, v[i]);
        assert(v@.take(i as int + 1) =~= v@.take(i as int).push(v@[i as int]));
        i = i + 1;
    }
    assert(v@.take(v@.len() as int) =~= v@);
}

/// Appends one sequence to a vector.
pub fn extend_chars(out: &mut Vec<char>, v: &[char])
    ensures
        final(out)@ == old(out)@ + v@,
{
    let mut i: usize = 0;
    while i < v.len()
        invariant
            i <= v@.len(),
            out@ == old(out)@ + v@.take(i as int),
        decreases v@.len() - i,
    {
        out.push(v[i]);
        assert(v@.take(i as int + 1) =~= v@.take(i as int).push(v@[i as int]));
        i = i + 1;
    }
    assert(v@.take(v@.len() as int) =~= v@);
}

/// Appends the characters of a string slice to a vector.
pub fn extend_str(out: &mut Vec<char>, s: &str)
    ensures
        final(out)@ == old(out)@ + s@,
{
    let v = chars_of(s);
    extend_chars(out, &v);
}

/// Copies `v[from..to]`.
pub fn copy_range(v: &[char], from: usize, to: usize) -> (r: Vec<char>)
    requires
        from <= to <= v@.len(),
    ensures
        r@ == v@.subrange(from as int, to as int),
{
    let mut r: Vec<char> = Vec::new();
    let mut i = from;
    while i < to
        invariant
            from <= i <= to <= v@.len(),
            r@ == v@.subrange(from as int, i as int),
        decreases to - i,
    {
        r.push(v[i]);
        assert(v@.subrange(from as int, i as int + 1) =~= v@.subrange(from as int, i as int).push(
            v@[i as int],
        ));
        i = i + 1;
    }
    r
}

/// Character-wise equality.
pub fn chars_eq(a: &[char], b: &[char]) -> (r: bool)
    ensures
        r == (a@ == b@),
{
    if a.len() != b.len() {
        return false;
    }
    let mut i: usize = 0;
    while i < a.len()
        invariant
            a@.len() == b@.len(),
            i <= a@.len(),
            forall|k: int| 0 <= k < i ==> a@[k] == b@[k],
        decreases a@.len() - i,
    {
        if a[i] != b[i] {
            return false;
        }
        i = i + 1;
    }
    assert(a@ =~= b@);
    true
}

/// Equality between a character vector and a string slice.
pub fn chars_eq_str(a: &[char], b: &str) -> (r: bool)
    ensures
        r == (a@ == b@),
{
    let bv = chars_of(b);
    chars_eq(a, &bv)
}

// ─────────────────────────────────────────────────────────────
// Character classes
// ─────────────────────────────────────────────────────────────

/// Unicode `White_Space` (the set `char::is_whitespace` recognises).
pub open spec fn is_ws(c: char) -> bool {
    ||| ('\u{9}' <= c && c <= '\u{d}')
    ||| c == ' '
    ||| c == '\u{85}'
    ||| c == '\u{a0}'
    ||| c == '\u{1680}'
    ||| ('\u{2000}' <= c && c <= '\u{200a}')
    ||| c == '\u{2028}'
    ||| c == '\u{2029}'
    ||| c == '\u{202f}'
    ||| c == '\u{205f}'
    ||| c == '\u{3000}'
}

/// Whether `c` is Unicode whitespace.
pub fn is_whitespace(c: char) -> (b: bool)
    ensures
        b == is_ws(c),
{
    ('\u{9}' <= c && c <= '\u{d}') || c == ' ' || c == '\u{85}' || c == '\u{a0}' || c
        == '\u{1680}' || ('\u{2000}' <= c && c <= '\u{200a}') || c == '\u{2028}' || c
        == '\u{2029}' || c == '\u{202f}' || c == '\u{205f}' || c == '\u{3000}'
}

pub open spec fn is_ascii_digit_spec(c: char) -> bool {
    '0' <= c && c <= '9'
}

pub open spec fn is_ascii_upper_spec(c: char) -> bool {
    'A' <= c && c <= 'Z'
}

pub open spec fn is_ascii_lower_spec(c: char) -> bool {
    'a' <= c && c <= 'z'
}

pub open spec fn is_ascii_alpha_spec(c: char) -> bool {
    is_ascii_upper_spec(c) || is_ascii_lower_spec(c)
}

pub open spec fn is_ascii_alnum_spec(c: char) -> bool {
    is_ascii_alpha_spec(c) || is_ascii_digit_spec(c)
}

/// ASCII punctuation: the four ranges of `char::is_ascii_punctuation`.
pub open spec fn is_ascii_punct_spec(c: char) -> bool {
    ||| ('!' <= c && c <= '/')
    ||| (':' <= c && c <= '@')
    ||| ('[' <= c && c <= '`')
    ||| ('{' <= c && c <= '~')
}

/// ASCII whitespace as `u8::is_ascii_whitespace` defines it.
pub open spec fn is_ascii_ws_byte(b: u8) -> bool {
    b == 0x20 || b == 0x09 || b == 0x0a || b == 0x0c || b == 0x0d
}

pub fn is_ascii_digit(c: char) -> (b: bool)
    ensures
        b == is_ascii_digit_spec(c),
{
    '0' <= c && c <= '9'
}

pub fn is_ascii_alphabetic(c: char) -> (b: bool)
    ensures
        b == is_ascii_alpha_spec(c),
{
    ('A' <= c && c <= 'Z') || ('a' <= c && c <= 'z')
}

pub fn is_ascii_alphanumeric(c: char) -> (b: bool)
    ensures
        b == is_ascii_alnum_spec(c),
{
    ('A' <= c && c <= 'Z') || ('a' <= c && c <= 'z') || ('0' <= c && c <= '9')
}

pub fn is_ascii_punctuation(c: char) -> (b: bool)
    ensures
        b == is_ascii_punct_spec(c),
{
    ('!' <= c && c <= '/') || (':' <= c && c <= '@') || ('[' <= c && c <= '`') || ('{' <= c && c
        <= '~')
}

/// What `char::is_alphabetic` (Unicode `Alphabetic` property) returns for `c`.
pub uninterp spec fn unicode_alphabetic(c: char) -> bool;

/// `char::is_alphabetic`: the result is the Unicode `Alphabetic` property of
/// `c`, named here rather than spelled out (the property table is large).
#[verifier::external_body]
pub(crate) fn char_is_alphabetic(c: char) -> (b: bool)
    ensures
        b == unicode_alphabetic(c),
{
    c.is_alphabetic()
}

/// What `str::to_lowercase` returns for a string.
pub uninterp spec fn unicode_lowercase(s: Seq<char>) -> Seq<char>;

/// `str::to_lowercase`: the result is the Unicode lowercase mapping of the
/// whole string, named rather than spelled out (the mapping tables are large).
#[verifier::external_body]
pub(crate) fn to_lowercase(s: &str) -> (r: String)
    ensures
        r@ == unicode_lowercase(s@),
{
    s.to_lowercase()
}

// ─────────────────────────────────────────────────────────────
// Trimming
// ─────────────────────────────────────────────────────────────

/// `s` without its leading Unicode whitespace.
pub open spec fn trim_start(s: Seq<char>) -> Seq<char>
    decreases s.len(),
{
    if s.len() > 0 && is_ws(s[0]) {
        trim_start(s.drop_first())
    } else {
        s
    }
}

/// `s` without its trailing Unicode whitespace.
pub open spec fn trim_end(s: Seq<char>) -> Seq<char>
    decreases s.len(),
{
    if s.len() > 0 && is_ws(s.last()) {
        trim_end(s.drop_last())
    } else {
        s
    }
}

/// `str::trim`.
pub open spec fn trim(s: Seq<char>) -> Seq<char> {
    trim_end(trim_start(s))
}

/// Whether the string is empty after trimming.
pub open spec fn is_blank(s: Seq<char>) -> bool {
    forall|i: int| 0 <= i < s.len() ==> is_ws(#[trigger] s[i])
}

pub proof fn lemma_trim_start_skip(s: Seq<char>, i: int)
    requires
        0 <= i <= s.len(),
        forall|k: int| 0 <= k < i ==> is_ws(#[trigger] s[k]),
    ensures
        trim_start(s) == trim_start(s.skip(i)),
    decreases i,
{
    if i > 0 {
        assert(s.skip(1) =~= s.drop_first());
        lemma_trim_start_skip(s.drop_first(), i - 1);
        assert(s.drop_first().skip(i - 1) =~= s.skip(i));
    } else {
        assert(s.skip(0) =~= s);
    }
}

pub proof fn lemma_trim_end_take(s: Seq<char>, j: int)
    requires
        0 <= j <= s.len(),
        forall|k: int| j <= k < s.len() ==> is_ws(#[trigger] s[k]),
    ensures
        trim_end(s) == trim_end(s.take(j)),
    decreases s.len() - j,
{
    if j < s.len() {
        assert(s.take(s.len() - 1) =~= s.drop_last());
        lemma_trim_end_take(s.drop_last(), j);
        assert(s.drop_last().take(j) =~= s.take(j));
    } else {
        assert(s.take(j) =~= s);
    }
}

pub proof fn lemma_blank_trim(s: Seq<char>)
    ensures
        is_blank(s) <==> trim(s).len() == 0,
        is_blank(s) <==> trim_start(s).len() == 0,
    decreases s.len(),
{
    if s.len() > 0 {
        lemma_blank_trim(s.drop_first());
        if !is_ws(s[0]) {
            lemma_trim_end_nonempty(s);
            assert(!is_blank(s));
        } else {
            assert(is_blank(s) == is_blank(s.drop_first())) by {
                if is_blank(s.drop_first()) {
                    assert forall|i: int| 0 <= i < s.len() implies is_ws(#[trigger] s[i]) by {
                        if i > 0 {
                            assert(s[i] == s.drop_first()[i - 1]);
                        }
                    }
                }
                if is_blank(s) {
                    assert forall|i: int| 0 <= i < s.drop_first().len() implies is_ws(
                        #[trigger] s.drop_first()[i],
                    ) by {
                        assert(s.drop_first()[i] == s[i + 1]);
                    }
                }
            }
        }
    }
}

proof fn lemma_trim_end_nonempty(s: Seq<char>)
    requires
        s.len() > 0,
        !is_ws(s[0]),
    ensures
        trim_end(s).len() > 0,
    decreases s.len(),
{
    if is_ws(s.last()) {
        lemma_trim_end_nonempty(s.drop_last());
    }
}

/// The bounds `[a, b)` of `v` that `trim` keeps.
pub fn trim_bounds(v: &[char]) -> (r: (usize, usize))
    ensures
        r.0 <= r.1 <= v@.len(),
        v@.subrange(r.0 as int, r.1 as int) == trim(v@),
        trim_start(v@) == v@.skip(r.0 as int),
{
    let mut a: usize = 0;
    while a < v.len() && is_whitespace(v[a])
        invariant
            a <= v@.len(),
            forall|k: int| 0 <= k < a ==> is_ws(#[trigger] v@[k]),
        decreases v@.len() - a,
    {
        a = a + 1;
    }
    proof {
        lemma_trim_start_skip(v@, a as int);
        if a < v@.len() {
            assert(!is_ws(v@.skip(a as int)[0]));
        }
        assert(trim_start(v@.skip(a as int)) == v@.skip(a as int));
    }
    let mut b: usize = v.len();
    while b > a && is_whitespace(v[b - 1])
        invariant
            a <= b <= v@.len(),
            forall|k: int| b <= k < v@.len() ==> is_ws(#[trigger] v@[k]),
        decreases b,
    {
        b = b - 1;
    }
    proof {
        let t = v@.skip(a as int);
        lemma_trim_end_take(t, b - a);
        assert(t.take(b - a) =~= v@.subrange(a as int, b as int));
        let u = v@.subrange(a as int, b as int);
        if u.len() > 0 {
            assert(u.last() == v@[b - 1]);
        }
    }
    (a, b)
}

/// `str::trim` on characters.
pub fn trim_chars(v: &[char]) -> (r: Vec<char>)
    ensures
        r@ == trim(v@),
{
    let (a, b) = trim_bounds(v);
    copy_range(v, a, b)
}

/// Whether the string is empty after trimming.
pub fn is_blank_chars(v: &[char]) -> (r: bool)
    ensures
        r == is_blank(v@),
{
    let mut i: usize = 0;
    while i < v.len()
        invariant
            i <= v@.len(),
            forall|k: int| 0 <= k < i ==> is_ws(#[trigger] v@[k]),
        decreases v@.len() - i,
    {
        if !is_whitespace(v[i]) {
            return false;
        }
        i = i + 1;
    }
    true
}

/// Whether the string slice is empty after trimming.
pub fn is_blank_str(s: &str) -> (r: bool)
    ensures
        r == is_blank(s@),
{
    let v = chars_of(s);
    is_blank_chars(&v)
}

// ─────────────────────────────────────────────────────────────
// Searching
// ─────────────────────────────────────────────────────────────

/// `p` occurs in `s` starting at `i`.
pub open spec fn occurs_at(s: Seq<char>, p: Seq<char>, i: int) -> bool {
    0 <= i && i + p.len() <= s.len() && s.subrange(i, i + p.len()) == p
}

/// `str::contains` for a pattern string.
pub open spec fn contains_seq(s: Seq<char>, p: Seq<char>) -> bool {
    exists|i: int| occurs_at(s, p, i)
}

pub open spec fn starts_with(s: Seq<char>, p: Seq<char>) -> bool {
    p.len() <= s.len() && s.take(p.len() as int) == p
}

pub open spec fn ends_with(s: Seq<char>, p: Seq<char>) -> bool {
    p.len() <= s.len() && s.skip(s.len() - p.len()) == p
}

/// Whether `p` occurs in `s` at `i`.
pub fn matches_at(s: &[char], p: &[char], i: usize) -> (r: bool)
    ensures
        r == occurs_at(s@, p@, i as int),
{
    if i > s.len() || p.len() > s.len() - i {
        return false;
    }
    let end = i + p.len();
    let mut k: usize = 0;
    while k < p.len()
        invariant
            i + p@.len() == end <= s@.len(),
            k <= p@.len(),
            forall|j: int| 0 <= j < k ==> s@[i + j] == p@[j],
        decreases p@.len() - k,
    {
        if s[i + k] != p[k] {
            assert(s@.subrange(i as int, i + p@.len())[k as int] != p@[k as int]);
            return false;
        }
        k = k + 1;
    }
    assert(s@.subrange(i as int, i + p@.len()) =~= p@);
    true
}

/// First position `>= from` at which `p` occurs.
pub fn find_from(s: &[char], p: &[char], from: usize) -> (r: Option<usize>)
    ensures
        match r {
            Some(i) => from <= i && occurs_at(s@, p@, i as int) && forall|j: int|
                from <= j < i ==> !occurs_at(s@, p@, j),
            None => forall|j: int| from <= j ==> !occurs_at(s@, p@, j),
        },
{
    let mut i = from;
    while i < s.len() && (p.len() <= s.len() - i)
        invariant
            from <= i,
            forall|j: int| from <= j < i ==> !occurs_at(s@, p@, j),
        decreases s@.len() - i,
    {
        if matches_at(s, p, i) {
            return Some(i);
        }
        i = i + 1;
    }
    if i <= s.len() && matches_at(s, p, i) {
        return Some(i);
    }
    None
}

/// Whether `p` occurs anywhere in `s`.
pub fn contains_chars(s: &[char], p: &[char]) -> (r: bool)
    ensures
        r == contains_seq(s@, p@),
{
    match find_from(s, p, 0) {
        Some(i) => true,
        None => false,
    }
}

/// First index `>= from` holding `c`.
pub fn find_char(s: &[char], c: char, from: usize) -> (r: Option<usize>)
    ensures
        match r {
            Some(i) => from <= i < s@.len() && s@[i as int] == c && forall|j: int|
                from <= j < i ==> s@[j] != c,
            None => forall|j: int| from <= j < s@.len() ==> s@[j] != c,
        },
{
    let mut i = from;
    while i < s.len()
        invariant
            from <= i,
            forall|j: int| from <= j < i && j < s@.len() ==> s@[j] != c,
        decreases s@.len() - i,
    {
        if s[i] == c {
            return Some(i);
        }
        i = i + 1;
    }
    None
}

pub fn starts_with_chars(s: &[char], p: &[char]) -> (r: bool)
    ensures
        r == starts_with(s@, p@),
{
    let r = matches_at(s, p, 0);
    proof {
        if p@.len() <= s@.len() {
            assert(s@.subrange(0, p@.len() as int) =~= s@.take(p@.len() as int));
        }
    }
    r
}

pub fn ends_with_chars(s: &[char], p: &[char]) -> (r: bool)
    ensures
        r == ends_with(s@, p@),
{
    if p.len() > s.len() {
        return false;
    }
    let r = matches_at(s, p, s.len() - p.len());
    proof {
        assert(s@.subrange(s@.len() - p@.len(), s@.len() as int) =~= s@.skip(
            s@.len() - p@.len(),
        ));
    }
    r
}

// ─────────────────────────────────────────────────────────────
// UTF-8 byte lengths (what `str::len` reports)
// ─────────────────────────────────────────────────────────────

/// Number of bytes in the UTF-8 encoding of `c`.
pub open spec fn char_utf8_len(c: char) -> nat {
    if (c as u32) < 0x80 {
        1
    } else if (c as u32) < 0x800 {
        2
    } else if (c as u32) < 0x10000 {
        3
    } else {
        4
    }
}

/// Number of bytes in the UTF-8 encoding of `s`.
pub open spec fn utf8_len(s: Seq<char>) -> nat
    decreases s.len(),
{
    if s.len() == 0 {
        0
    } else {
        utf8_len(s.drop_last()) + char_utf8_len(s.last())
    }
}

pub fn char_len_utf8(c: char) -> (n: usize)
    ensures
        n == char_utf8_len(c),
{
    let u = c as u32;
    if u < 0x80 {
        1
    } else if u < 0x800 {
        2
    } else if u < 0x10000 {
        3
    } else {
        4
    }
}

pub proof fn lemma_utf8_len_push(s: Seq<char>, c: char)
    ensures
        utf8_len(s.push(c)) == utf8_len(s) + char_utf8_len(c),
{
    assert(s.push(c).drop_last() =~= s);
}

pub proof fn lemma_utf8_len_bound(s: Seq<char>)
    ensures
        s.len() <= utf8_len(s) <= 4 * s.len(),
    decreases s.len(),
{
    if s.len() > 0 {
        lemma_utf8_len_bound(s.drop_last());
    }
}

/// UTF-8 byte length of a character sequence (`str::len` of the same text).
pub fn utf8_len_of(v: &[char]) -> (n: usize)
    requires
        utf8_len(v@) <= usize::MAX,
    ensures
        n == utf8_len(v@),
{
    let mut n: usize = 0;
    let mut i: usize = 0;
    while i < v.len()
        invariant
            i <= v@.len(),
            utf8_len(v@) <= usize::MAX,
            n == utf8_len(v@.take(i as int)),
        decreases v@.len() - i,
    {
        proof {
            lemma_utf8_len_push(v@.take(i as int), v@[i as int]);
            assert(v@.take(i as int + 1) =~= v@.take(i as int).push(v@[i as int]));
            lemma_utf8_len_prefix(v@, i + 1);
        }
        n = n + char_len_utf8(v[i]);
        i = i + 1;
    }
    assert(v@.take(v@.len() as int) =~= v@);
    n
}

/// A prefix is never longer in bytes than the whole.
pub proof fn lemma_utf8_len_prefix(s: Seq<char>, k: int)
    requires
        0 <= k <= s.len(),
    ensures
        utf8_len(s.take(k)) <= utf8_len(s),
    decreases s.len() - k,
{
    if k < s.len() {
        lemma_utf8_len_prefix(s, k + 1);
        lemma_utf8_len_push(s.take(k), s[k]);
        assert(s.take(k + 1) =~= s.take(k).push(s[k]));
    } else {
        assert(s.take(k) =~= s);
    }
}

pub proof fn lemma_utf8_len_cons(c: char, s: Seq<char>)
    ensures
        utf8_len(seq![c] + s) == char_utf8_len(c) + utf8_len(s),
    decreases s.len(),
{
    let x = seq![c] + s;
    assert(x.len() == s.len() + 1);
    assert(utf8_len(x) == utf8_len(x.drop_last()) + char_utf8_len(x.last()));
    if s.len() == 0 {
        assert(x.drop_last() =~= Seq::<char>::empty());
        assert(x.last() == c);
    } else {
        lemma_utf8_len_cons(c, s.drop_last());
        assert((seq![c] + s).drop_last() =~= seq![c] + s.drop_last());
        assert((seq![c] + s).last() == s.last());
    }
}

/// The UTF-8 encoding of a text has `utf8_len` bytes.
pub proof fn lemma_encode_utf8_len(s: Seq<char>)
    ensures
        vstd::utf8::encode_utf8(s).len() == utf8_len(s),
    decreases s.len(),
{
    if s.len() > 0 {
        lemma_encode_utf8_len(s.drop_first());
        lemma_utf8_len_cons(s[0], s.drop_first());
        assert(seq![s[0]] + s.drop_first() =~= s);
        vstd::utf8::char_is_scalar(s[0]);
    }
}

/// `str::len` is the UTF-8 length of the characters.
pub proof fn lemma_str_len(s: &str)
    ensures
        s.spec_bytes().len() == utf8_len(s@),
{
    lemma_encode_utf8_len(s@);
}

/// UTF-8 byte length of a string slice.
pub fn str_utf8_len(s: &str) -> (n: usize)
    ensures
        n == utf8_len(s@),
{
    proof {
        lemma_str_len(s);
    }
    s.as_bytes().len()
}

// ─────────────────────────────────────────────────────────────
// Suffix facts about trimming
// ─────────────────────────────────────────────────────────────

/// `trim_start(s)` is a suffix of `s`.
pub proof fn lemma_trim_start_suffix(s: Seq<char>)
    ensures
        trim_start(s).len() <= s.len(),
        trim_start(s) == s.skip(s.len() - trim_start(s).len()),
    decreases s.len(),
{
    if s.len() > 0 && is_ws(s[0]) {
        lemma_trim_start_suffix(s.drop_first());
        let t = trim_start(s.drop_first());
        assert(s.drop_first().skip(s.drop_first().len() - t.len()) =~= s.skip(s.len() - t.len()));
    } else {
        assert(s.skip(0) =~= s);
    }
}

/// `trim_start` never begins with whitespace.
pub proof fn lemma_trim_start_head(s: Seq<char>)
    ensures
        trim_start(s).len() > 0 ==> !is_ws(trim_start(s)[0]),
    decreases s.len(),
{
    if s.len() > 0 && is_ws(s[0]) {
        lemma_trim_start_head(s.drop_first());
    }
}

/// `trim_end(s)` is a prefix of `s` and never ends with whitespace.
pub proof fn lemma_trim_end_prefix(s: Seq<char>)
    ensures
        trim_end(s).len() <= s.len(),
        trim_end(s) == s.take(trim_end(s).len() as int),
        trim_end(s).len() > 0 ==> !is_ws(trim_end(s).last()),
    decreases s.len(),
{
    if s.len() > 0 && is_ws(s.last()) {
        lemma_trim_end_prefix(s.drop_last());
        let t = trim_end(s.drop_last());
        assert(s.drop_last().take(t.len() as int) =~= s.take(t.len() as int));
    } else {
        assert(s.take(s.len() as int) =~= s);
    }
}

/// A trimmed text neither begins nor ends with whitespace, and text that
/// neither begins nor ends with whitespace is its own trim.
pub proof fn lemma_trim_shape(s: Seq<char>)
    ensures
        trim(s).len() > 0 ==> !is_ws(trim(s)[0]) && !is_ws(trim(s).last()),
        (s.len() > 0 && !is_ws(s[0]) && !is_ws(s.last())) ==> trim(s) == s,
        s.len() == 0 ==> trim(s) == s,
{
    lemma_trim_start_head(s);
    lemma_trim_end_prefix(trim_start(s));
    if trim(s).len() > 0 {
        assert(trim(s)[0] == trim_start(s)[0]);
    }
}

/// Index just past the leading whitespace of `v[from..]`.
pub fn skip_ws(v: &[char], from: usize) -> (r: usize)
    requires
        from <= v@.len(),
    ensures
        from <= r <= v@.len(),
        trim_start(v@.skip(from as int)) == v@.skip(r as int),
{
    let mut a = from;
    while a < v.len() && is_whitespace(v[a])
        invariant
            from <= a <= v@.len(),
            forall|k: int| from <= k < a ==> is_ws(#[trigger] v@[k]),
        decreases v@.len() - a,
    {
        a = a + 1;
    }
    proof {
        let t = v@.skip(from as int);
        assert forall|k: int| 0 <= k < a - from implies is_ws(#[trigger] t[k]) by {
            assert(t[k] == v@[from + k]);
        }
        lemma_trim_start_skip(t, a - from);
        assert(t.skip(a - from) =~= v@.skip(a as int));
        if a < v@.len() {
            assert(!is_ws(v@.skip(a as int)[0]));
        }
    }
    a
}

// ─────────────────────────────────────────────────────────────
// Replacement
// ─────────────────────────────────────────────────────────────

/// `str::replace`: every non-overlapping occurrence of `p`, found left to
/// right, replaced by `r`.
pub open spec fn replace_all(s: Seq<char>, p: Seq<char>, r: Seq<char>) -> Seq<char>
    decreases s.len(),
{
    if s.len() == 0 {
        s
    } else if p.len() > 0 && starts_with(s, p) {
        r + replace_all(s.skip(p.len() as int), p, r)
    } else {
        seq![s[0]] + replace_all(s.skip(1), p, r)
    }
}

/// Replaces every non-overlapping occurrence of `p` in `s` by `r`.
pub fn replace_chars(s: &[char], p: &[char], r: &[char]) -> (out: Vec<char>)
    ensures
        out@ == replace_all(s@, p@, r@),
{
    let mut out: Vec<char> = Vec::new();
    let mut i: usize = 0;
    assert(s@.skip(0) =~= s@);
    assert(out@ + replace_all(s@, p@, r@) =~= replace_all(s@, p@, r@));
    while i < s.len()
        invariant
            i <= s@.len(),
            out@ + replace_all(s@.skip(i as int), p@, r@) == replace_all(s@, p@, r@),
        decreases s@.len() - i,
    {
        let ghost rest = s@.skip(i as int);
        if p.len() > 0 && matches_at(s, p, i) {
            proof {
                assert(rest.take(p@.len() as int) =~= s@.subrange(i as int, i + p@.len()));
                assert(rest.skip(p@.len() as int) =~= s@.skip(i + p@.len()));
            }
            extend_chars(&mut out, r);
            proof {
                assert(out@ + replace_all(s@.skip(i + p@.len()), p@, r@) =~= (out@.subrange(0, out@.len() - r@.len())) + (r@ + replace_all(s@.skip(i + p@.len()), p@, r@)));
            }
            i = i + p.len();
        } else {
            proof {
                if p@.len() > 0 && starts_with(rest, p@) {
                    assert(rest.take(p@.len() as int) =~= s@.subrange(i as int, i + p@.len()));
                }
                assert(rest.skip(1) =~= s@.skip(i + 1));
            }
            let ghost before = out@;
            out.push(s[i]);
            proof {
                assert(out@ + replace_all(s@.skip(i + 1), p@, r@) =~= before + (seq![s@[i as int]] + replace_all(s@.skip(i + 1), p@, r@)));
            }
            i = i + 1;
        }
    }
    proof {
        assert(s@.skip(i as int).len() == 0);
        assert(out@ + s@.skip(i as int) =~= out@);
    }
    out
}

// ─────────────────────────────────────────────────────────────
// Decimal rendering
// ─────────────────────────────────────────────────────────────

pub open spec fn digit_char(d: nat) -> char {
    if d == 0 { '0' }
    else if d == 1 { '1' }
    else if d == 2 { '2' }
    else if d == 3 { '3' }
    else if d == 4 { '4' }
    else if d == 5 { '5' }
    else if d == 6 { '6' }
    else if d == 7 { '7' }
    else if d == 8 { '8' }
    else { '9' }
}

/// The decimal representation of `n` (what `n.to_string()` gives).
pub open spec fn decimal(n: nat) -> Seq<char>
    decreases n,
{
    if n < 10 {
        seq![digit_char(n)]
    } else {
        decimal(n / 10).push(digit_char(n % 10))
    }
}

fn digit_of(d: usize) -> (c: char)
    requires
        d < 10,
    ensures
        c == digit_char(d as nat),
{
    if d == 0 { '0' }
    else if d == 1 { '1' }
    else if d == 2 { '2' }
    else if d == 3 { '3' }
    else if d == 4 { '4' }
    else if d == 5 { '5' }
    else if d == 6 { '6' }
    else if d == 7 { '7' }
    else if d == 8 { '8' }
    else { '9' }
}

/// Decimal digits of `n`.
pub fn decimal_chars(n: usize) -> (v: Vec<char>)
    ensures
        v@ == decimal(n as nat),
    decreases n,
{
    if n < 10 {
        let mut v: Vec<char> = Vec::new();
        v.push(digit_of(n));
        v
    } else {
        let mut v = decimal_chars(n / 10);
        v.push(digit_of(n % 10));
        v
    }
}

/// Decimal digits of a `u64`.
pub fn decimal_chars_u64(n: u64) -> (v: Vec<char>)
    ensures
        v@ == decimal(n as nat),
    decreases n,
{
    if n < 10 {
        let mut v: Vec<char> = Vec::new();
        v.push(digit_of(n as usize));
        v
    } else {
        let mut v = decimal_chars_u64(n / 10);
        v.push(digit_of((n % 10) as usize));
        v
    }
}

/// `n.to_string()` of a `u64`.
pub fn u64_to_string(n: u64) -> (s: String)
    ensures
        s@ == decimal(n as nat),
{
    let v = decimal_chars_u64(n);
    string_of(&v)
}

/// `n.to_string()`.
pub fn usize_to_string(n: usize) -> (s: String)
    ensures
        s@ == decimal(n as nat),
{
    let v = decimal_chars(n);
    string_of(&v)
}

// ─────────────────────────────────────────────────────────────
// Lexicographic order (the order `Ord for str` uses)
// ─────────────────────────────────────────────────────────────

/// `a < b` in code-point lexicographic order (same as UTF-8 byte order).
pub open spec fn lex_less(a: Seq<char>, b: Seq<char>) -> bool
    decreases a.len(),
{
    if a.len() == 0 {
        b.len() > 0
    } else if b.len() == 0 {
        false
    } else if a[0] != b[0] {
        (a[0] as u32) < (b[0] as u32)
    } else {
        lex_less(a.drop_first(), b.drop_first())
    }
}

/// Whether `a` sorts strictly before `b`.
pub fn lex_less_chars(a: &[char], b: &[char]) -> (r: bool)
    ensures
        r == lex_less(a@, b@),
{
    let mut i: usize = 0;
    assert(a@.skip(0) =~= a@);
    assert(b@.skip(0) =~= b@);
    while i < a.len() && i < b.len() && a[i] == b[i]
        invariant
            i <= a@.len(),
            i <= b@.len(),
            lex_less(a@, b@) == lex_less(a@.skip(i as int), b@.skip(i as int)),
        decreases a@.len() - i,
    {
        proof {
            assert(a@.skip(i as int).drop_first() =~= a@.skip(i + 1));
            assert(b@.skip(i as int).drop_first() =~= b@.skip(i + 1));
        }
        i = i + 1;
    }
    if i == a.len() {
        i < b.len()
    } else if i == b.len() {
        false
    } else {
        (a[i] as u32) < (b[i] as u32)
    }
}

// ─────────────────────────────────────────────────────────────
// Scanning positions
// ─────────────────────────────────────────────────────────────

/// First index `>= k` that is not whitespace (or the length).
pub open spec fn ws_skip(s: Seq<char>, k: int) -> int
    decreases s.len() - k,
{
    if 0 <= k < s.len() && is_ws(s[k]) {
        ws_skip(s, k + 1)
    } else {
        k
    }
}

/// First index `>= k` that is whitespace (or the length).
pub open spec fn ws_find(s: Seq<char>, k: int) -> int
    decreases s.len() - k,
{
    if 0 <= k < s.len() && !is_ws(s[k]) {
        ws_find(s, k + 1)
    } else {
        k
    }
}

/// First index `>= k` holding `c`.
pub open spec fn char_find(s: Seq<char>, c: char, k: int) -> Option<int>
    decreases s.len() - k,
{
    if k < 0 || k >= s.len() {
        None
    } else if s[k] == c {
        Some(k)
    } else {
        char_find(s, c, k + 1)
    }
}

pub proof fn lemma_char_find_range(s: Seq<char>, c: char, k: int)
    ensures
        char_find(s, c, k) matches Some(j) ==> k <= j < s.len() && s[j] == c,
    decreases s.len() - k,
{
    if 0 <= k < s.len() && s[k] != c {
        lemma_char_find_range(s, c, k + 1);
    }
}

/// Whether everything from `k` on is whitespace.
pub open spec fn blank_from(s: Seq<char>, k: int) -> bool {
    forall|i: int| k <= i < s.len() ==> is_ws(#[trigger] s[i])
}

pub fn ws_skip_exec(s: &[char], k: usize) -> (r: usize)
    requires
        k <= s@.len(),
    ensures
        r == ws_skip(s@, k as int),
        k <= r <= s@.len(),
{
    let mut i = k;
    while i < s.len() && is_whitespace(s[i])
        invariant
            k <= i <= s@.len(),
            ws_skip(s@, k as int) == ws_skip(s@, i as int),
        decreases s@.len() - i,
    {
        i = i + 1;
    }
    i
}

pub fn ws_find_exec(s: &[char], k: usize) -> (r: usize)
    requires
        k <= s@.len(),
    ensures
        r == ws_find(s@, k as int),
        k <= r <= s@.len(),
{
    let mut i = k;
    while i < s.len() && !is_whitespace(s[i])
        invariant
            k <= i <= s@.len(),
            ws_find(s@, k as int) == ws_find(s@, i as int),
        decreases s@.len() - i,
    {
        i = i + 1;
    }
    i
}

pub fn char_find_exec(s: &[char], c: char, k: usize) -> (r: Option<usize>)
    ensures
        r == (match char_find(s@, c, k as int) {
            Some(j) => Some(j as usize),
            None => None::<usize>,
        }),
        r matches Some(j) ==> k <= j < s@.len() && s@[j as int] == c && char_find(s@, c, k as int) == Some(j as int),
        char_find(s@, c, k as int) matches Some(j) ==> k <= j < s@.len(),
{
    proof {
        lemma_char_find_range(s@, c, k as int);
    }
    let mut i = k;
    while i < s.len()
        invariant
            k <= i,
            char_find(s@, c, k as int) == char_find(s@, c, i as int),
        decreases s@.len() - i,
    {
        if s[i] == c {
            return Some(i);
        }
        i = i + 1;
    }
    None
}

pub fn blank_from_exec(s: &[char], k: usize) -> (r: bool)
    ensures
        r == blank_from(s@, k as int),
{
    let mut i = k;
    while i < s.len()
        invariant
            k <= i,
            forall|j: int| k <= j < i && j < s@.len() ==> is_ws(#[trigger] s@[j]),
        decreases s@.len() - i,
    {
        if !is_whitespace(s[i]) {
            return false;
        }
        i = i + 1;
    }
    true
}

// ─────────────────────────────────────────────────────────────
// Sequences of character sequences
// ─────────────────────────────────────────────────────────────

/// The character sequences held by a vector of character vectors.
pub open spec fn seqs_of(v: Seq<Vec<char>>) -> Seq<Seq<char>> {
    v.map_values(|x: Vec<char>| x@)
}

pub fn push_token(out: &mut Vec<Vec<char>>, x: Vec<char>)
    ensures
        seqs_of(final(out)@) == seqs_of(old(out)@).push(x@),
        final(out)@.len() == old(out)@.len() + 1,
{
    let ghost x_view = x@;
    out.push(x);
    assert(seqs_of(out@) =~= seqs_of(old(out)@).push(x_view));
}

pub fn append_tokens(out: &mut Vec<Vec<char>>, more: &Vec<Vec<char>>)
    ensures
        seqs_of(final(out)@) == seqs_of(old(out)@) + seqs_of(more@),
{
    let mut i: usize = 0;
    while i < more.len()
        invariant
            i <= more@.len(),
            seqs_of(out@) == seqs_of(old(out)@) + seqs_of(more@).take(i as int),
        decreases more@.len() - i,
    {
        let t = copy_range(&more[i], 0, more[i].len());
        proof {
            assert(more@[i as int]@.subrange(0, more@[i as int]@.len() as int) =~= more@[i as int]@);
        }
        push_token(out, t);
        assert(seqs_of(more@).take(i + 1) =~= seqs_of(more@).take(i as int).push(more@[i as int]@));
        i = i + 1;
    }
    assert(seqs_of(more@).take(more@.len() as int) =~= seqs_of(more@));
}

pub fn copy_all(v: &Vec<char>) -> (r: Vec<char>)
    ensures
        r@ == v@,
{
    let r = copy_range(v.as_slice(), 0, v.len());
    assert(v@.subrange(0, v@.len() as int) =~= v@);
    r
}

/// The parts joined with `sep` between consecutive parts.
pub open spec fn join_with(parts: Seq<Seq<char>>, sep: Seq<char>) -> Seq<char>
    decreases parts.len(),
{
    if parts.len() == 0 {
        Seq::empty()
    } else if parts.len() == 1 {
        parts[0]
    } else {
        join_with(parts.drop_last(), sep) + sep + parts.last()
    }
}

// ─────────────────────────────────────────────────────────────
// ASCII case folding and splitting
// ─────────────────────────────────────────────────────────────

/// The code point of `c` with ASCII upper case folded to lower case.
pub open spec fn ascii_fold(c: char) -> u32 {
    if 'A' <= c && c <= 'Z' {
        (c as u32 + 32) as u32
    } else {
        c as u32
    }
}

/// `str::eq_ignore_ascii_case`.
pub open spec fn eq_ignore_ascii_case(a: Seq<char>, b: Seq<char>) -> bool {
    a.len() == b.len() && forall|i: int| 0 <= i < a.len() ==> ascii_fold(#[trigger] a[i]) == ascii_fold(b[i])
}

fn ascii_fold_exec(c: char) -> (r: u32)
    ensures
        r == ascii_fold(c),
{
    if 'A' <= c && c <= 'Z' {
        c as u32 + 32
    } else {
        c as u32
    }
}

/// Equality up to ASCII case.
pub fn eq_ignore_ascii_case_chars(a: &[char], b: &[char]) -> (r: bool)
    ensures
        r == eq_ignore_ascii_case(a@, b@),
{
    if a.len() != b.len() {
        return false;
    }
    let mut i: usize = 0;
    while i < a.len()
        invariant
            a@.len() == b@.len(),
            i <= a@.len(),
            forall|k: int| 0 <= k < i ==> ascii_fold(#[trigger] a@[k]) == ascii_fold(b@[k]),
        decreases a@.len() - i,
    {
        if ascii_fold_exec(a[i]) != ascii_fold_exec(b[i]) {
            return false;
        }
        i = i + 1;
    }
    true
}

/// Equality up to ASCII case between a character vector and a string slice.
pub fn eq_ignore_ascii_case_str(a: &[char], b: &str) -> (r: bool)
    ensures
        r == eq_ignore_ascii_case(a@, b@),
{
    let bv = chars_of(b);
    eq_ignore_ascii_case_chars(a, bv.as_slice())
}

/// `str::split` on one character: the pieces between occurrences of `c`
/// (one piece more than there are occurrences).
pub open spec fn split_on(s: Seq<char>, c: char) -> Seq<Seq<char>>
    decreases s.len(),
{
    proof {
        lemma_char_find_range(s, c, 0);
    }
    match char_find(s, c, 0) {
        None => seq![s],
        Some(j) => seq![s.take(j)] + split_on(s.skip(j + 1), c),
    }
}

/// Splitting on `c` and joining with `c` gives back the text.
pub proof fn lemma_split_join(s: Seq<char>, c: char)
    ensures
        join_with(split_on(s, c), seq![c]) == s,
    decreases s.len(),
{
    lemma_char_find_range(s, c, 0);
    match char_find(s, c, 0) {
        None => {},
        Some(j) => {
            let rest = split_on(s.skip(j + 1), c);
            lemma_split_join(s.skip(j + 1), c);
            lemma_join_cons(s.take(j), rest, seq![c]);
            assert(s.take(j) + seq![c] + s.skip(j + 1) =~= s);
        },
    }
}

/// Joining `x` in front of a non-empty list puts one separator after it.
pub proof fn lemma_join_cons(x: Seq<char>, rest: Seq<Seq<char>>, sep: Seq<char>)
    requires
        rest.len() > 0,
    ensures
        join_with(seq![x] + rest, sep) == x + sep + join_with(rest, sep),
    decreases rest.len(),
{
    let all = seq![x] + rest;
    if rest.len() == 1 {
        assert(all.drop_last() =~= seq![x]);
        assert(all.last() == rest[0]);
        assert(join_with(seq![x], sep) == x);
    } else {
        lemma_join_cons(x, rest.drop_last(), sep);
        assert(all.drop_last() =~= seq![x] + rest.drop_last());
        assert(all.last() == rest.last());
        assert(join_with(all, sep) == join_with(seq![x] + rest.drop_last(), sep) + sep + rest.last());
        assert(join_with(rest, sep) == join_with(rest.drop_last(), sep) + sep + rest.last());
        assert((x + sep + join_with(rest.drop_last(), sep)) + sep + rest.last() =~= x + sep + (join_with(rest.drop_last(), sep) + sep + rest.last()));
    }
}

/// Splits `s` at every occurrence of `c`.
pub fn split_chars(s: &[char], c: char) -> (r: Vec<Vec<char>>)
    ensures
        seqs_of(r@) == split_on(s@, c),
{
    let mut out: Vec<Vec<char>> = Vec::new();
    let mut start: usize = 0;
    let n = s.len();
    assert(s@.skip(0) =~= s@);
    assert(seqs_of(out@) + split_on(s@.skip(0), c) =~= split_on(s@, c));
    loop
        invariant
            start <= s@.len(),
            n == s@.len(),
            seqs_of(out@) + split_on(s@.skip(start as int), c) == split_on(s@, c),
        decreases s@.len() - start,
    {
        let ghost rest = s@.skip(start as int);
        match char_find_exec(s, c, start) {
            None => {
                proof {
                    lemma_char_find_shift(s@, c, start as int, 0);
                }
                let piece = copy_range(s, start, s.len());
                assert(piece@ =~= rest);
                let ghost before = seqs_of(out@);
                push_token(&mut out, piece);
                assert(seqs_of(out@) =~= before + split_on(rest, c));
                return out;
            },
            Some(j) => {
                proof {
                    lemma_char_find_shift(s@, c, start as int, 0);
                    assert(rest.take(j - start) =~= s@.subrange(start as int, j as int));
                    assert(rest.skip(j - start + 1) =~= s@.skip(j + 1));
                    assert(split_on(rest, c) == seq![rest.take(j - start)] + split_on(rest.skip(j - start + 1), c));
                }
                let piece = copy_range(s, start, j);
                let ghost before = seqs_of(out@);
                push_token(&mut out, piece);
                assert(seqs_of(out@) + split_on(s@.skip(j + 1), c) =~= before + split_on(rest, c));
                start = j + 1;
            },
        }
    }
}

/// Searching a suffix is searching the whole text from the suffix's start.
pub proof fn lemma_char_find_shift(s: Seq<char>, c: char, start: int, k: int)
    requires
        0 <= start <= s.len(),
        0 <= k,
    ensures
        char_find(s.skip(start), c, k) == (match char_find(s, c, start + k) {
            Some(j) => Some(j - start),
            None => None::<int>,
        }),
    decreases s.len() - start - k,
{
    if start + k < s.len() && s[start + k] != c {
        lemma_char_find_shift(s, c, start, k + 1);
    }
}

/// Joins character sequences with a one-character separator.
pub fn join_chars(parts: &Vec<Vec<char>>, sep: char) -> (r: Vec<char>)
    ensures
        r@ == join_with(seqs_of(parts@), seq![sep]),
{
    let ghost ps = seqs_of(parts@);
    let mut out: Vec<char> = Vec::new();
    let mut i: usize = 0;
    assert(ps.take(0) =~= Seq::<Seq<char>>::empty());
    while i < parts.len()
        invariant
            i <= parts@.len(),
            ps == seqs_of(parts@),
            out@ == join_with(ps.take(i as int), seq![sep]),
        decreases parts@.len() - i,
    {
        if i > 0 {
            out.push(sep);
        }
        extend_chars(&mut out, parts[i].as_slice());
        proof {
            let t = ps.take(i + 1);
            assert(t.drop_last() =~= ps.take(i as int));
            assert(t.last() == parts@[i as int]@);
            if i == 0 {
                assert(out@ =~= t[0]);
            } else {
                assert(out@ =~= join_with(ps.take(i as int), seq![sep]) + seq![sep] + t.last());
            }
        }
        i = i + 1;
    }
    assert(ps.take(parts@.len() as int) =~= ps);
    out
}

pub proof fn lemma_ws_find_ge(s: Seq<char>, k: int)
    ensures
        ws_find(s, k) >= k,
    decreases s.len() - k,
{
    if 0 <= k < s.len() && !is_ws(s[k]) {
        lemma_ws_find_ge(s, k + 1);
    }
}

pub proof fn lemma_ws_skip_stop(s: Seq<char>, k: int)
    ensures
        ws_skip(s, k) >= k,
        0 <= ws_skip(s, k) < s.len() ==> !is_ws(s[ws_skip(s, k)]),
    decreases s.len() - k,
{
    if 0 <= k < s.len() && is_ws(s[k]) {
        lemma_ws_skip_stop(s, k + 1);
    }
}

} // verus!
