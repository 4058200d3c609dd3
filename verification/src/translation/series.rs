//! Series variants and the per-mod consistency memory.
//!
//! Mods often hold numbered variants of one series (`Silver's Hair 9b`,
//! `Silver's Hair 10`). Only the base is translated and the suffix is put
//! back verbatim; translations already settled for a base are remembered
//! (first one wins) and offered to later prompts.

use vstd::prelude::*;
use crate::text::{
    char_is_alphabetic, chars_of, copy_range, decimal, ends_with, ends_with_chars, extend_chars,
    is_ascii_alnum_spec, is_ascii_alpha_spec, is_ascii_alphabetic, is_ascii_alphanumeric,
    is_ascii_digit, is_ascii_digit_spec, is_ascii_punct_spec, is_ascii_punctuation, is_blank,
    is_blank_chars, is_whitespace, is_ws, join_chars, join_with, seqs_of, string_of,
    to_lowercase, trim, trim_chars, trim_end, unicode_alphabetic, unicode_lowercase, utf8_len,
    utf8_len_of, lemma_utf8_len_bound, ws_find, ws_find_exec, ws_skip, ws_skip_exec, push_token,
};

verus! {

// ─────────────────────────────────────────────────────────────
// Script detection
// ─────────────────────────────────────────────────────────────

/// Whether the text has an ASCII letter.
pub open spec fn has_latin(s: Seq<char>) -> bool {
    exists|i: int| 0 <= i < s.len() && is_ascii_alpha_spec(#[trigger] s[i])
}

/// CJK Unified Ideographs, all extension blocks up to Unicode 15.1.
pub open spec fn is_cjk_char(c: char) -> bool {
    let u = c as u32;
    ||| (0x3400 <= u && u <= 0x4dbf)
    ||| (0x4e00 <= u && u <= 0x9fff)
    ||| (0xf900 <= u && u <= 0xfaff)
    ||| (0x20000 <= u && u <= 0x2a6df)
    ||| (0x2a700 <= u && u <= 0x2b73f)
    ||| (0x2b740 <= u && u <= 0x2b81f)
    ||| (0x2b820 <= u && u <= 0x2ceaf)
    ||| (0x2ceb0 <= u && u <= 0x2ebef)
    ||| (0x2ebf0 <= u && u <= 0x2ee5f)
    ||| (0x30000 <= u && u <= 0x3134f)
    ||| (0x31350 <= u && u <= 0x323af)
}

/// Whether the text has a CJK ideograph.
pub open spec fn has_cjk(s: Seq<char>) -> bool {
    exists|i: int| 0 <= i < s.len() && is_cjk_char(#[trigger] s[i])
}

fn is_cjk(c: char) -> (r: bool)
    ensures
        r == is_cjk_char(c),
{
    let u = c as u32;
    (0x3400 <= u && u <= 0x4dbf) || (0x4e00 <= u && u <= 0x9fff) || (0xf900 <= u && u <= 0xfaff)
        || (0x20000 <= u && u <= 0x2a6df) || (0x2a700 <= u && u <= 0x2b73f) || (0x2b740 <= u
        && u <= 0x2b81f) || (0x2b820 <= u && u <= 0x2ceaf) || (0x2ceb0 <= u && u <= 0x2ebef)
        || (0x2ebf0 <= u && u <= 0x2ee5f) || (0x30000 <= u && u <= 0x3134f) || (0x31350 <= u
        && u <= 0x323af)
}

fn has_latin_chars(v: &[char]) -> (r: bool)
    ensures
        r == has_latin(v@),
{
    let mut i: usize = 0;
    while i < v.len()
        invariant
            i <= v@.len(),
            forall|k: int| 0 <= k < i ==> !is_ascii_alpha_spec(#[trigger] v@[k]),
        decreases v@.len() - i,
    {
        if is_ascii_alphabetic(v[i]) {
            return true;
        }
        i = i + 1;
    }
    false
}

fn has_cjk_chars(v: &[char]) -> (r: bool)
    ensures
        r == has_cjk(v@),
{
    let mut i: usize = 0;
    while i < v.len()
        invariant
            i <= v@.len(),
            forall|k: int| 0 <= k < i ==> !is_cjk_char(#[trigger] v@[k]),
        decreases v@.len() - i,
    {
        if is_cjk(v[i]) {
            return true;
        }
        i = i + 1;
    }
    false
}

/// Whether the text contains an ASCII letter.
pub fn contains_latin(text: &str) -> (r: bool)
    ensures
        r == has_latin(text@),
{
    let v = chars_of(text);
    has_latin_chars(v.as_slice())
}

/// Whether the text contains a CJK ideograph (every extension block).
pub fn contains_cjk(text: &str) -> (r: bool)
    ensures
        r == has_cjk(text@),
{
    let v = chars_of(text);
    has_cjk_chars(v.as_slice())
}

// ─────────────────────────────────────────────────────────────
// Consistency keys
// ─────────────────────────────────────────────────────────────

/// The whitespace-separated words of `s` from index `i`.
pub open spec fn words_from(s: Seq<char>, i: int) -> Seq<Seq<char>>
    decreases s.len() - i,
{
    let a = ws_skip(s, i);
    if i < 0 || a >= s.len() {
        Seq::empty()
    } else {
        let b = ws_find(s, a);
        if i < b <= s.len() {
            seq![s.subrange(a, b)] + words_from(s, b)
        } else {
            Seq::empty()
        }
    }
}

/// `s` without leading ASCII punctuation.
pub open spec fn trim_punct_start(s: Seq<char>) -> Seq<char>
    decreases s.len(),
{
    if s.len() > 0 && is_ascii_punct_spec(s[0]) {
        trim_punct_start(s.drop_first())
    } else {
        s
    }
}

/// `s` without trailing ASCII punctuation.
pub open spec fn trim_punct_end(s: Seq<char>) -> Seq<char>
    decreases s.len(),
{
    if s.len() > 0 && is_ascii_punct_spec(s.last()) {
        trim_punct_end(s.drop_last())
    } else {
        s
    }
}

/// The consistency key of a text: its words joined by single spaces,
/// without ASCII punctuation at either end, lowercased.
pub open spec fn consistency_key(text: Seq<char>) -> Seq<char> {
    unicode_lowercase(trim_punct_end(trim_punct_start(join_with(words_from(text, 0), seq![' ']))))
}

pub(crate) fn words_exec(s: &[char]) -> (r: Vec<Vec<char>>)
    ensures
        seqs_of(r@) == words_from(s@, 0),
{
    let mut out: Vec<Vec<char>> = Vec::new();
    let mut i: usize = 0;
    assert(seqs_of(out@) + words_from(s@, 0) =~= words_from(s@, 0));
    loop
        invariant
            i <= s@.len(),
            seqs_of(out@) + words_from(s@, i as int) == words_from(s@, 0),
        decreases s@.len() - i,
    {
        let a = ws_skip_exec(s, i);
        if a >= s.len() {
            assert(seqs_of(out@) + Seq::<Seq<char>>::empty() =~= seqs_of(out@));
            return out;
        }
        let b = ws_find_exec(s, a);
        proof {
            crate::text::lemma_ws_find_ge(s@, a + 1);
            crate::text::lemma_ws_skip_stop(s@, i as int);
        }
        let ghost before = seqs_of(out@);
        push_token(&mut out, copy_range(s, a, b));
        assert(seqs_of(out@) + words_from(s@, b as int) =~= before + (seq![s@.subrange(a as int, b as int)] + words_from(s@, b as int)));
        i = b;
    }
}

fn trim_punct_exec(v: &[char]) -> (r: Vec<char>)
    ensures
        r@ == trim_punct_end(trim_punct_start(v@)),
{
    let mut a: usize = 0;
    assert(v@.skip(0) =~= v@);
    while a < v.len() && is_ascii_punctuation(v[a])
        invariant
            a <= v@.len(),
            trim_punct_start(v@) == trim_punct_start(v@.skip(a as int)),
        decreases v@.len() - a,
    {
        assert(v@.skip(a as int).drop_first() =~= v@.skip(a + 1));
        assert(v@.skip(a as int)[0] == v@[a as int]);
        a = a + 1;
    }
    let mut b: usize = v.len();
    let ghost t = v@.skip(a as int);
    assert(trim_punct_start(v@) == t) by {
        if a < v@.len() {
            assert(t[0] == v@[a as int]);
        }
    }
    assert(t =~= v@.subrange(a as int, v@.len() as int));
    while b > a && is_ascii_punctuation(v[b - 1])
        invariant
            a <= b <= v@.len(),
            t == v@.subrange(a as int, v@.len() as int),
            trim_punct_end(t) == trim_punct_end(v@.subrange(a as int, b as int)),
        decreases b,
    {
        assert(v@.subrange(a as int, b as int).drop_last() =~= v@.subrange(a as int, b - 1));
        b = b - 1;
    }
    proof {
        let u = v@.subrange(a as int, b as int);
        if u.len() > 0 {
            assert(u.last() == v@[b - 1]);
        }
    }
    copy_range(v, a, b)
}

proof fn lemma_trim_punct_start_skip0(v: Seq<char>)
    ensures
        trim_punct_start(v) == trim_punct_start(v.skip(0)),
{
    assert(v.skip(0) =~= v);
}

/// The consistency key: words joined by single spaces, ASCII punctuation
/// trimmed from both ends, lowercased.
pub fn normalize_consistency_key(text: &str) -> (r: String)
    ensures
        r@ == consistency_key(text@),
{
    let v = chars_of(text);
    let words = words_exec(v.as_slice());
    let joined = join_chars(&words, ' ');
    let trimmed = trim_punct_exec(joined.as_slice());
    let s = string_of(trimmed.as_slice());
    to_lowercase(s.as_str())
}

// ─────────────────────────────────────────────────────────────
// Series variants
// ─────────────────────────────────────────────────────────────

/// Character sets trimmed from the ends of suffixes and translations.
#[derive(Clone, Copy)]
pub enum TrimSet {
    /// `#`
    Hash,
    /// `( ) [ ] { }`
    Bracket,
    /// whitespace, `-`, `_`, `#`, `：`, `:`
    Separator,
}

pub open spec fn in_trim_set(set: TrimSet, c: char) -> bool {
    match set {
        TrimSet::Hash => c == '#',
        TrimSet::Bracket => c == '(' || c == ')' || c == '[' || c == ']' || c == '{' || c == '}',
        TrimSet::Separator => is_ws(c) || c == '-' || c == '_' || c == '#' || c == '：' || c == ':',
    }
}

fn in_trim_set_exec(set: TrimSet, c: char) -> (r: bool)
    ensures
        r == in_trim_set(set, c),
{
    match set {
        TrimSet::Hash => c == '#',
        TrimSet::Bracket => c == '(' || c == ')' || c == '[' || c == ']' || c == '{' || c == '}',
        TrimSet::Separator => is_whitespace(c) || c == '-' || c == '_' || c == '#' || c == '：'
            || c == ':',
    }
}

/// `s` without leading characters of the set.
pub open spec fn trim_set_start(set: TrimSet, s: Seq<char>) -> Seq<char>
    decreases s.len(),
{
    if s.len() > 0 && in_trim_set(set, s[0]) {
        trim_set_start(set, s.drop_first())
    } else {
        s
    }
}

/// `s` without trailing characters of the set.
pub open spec fn trim_set_end(set: TrimSet, s: Seq<char>) -> Seq<char>
    decreases s.len(),
{
    if s.len() > 0 && in_trim_set(set, s.last()) {
        trim_set_end(set, s.drop_last())
    } else {
        s
    }
}

fn trim_set_start_exec(set: TrimSet, v: &[char]) -> (r: Vec<char>)
    ensures
        r@ == trim_set_start(set, v@),
{
    let mut a: usize = 0;
    assert(v@.skip(0) =~= v@);
    while a < v.len() && in_trim_set_exec(set, v[a])
        invariant
            a <= v@.len(),
            trim_set_start(set, v@) == trim_set_start(set, v@.skip(a as int)),
        decreases v@.len() - a,
    {
        assert(v@.skip(a as int).drop_first() =~= v@.skip(a + 1));
        assert(v@.skip(a as int)[0] == v@[a as int]);
        a = a + 1;
    }
    proof {
        let t = v@.skip(a as int);
        if a < v@.len() {
            assert(t[0] == v@[a as int]);
        }
        assert(t =~= v@.subrange(a as int, v@.len() as int));
    }
    copy_range(v, a, v.len())
}

fn trim_set_end_exec(set: TrimSet, v: &[char]) -> (r: Vec<char>)
    ensures
        r@ == trim_set_end(set, v@),
{
    let mut b: usize = v.len();
    assert(v@.subrange(0, v@.len() as int) =~= v@);
    while b > 0 && in_trim_set_exec(set, v[b - 1])
        invariant
            b <= v@.len(),
            trim_set_end(set, v@) == trim_set_end(set, v@.subrange(0, b as int)),
        decreases b,
    {
        assert(v@.subrange(0, b as int).drop_last() =~= v@.subrange(0, b - 1));
        b = b - 1;
    }
    proof {
        let u = v@.subrange(0, b as int);
        if u.len() > 0 {
            assert(u.last() == v@[b - 1]);
        }
    }
    copy_range(v, 0, b)
}

/// A plausible series base: at least three bytes with a letter in it.
pub open spec fn series_base(b: Seq<char>) -> bool {
    utf8_len(b) >= 3 && exists|i: int| 0 <= i < b.len() && unicode_alphabetic(#[trigger] b[i])
}

/// The core of a suffix: trimmed, without leading `#`, without brackets at
/// either end.
pub open spec fn variant_core(s: Seq<char>) -> Seq<char> {
    trim_set_end(TrimSet::Bracket, trim_set_start(TrimSet::Bracket, trim_set_start(TrimSet::Hash, trim(s))))
}

/// A variant suffix: its core is 1 to 8 bytes of ASCII letters, digits,
/// `-` and `_`, with at least one digit.
pub open spec fn variant_suffix(s: Seq<char>) -> bool {
    let t = variant_core(s);
    &&& t.len() > 0
    &&& utf8_len(t) <= 8
    &&& exists|i: int| 0 <= i < t.len() && is_ascii_digit_spec(#[trigger] t[i])
    &&& forall|i: int| 0 <= i < t.len() ==> (is_ascii_alnum_spec(#[trigger] t[i]) || t[i] == '-' || t[i] == '_')
}

fn series_base_chars(b: &[char]) -> (r: bool)
    requires
        utf8_len(b@) <= usize::MAX,
    ensures
        r == series_base(b@),
{
    if utf8_len_of(b) < 3 {
        return false;
    }
    let mut i: usize = 0;
    while i < b.len()
        invariant
            i <= b@.len(),
            utf8_len(b@) >= 3,
            forall|k: int| 0 <= k < i ==> !unicode_alphabetic(#[trigger] b@[k]),
        decreases b@.len() - i,
    {
        if char_is_alphabetic(b[i]) {
            return true;
        }
        i = i + 1;
    }
    false
}

/// Whether `base` looks like a series base: at least three bytes and a letter.
pub fn is_series_base(base: &str) -> (r: bool)
    ensures
        r == series_base(base@),
{
    let v = chars_of(base);
    let _n = crate::text::str_utf8_len(base);
    series_base_chars(v.as_slice())
}

fn has_alphabetic(b: &[char]) -> (r: bool)
    ensures
        r == exists|i: int| 0 <= i < b@.len() && unicode_alphabetic(#[trigger] b@[i]),
{
    let mut i: usize = 0;
    while i < b.len()
        invariant
            i <= b@.len(),
            forall|k: int| 0 <= k < i ==> !unicode_alphabetic(#[trigger] b@[k]),
        decreases b@.len() - i,
    {
        if char_is_alphabetic(b[i]) {
            return true;
        }
        i = i + 1;
    }
    false
}

fn variant_suffix_chars(s: &[char]) -> (r: bool)
    ensures
        r == variant_suffix(s@),
{
    let t0 = trim_chars(s);
    let t1 = trim_set_start_exec(TrimSet::Hash, t0.as_slice());
    let t2 = trim_set_start_exec(TrimSet::Bracket, t1.as_slice());
    let t = trim_set_end_exec(TrimSet::Bracket, t2.as_slice());
    if t.len() == 0 || t.len() > 8 {
        proof {
            lemma_utf8_len_bound(t@);
        }
        return false;
    }
    proof {
        lemma_utf8_len_bound(t@);
    }
    if utf8_len_of(t.as_slice()) > 8 {
        return false;
    }
    let mut has_digit = false;
    let mut i: usize = 0;
    while i < t.len()
        invariant
            i <= t@.len(),
            t@ == variant_core(s@),
            t@.len() > 0,
            utf8_len(t@) <= 8,
            has_digit == exists|k: int| 0 <= k < i && is_ascii_digit_spec(#[trigger] t@[k]),
            forall|k: int| 0 <= k < i ==> (is_ascii_alnum_spec(#[trigger] t@[k]) || t@[k] == '-' || t@[k] == '_'),
        decreases t@.len() - i,
    {
        let c = t[i];
        if !(is_ascii_alphanumeric(c) || c == '-' || c == '_') {
            return false;
        }
        if is_ascii_digit(c) {
            has_digit = true;
        }
        i = i + 1;
    }
    has_digit
}

/// Whether `suffix` is a variant suffix: after trimming, dropping leading `#`
/// and surrounding brackets, 1 to 8 bytes of ASCII letters, digits, `-` or
/// `_` with at least one digit.
pub fn is_variant_suffix(suffix: &str) -> (r: bool)
    ensures
        r == variant_suffix(suffix@),
{
    let v = chars_of(suffix);
    variant_suffix_chars(v.as_slice())
}

/// Start (as a character index) of the run of ASCII letters and digits
/// that ends `s[..k]`.
pub open spec fn alnum_tail_start(s: Seq<char>, k: int) -> int
    decreases k,
{
    if 0 < k <= s.len() && is_ascii_alnum_spec(s[k - 1]) {
        alnum_tail_start(s, k - 1)
    } else {
        k
    }
}

/// Character index where a compact variant suffix starts (`银色发型9b` →
/// 4): the trailing ASCII alphanumeric run, when it is neither empty nor
/// the whole text and is a variant suffix.
pub open spec fn compact_split(t: Seq<char>) -> Option<int> {
    let k = alnum_tail_start(t, t.len() as int);
    if k == t.len() || k == 0 {
        None
    } else if variant_suffix(t.skip(k)) {
        Some(k)
    } else {
        None
    }
}

fn compact_split_exec(t: &[char]) -> (r: Option<usize>)
    ensures
        match compact_split(t@) {
            Some(k) => r == Some(k as usize) && 0 < k < t@.len(),
            None => r is None,
        },
{
    let n = t.len();
    let mut k = n;
    while k > 0 && is_ascii_alphanumeric(t[k - 1])
        invariant
            k <= n,
            n == t@.len(),
            alnum_tail_start(t@, n as int) == alnum_tail_start(t@, k as int),
        decreases k,
    {
        k = k - 1;
    }
    if k == n || k == 0 {
        return None;
    }
    let rest = copy_range(t, k, n);
    assert(rest@ =~= t@.skip(k as int));
    if variant_suffix_chars(rest.as_slice()) {
        Some(k)
    } else {
        None
    }
}

/// Byte offset where a compact variant suffix starts (`银色发型9b` → 12).
pub open spec fn compact_suffix_start(text: Seq<char>) -> Option<int> {
    match compact_split(text) {
        Some(k) => Some(utf8_len(text.take(k)) as int),
        None => None,
    }
}

/// Byte offset of the compact variant suffix of `text`: the trailing ASCII
/// alphanumeric run, when non-empty, not the whole text, and a variant suffix.
pub fn find_compact_variant_suffix_start(text: &str) -> (r: Option<usize>)
    ensures
        r == (match compact_suffix_start(text@) {
            Some(b) => Some(b as usize),
            None => None::<usize>,
        }),
{
    let v = chars_of(text);
    match compact_split_exec(v.as_slice()) {
        Some(k) => {
            let head = copy_range(v.as_slice(), 0, k);
            assert(head@ =~= text@.take(k as int));
            let _n = crate::text::str_utf8_len(text);
            proof {
                crate::text::lemma_utf8_len_prefix(text@, k as int);
            }
            Some(utf8_len_of(head.as_slice()))
        },
        None => None,
    }
}

/// A series variant split into its base and suffix.
#[derive(Debug, Clone, PartialEq, Eq)]
pub struct SeriesVariant {
    /// The series name, e.g. `Silver's Hair`.
    pub base: String,
    /// The variant suffix, e.g. `9b`.
    pub suffix: String,
}

/// Index of the last whitespace character of `s[..k]`.
pub open spec fn last_ws_before(s: Seq<char>, k: int) -> Option<int>
    decreases k,
{
    if k <= 0 || k > s.len() {
        None
    } else if is_ws(s[k - 1]) {
        Some(k - 1)
    } else {
        last_ws_before(s, k - 1)
    }
}

/// The split at the last whitespace, when both halves qualify.
pub open spec fn spaced_split(t: Seq<char>) -> Option<(Seq<char>, Seq<char>)> {
    match last_ws_before(t, t.len() as int) {
        Some(i) => {
            let base = trim(t.take(i));
            let suffix = trim(t.skip(i));
            if series_base(base) && variant_suffix(suffix) {
                Some((base, suffix))
            } else {
                None
            }
        },
        None => None,
    }
}

/// How a source splits into series base and variant suffix: at the last
/// whitespace of the trimmed text when both halves qualify; otherwise at a
/// compact suffix (`银色发型9b`), which needs a CJK base.
pub open spec fn series_split(source: Seq<char>) -> Option<(Seq<char>, Seq<char>)> {
    let t = trim(source);
    match spaced_split(t) {
        Some(p) => Some(p),
        None => match compact_split(t) {
            Some(k) => {
                let base = trim(t.take(k));
                let suffix = trim(t.skip(k));
                if has_cjk(base) && series_base(base) && variant_suffix(suffix) {
                    Some((base, suffix))
                } else {
                    None
                }
            },
            None => None,
        },
    }
}

fn base_ok(base: &[char]) -> (r: bool)
    ensures
        r == series_base(base@),
{
    let s = string_of(base);
    is_series_base(s.as_str())
}

/// Splits a series variant into base and suffix; `None` when the text is
/// not a variant (`Silver's Hair Blonde`).
pub fn split_series_variant(source: &str) -> (r: Option<SeriesVariant>)
    ensures
        match r {
            Some(v) => series_split(source@) == Some((v.base@, v.suffix@)),
            None => series_split(source@) is None,
        },
{
    let src = chars_of(source);
    let t = trim_chars(src.as_slice());
    let n = t.len();
    let mut k = n;
    while k > 0 && !is_whitespace(t[k - 1])
        invariant
            k <= n,
            n == t@.len(),
            last_ws_before(t@, n as int) == last_ws_before(t@, k as int),
        decreases k,
    {
        k = k - 1;
    }
    if k > 0 {
        let i = k - 1;
        let head = copy_range(t.as_slice(), 0, i);
        let tail = copy_range(t.as_slice(), i, n);
        assert(head@ =~= t@.take(i as int));
        assert(tail@ =~= t@.skip(i as int));
        let base = trim_chars(head.as_slice());
        let suffix = trim_chars(tail.as_slice());
        if base_ok(base.as_slice()) && variant_suffix_chars(suffix.as_slice()) {
            return Some(SeriesVariant { base: string_of(base.as_slice()), suffix: string_of(suffix.as_slice()) });
        }
    }
    assert(spaced_split(t@) is None);
    match compact_split_exec(t.as_slice()) {
        Some(j) => {
            let head = copy_range(t.as_slice(), 0, j);
            let tail = copy_range(t.as_slice(), j, n);
            assert(head@ =~= t@.take(j as int));
            assert(tail@ =~= t@.skip(j as int));
            let base = trim_chars(head.as_slice());
            let suffix = trim_chars(tail.as_slice());
            if has_cjk_chars(base.as_slice()) && base_ok(base.as_slice()) && variant_suffix_chars(suffix.as_slice()) {
                Some(SeriesVariant { base: string_of(base.as_slice()), suffix: string_of(suffix.as_slice()) })
            } else {
                None
            }
        },
        None => None,
    }
}

/// The base translation left when a variant suffix is removed from a
/// translation: the trimmed target must end with the trimmed suffix, and
/// what is left (without trailing whitespace, `-`, `_`, `#`, `：`, `:`)
/// must be non-empty.
pub open spec fn stripped_target(target: Seq<char>, suffix: Seq<char>) -> Option<Seq<char>> {
    let t = trim(target);
    let s = trim(suffix);
    if !ends_with(t, s) {
        None
    } else {
        let w = trim_set_end(TrimSet::Separator, trim_end(t.take(t.len() - s.len())));
        if w.len() == 0 {
            None
        } else {
            Some(w)
        }
    }
}

/// Removes the variant suffix from an existing translation, giving the
/// translation of the base (used by the consistency memory).
pub fn strip_target_suffix(target: &str, suffix: &str) -> (r: Option<String>)
    ensures
        match r {
            Some(b) => stripped_target(target@, suffix@) == Some(b@),
            None => stripped_target(target@, suffix@) is None,
        },
{
    let tv = chars_of(target);
    let sv = chars_of(suffix);
    let t = trim_chars(tv.as_slice());
    let s = trim_chars(sv.as_slice());
    if !ends_with_chars(t.as_slice(), s.as_slice()) {
        return None;
    }
    let head = copy_range(t.as_slice(), 0, t.len() - s.len());
    assert(head@ =~= t@.take(t@.len() - s@.len()));
    let te = copy_range(head.as_slice(), 0, trim_end_len(head.as_slice()));
    let w = trim_set_end_exec(TrimSet::Separator, te.as_slice());
    if w.len() == 0 {
        None
    } else {
        Some(string_of(w.as_slice()))
    }
}

fn trim_end_len(v: &[char]) -> (r: usize)
    ensures
        r <= v@.len(),
        v@.subrange(0, r as int) == trim_end(v@),
{
    let mut b: usize = v.len();
    while b > 0 && is_whitespace(v[b - 1])
        invariant
            b <= v@.len(),
            forall|k: int| b <= k < v@.len() ==> is_ws(#[trigger] v@[k]),
        decreases b,
    {
        b = b - 1;
    }
    proof {
        crate::text::lemma_trim_end_take(v@, b as int);
        assert(v@.take(b as int) =~= v@.subrange(0, b as int));
        if b > 0 {
            assert(v@.take(b as int).last() == v@[b - 1]);
        }
    }
    b
}

/// A base translation and a suffix put back together: both trimmed, no
/// space when the suffix starts with ASCII punctuation, else one space.
pub open spec fn composed_translation(base_target: Seq<char>, suffix: Seq<char>) -> Seq<char> {
    let b = trim(base_target);
    let s = trim(suffix);
    if s.len() == 0 {
        b
    } else if is_ascii_punct_spec(s[0]) {
        b + s
    } else {
        b + seq![' '] + s
    }
}

/// Joins a base translation and a variant suffix with stable spacing.
pub fn compose_variant_translation(base_target: &str, suffix: &str) -> (r: String)
    ensures
        r@ == composed_translation(base_target@, suffix@),
{
    let bv = chars_of(base_target);
    let sv = chars_of(suffix);
    let mut out = trim_chars(bv.as_slice());
    let s = trim_chars(sv.as_slice());
    if s.len() == 0 {
        return string_of(out.as_slice());
    }
    if !is_ascii_punctuation(s[0]) {
        out.push(' ');
    }
    extend_chars(&mut out, s.as_slice());
    string_of(out.as_slice())
}

/// A variant's translation put together from a base translation and its
/// suffix ends with the suffix as given, and removing that suffix again
/// gives the trimmed base translation back, whenever that base is not
/// blank and does not itself end with a separator (whitespace, `-`, `_`,
/// `#`, `：`, `:`).
pub proof fn law_strip_undoes_compose(base_target: Seq<char>, suffix: Seq<char>)
    requires
        trim(base_target).len() > 0,
        !in_trim_set(TrimSet::Separator, trim(base_target).last()),
    ensures
        ends_with(composed_translation(base_target, suffix), trim(suffix)),
        stripped_target(composed_translation(base_target, suffix), suffix) == Some(trim(base_target)),
{
    let b = trim(base_target);
    let s = trim(suffix);
    let c = composed_translation(base_target, suffix);
    crate::text::lemma_trim_shape(base_target);
    crate::text::lemma_trim_shape(suffix);
    crate::text::lemma_trim_shape(b);
    crate::text::lemma_trim_shape(s);
    // the composed text is its own trim
    assert(c.len() > 0 && c[0] == b[0]);
    assert(c.last() == if s.len() == 0 { b.last() } else { s.last() });
    crate::text::lemma_trim_shape(c);
    assert(trim(c) == c);
    // it ends with the suffix, and what precedes it trims back to the base
    let head = c.take(c.len() - s.len());
    assert(c.skip(c.len() - s.len()) =~= s);
    assert(ends_with(c, s));
    assert(trim_end(b) == b) by {
        crate::text::lemma_trim_end_prefix(b);
        assert(!is_ws(b.last()));
    }
    if s.len() == 0 || is_ascii_punct_spec(s[0]) {
        assert(head =~= b);
    } else {
        assert(head =~= b.push(' '));
        assert(head.drop_last() =~= b);
        assert(is_ws(head.last()));
        assert(trim_end(head) == trim_end(b));
    }
    assert(trim_end(head) == b);
    assert(trim_set_end(TrimSet::Separator, b) == b);
}

/// One remembered translation: `source = target`.
#[derive(Debug, Clone, PartialEq, Eq)]
pub struct ConsistencyTerm {
    pub source: String,
    pub target: String,
}

// ─────────────────────────────────────────────────────────────
// Consistency memory
// ─────────────────────────────────────────────────────────────

/// A remembered term: its key and `source = target`.
pub type MemoryModel = Seq<(Seq<char>, Seq<char>, Seq<char>)>;

/// The first remembered term under `key`.
pub open spec fn memory_lookup(m: MemoryModel, key: Seq<char>) -> Option<(Seq<char>, Seq<char>)>
    decreases m.len(),
{
    if m.len() == 0 {
        None
    } else if m[0].0 == key {
        Some((m[0].1, m[0].2))
    } else {
        memory_lookup(m.drop_first(), key)
    }
}

/// No key occurs twice.
pub open spec fn memory_keys_distinct(m: MemoryModel) -> bool {
    forall|i: int, j: int| 0 <= i < j < m.len() ==> m[i].0 != m[j].0
}

/// The memory after remembering `source = target`: both are trimmed, blank
/// ones are ignored, keys shorter than three bytes are ignored, and a key
/// that is already remembered keeps its first translation.
pub open spec fn memory_add(m: MemoryModel, source: Seq<char>, target: Seq<char>) -> MemoryModel {
    let s = trim(source);
    let t = trim(target);
    let key = consistency_key(s);
    if s.len() == 0 || t.len() == 0 || utf8_len(key) < 3 || memory_lookup(m, key) is Some {
        m
    } else {
        m.push((key, s, t))
    }
}

/// Remembered translations keyed by consistency key, in insertion order.
pub struct ConsistencyMemory {
    terms: Vec<(String, ConsistencyTerm)>,
}

impl View for ConsistencyMemory {
    type V = MemoryModel;

    closed spec fn view(&self) -> MemoryModel {
        self.terms@.map_values(|p: (String, ConsistencyTerm)| (p.0@, p.1.source@, p.1.target@))
    }
}

proof fn lemma_lookup_index(m: MemoryModel, key: Seq<char>, i: int)
    requires
        0 <= i < m.len(),
        m[i].0 == key,
        forall|j: int| 0 <= j < i ==> m[j].0 != key,
    ensures
        memory_lookup(m, key) == Some((m[i].1, m[i].2)),
    decreases i,
{
    if i > 0 {
        lemma_lookup_index(m.drop_first(), key, i - 1);
    }
}

proof fn lemma_lookup_absent(m: MemoryModel, key: Seq<char>)
    requires
        forall|j: int| 0 <= j < m.len() ==> m[j].0 != key,
    ensures
        memory_lookup(m, key) is None,
    decreases m.len(),
{
    if m.len() > 0 {
        lemma_lookup_absent(m.drop_first(), key);
    }
}

impl ConsistencyMemory {
    /// An empty memory.
    pub fn new() -> (r: Self)
        ensures
            r@.len() == 0,
    {
        let r = ConsistencyMemory { terms: Vec::new() };
        assert(r@ =~= Seq::<(Seq<char>, Seq<char>, Seq<char>)>::empty());
        r
    }

    /// Number of remembered terms.
    pub fn len(&self) -> (r: usize)
        ensures
            r == self@.len(),
    {
        self.terms.len()
    }

    pub fn is_empty(&self) -> (r: bool)
        ensures
            r == (self@.len() == 0),
    {
        self.terms.len() == 0
    }

    /// The term remembered under `key`.
    pub fn get(&self, key: &str) -> (r: Option<&ConsistencyTerm>)
        ensures
            match r {
                Some(t) => memory_lookup(self@, key@) == Some((t.source@, t.target@)),
                None => memory_lookup(self@, key@) is None,
            },
    {
        let k = chars_of(key);
        let mut i: usize = 0;
        while i < self.terms.len()
            invariant
                i <= self.terms@.len(),
                k@ == key@,
                forall|j: int| 0 <= j < i ==> self@[j].0 != key@,
            decreases self.terms@.len() - i,
        {
            let kv = chars_of(self.terms[i].0.as_str());
            if crate::text::chars_eq(kv.as_slice(), k.as_slice()) {
                proof {
                    lemma_lookup_index(self@, key@, i as int);
                }
                return Some(&self.terms[i].1);
            }
            i = i + 1;
        }
        proof {
            lemma_lookup_absent(self@, key@);
        }
        None
    }

    /// The remembered terms in insertion order.
    pub fn terms(&self) -> (r: Vec<ConsistencyTerm>)
        ensures
            r@.len() == self@.len(),
            forall|i: int| 0 <= i < r@.len() ==> r@[i].source@ == #[trigger] self@[i].1 && r@[i].target@ == self@[i].2,
    {
        let mut out: Vec<ConsistencyTerm> = Vec::new();
        let mut i: usize = 0;
        while i < self.terms.len()
            invariant
                i <= self.terms@.len(),
                out@.len() == i,
                forall|j: int| 0 <= j < i ==> out@[j].source@ == #[trigger] self@[j].1 && out@[j].target@ == self@[j].2,
            decreases self.terms@.len() - i,
        {
            let t = &self.terms[i].1;
            out.push(ConsistencyTerm { source: t.source.clone(), target: t.target.clone() });
            i = i + 1;
        }
        out
    }

    fn keys_at(&self, i: usize) -> (r: &String)
        requires
            i < self@.len(),
        ensures
            r@ == self@[i as int].0,
    {
        &self.terms[i].0
    }
}

/// Remembers `source = target` (see [`memory_add`]): blank texts and keys
/// under three bytes are skipped, and the first translation of a key stays.
pub fn add_consistency_term(memory: &mut ConsistencyMemory, source: &str, target: &str)
    ensures
        final(memory)@ == memory_add(old(memory)@, source@, target@),
{
    let sv = chars_of(source);
    let tv = chars_of(target);
    let s = trim_chars(sv.as_slice());
    let t = trim_chars(tv.as_slice());
    if s.len() == 0 || t.len() == 0 {
        return;
    }
    let s_str = string_of(s.as_slice());
    let t_str = string_of(t.as_slice());
    let key = normalize_consistency_key(s_str.as_str());
    if crate::text::str_utf8_len(key.as_str()) < 3 {
        return;
    }
    if memory.get(key.as_str()).is_some() {
        return;
    }
    let ghost before = memory@;
    let ghost kv = key@;
    memory.terms.push((key, ConsistencyTerm { source: s_str, target: t_str }));
    assert(memory@ =~= before.push((kv, s@, t@)));
}

/// The memory built from entries in order: each entry with source and
/// translation remembers `source = target`, and a series variant also
/// remembers `base = translation without the suffix`.
pub open spec fn memory_of(es: Seq<crate::types::EntryModel>) -> MemoryModel
    decreases es.len(),
{
    if es.len() == 0 {
        Seq::empty()
    } else {
        let m = memory_of(es.drop_last());
        let e = es.last();
        if is_blank(e.source) || is_blank(e.target) {
            m
        } else {
            let m1 = memory_add(m, e.source, e.target);
            match series_split(e.source) {
                Some((base, suffix)) => match stripped_target(e.target, suffix) {
                    Some(bt) => memory_add(m1, base, bt),
                    None => m1,
                },
                None => m1,
            }
        }
    }
}

pub open spec fn entries_view(es: Seq<crate::types::TranslationEntry>) -> Seq<crate::types::EntryModel> {
    es.map_values(|e: crate::types::TranslationEntry| e@)
}

/// Builds the consistency memory from all entries (translated ones included).
pub fn build_consistency_memory(entries: &[crate::types::TranslationEntry]) -> (r: ConsistencyMemory)
    ensures
        r@ == memory_of(entries_view(entries@)),
{
    let ghost es = entries_view(entries@);
    let mut memory = ConsistencyMemory::new();
    let mut i: usize = 0;
    assert(es.take(0) =~= Seq::<crate::types::EntryModel>::empty());
    assert(memory@ =~= memory_of(es.take(0)));
    while i < entries.len()
        invariant
            i <= entries@.len(),
            es == entries_view(entries@),
            memory@ == memory_of(es.take(i as int)),
        decreases entries@.len() - i,
    {
        let entry = &entries[i];
        assert(es.take(i + 1).drop_last() =~= es.take(i as int));
        assert(es.take(i + 1).last() == entry@);
        if !crate::text::is_blank_str(entry.source.as_str()) && !crate::text::is_blank_str(entry.target.as_str()) {
            add_consistency_term(&mut memory, entry.source.as_str(), entry.target.as_str());
            match split_series_variant(entry.source.as_str()) {
                Some(variant) => {
                    match strip_target_suffix(entry.target.as_str(), variant.suffix.as_str()) {
                        Some(base_target) => {
                            add_consistency_term(&mut memory, variant.base.as_str(), base_target.as_str());
                        },
                        None => {},
                    }
                },
                None => {},
            }
        }
        i = i + 1;
    }
    assert(es.take(entries@.len() as int) =~= es);
    memory
}

// ─────────────────────────────────────────────────────────────
// Series aliases
// ─────────────────────────────────────────────────────────────

/// Index of the first occurrence of `k` in `keys`.
pub open spec fn key_index(keys: Seq<Seq<char>>, k: Seq<char>) -> Option<int>
    decreases keys.len(),
{
    if keys.len() == 0 {
        None
    } else {
        match key_index(keys.drop_last(), k) {
            Some(i) => Some(i),
            None => if keys.last() == k {
                Some(keys.len() - 1)
            } else {
                None
            },
        }
    }
}

pub proof fn lemma_key_index(keys: Seq<Seq<char>>, k: Seq<char>)
    ensures
        match key_index(keys, k) {
            Some(i) => 0 <= i < keys.len() && keys[i] == k && forall|j: int| 0 <= j < i ==> keys[j] != k,
            None => forall|j: int| 0 <= j < keys.len() ==> keys[j] != k,
        },
    decreases keys.len(),
{
    if keys.len() > 0 {
        lemma_key_index(keys.drop_last(), k);
        assert forall|j: int| 0 <= j < keys.len() - 1 implies keys.drop_last()[j] == keys[j] by {}
    }
}

fn key_index_exec(keys: &Vec<Vec<char>>, k: &[char]) -> (r: Option<usize>)
    ensures
        match r {
            Some(j) => key_index(seqs_of(keys@), k@) == Some(j as int) && j < keys@.len() && keys@[j as int]@ == k@,
            None => key_index(seqs_of(keys@), k@) is None,
        },
{
    let ghost ks = seqs_of(keys@);
    proof {
        lemma_key_index(ks, k@);
    }
    let mut i: usize = 0;
    while i < keys.len()
        invariant
            i <= keys@.len(),
            ks == seqs_of(keys@),
            forall|j: int| 0 <= j < i ==> ks[j] != k@,
        decreases keys@.len() - i,
    {
        if crate::text::chars_eq(keys[i].as_slice(), k) {
            assert(ks[i as int] == k@);
            proof {
                lemma_key_index(ks, k@);
                match key_index(ks, k@) {
                    Some(m) => {
                        if m < i {
                            assert(ks[m] != k@);
                        }
                        if m > i {
                            assert(ks[i as int] != k@);
                        }
                    },
                    None => {},
                }
            }
            return Some(i);
        }
        assert(ks[i as int] == keys@[i as int]@);
        i = i + 1;
    }
    None
}

/// `s` with `x` appended unless already present.
pub open spec fn set_insert(s: Seq<Seq<char>>, x: Seq<char>) -> Seq<Seq<char>> {
    if s.contains(x) {
        s
    } else {
        s.push(x)
    }
}

/// What is known of one series base.
pub struct ProfileModel {
    /// The base as first written.
    pub source: Seq<char>,
    /// Distinct lowercased suffixes, in first-seen order.
    pub suffixes: Seq<Seq<char>>,
    pub latin: bool,
    pub cjk: bool,
}

/// The state while scanning entries: profiles keyed by base key (in
/// first-seen order) and base keys grouped by contentuid (in first-seen order).
pub struct AliasScan {
    pub keys: Seq<Seq<char>>,
    pub profiles: Seq<ProfileModel>,
    pub uids: Seq<Seq<char>>,
    pub groups: Seq<Seq<Seq<char>>>,
}

pub open spec fn profile_update(a: AliasScan, key: Seq<char>, base: Seq<char>, suffix: Seq<char>) -> AliasScan {
    let ns = unicode_lowercase(trim(suffix));
    match key_index(a.keys, key) {
        Some(i) => AliasScan {
            profiles: a.profiles.update(i, ProfileModel {
                source: a.profiles[i].source,
                suffixes: set_insert(a.profiles[i].suffixes, ns),
                latin: a.profiles[i].latin || has_latin(base),
                cjk: a.profiles[i].cjk || has_cjk(base),
            }),
            ..a
        },
        None => AliasScan {
            keys: a.keys.push(key),
            profiles: a.profiles.push(ProfileModel {
                source: base,
                suffixes: seq![ns],
                latin: has_latin(base),
                cjk: has_cjk(base),
            }),
            ..a
        },
    }
}

pub open spec fn group_push(a: AliasScan, uid: Seq<char>, key: Seq<char>) -> AliasScan {
    match key_index(a.uids, uid) {
        Some(i) => AliasScan { groups: a.groups.update(i, a.groups[i].push(key)), ..a },
        None => AliasScan { uids: a.uids.push(uid), groups: a.groups.push(seq![key]), ..a },
    }
}

/// Scanning entries in order: each series variant with a non-empty base key
/// updates the profile of its base and, when its contentuid is not blank,
/// joins the group of that contentuid.
pub open spec fn alias_scan(es: Seq<crate::types::EntryModel>) -> AliasScan
    decreases es.len(),
{
    if es.len() == 0 {
        AliasScan { keys: Seq::empty(), profiles: Seq::empty(), uids: Seq::empty(), groups: Seq::empty() }
    } else {
        let a = alias_scan(es.drop_last());
        let e = es.last();
        match series_split(e.source) {
            None => a,
            Some((base, suffix)) => {
                let key = consistency_key(base);
                if key.len() == 0 {
                    a
                } else {
                    let a1 = profile_update(a, key, base, suffix);
                    if is_blank(e.contentuid) {
                        a1
                    } else {
                        group_push(a1, e.contentuid, key)
                    }
                }
            },
        }
    }
}

/// `s` without repeated neighbours.
pub open spec fn dedup(s: Seq<Seq<char>>) -> Seq<Seq<char>>
    decreases s.len(),
{
    if s.len() == 0 {
        s
    } else {
        let d = dedup(s.drop_last());
        if d.len() > 0 && d.last() == s.last() {
            d
        } else {
            d.push(s.last())
        }
    }
}

/// `(a1, a2) >= (b1, b2)` in lexicographic order.
pub open spec fn pair_ge(a1: nat, a2: nat, b1: nat, b2: nat) -> bool {
    a1 > b1 || (a1 == b1 && a2 >= b2)
}

/// The Latin base among `ks` with the most suffixes, then the longest
/// source (the last such one on ties), scanning `ks[..n]`.
pub open spec fn choose_latin(ks: Seq<Seq<char>>, a: AliasScan, n: int) -> Option<Seq<char>>
    decreases n,
{
    if n <= 0 || n > ks.len() {
        None
    } else {
        let best = choose_latin(ks, a, n - 1);
        let k = ks[n - 1];
        match key_index(a.keys, k) {
            Some(i) => if a.profiles[i].latin {
                match best {
                    None => Some(k),
                    Some(b) => match key_index(a.keys, b) {
                        Some(j) => if pair_ge(
                            a.profiles[i].suffixes.len(),
                            utf8_len(a.profiles[i].source),
                            a.profiles[j].suffixes.len(),
                            utf8_len(a.profiles[j].source),
                        ) {
                            Some(k)
                        } else {
                            best
                        },
                        None => Some(k),
                    },
                }
            } else {
                best
            },
            None => best,
        }
    }
}

/// An association table from keys to values (keys distinct, in insertion order).
pub struct AliasTable {
    pub keys: Seq<Seq<char>>,
    pub vals: Seq<Seq<char>>,
}

/// `m` with `k` mapped to `v` (in place when present, appended otherwise).
pub open spec fn assoc_insert(m: AliasTable, k: Seq<char>, v: Seq<char>) -> AliasTable {
    match key_index(m.keys, k) {
        Some(i) => AliasTable { keys: m.keys, vals: m.vals.update(i, v) },
        None => AliasTable { keys: m.keys.push(k), vals: m.vals.push(v) },
    }
}

/// The value mapped to `k`.
pub open spec fn assoc_get(m: AliasTable, k: Seq<char>) -> Option<Seq<char>> {
    match key_index(m.keys, k) {
        Some(i) => Some(m.vals[i]),
        None => None,
    }
}

pub open spec fn empty_table() -> AliasTable {
    AliasTable { keys: Seq::empty(), vals: Seq::empty() }
}

/// Within one contentuid group (sorted, deduplicated keys `ks`), every key
/// other than the chosen canonical one whose profile has CJK maps to it.
pub open spec fn group_aliases(m: AliasTable, ks: Seq<Seq<char>>, canonical: Seq<char>, a: AliasScan, n: int) -> AliasTable
    decreases n,
{
    if n <= 0 || n > ks.len() {
        m
    } else {
        let m1 = group_aliases(m, ks, canonical, a, n - 1);
        let k = ks[n - 1];
        match key_index(a.keys, k) {
            Some(i) => if k != canonical && a.profiles[i].cjk {
                assoc_insert(m1, k, canonical)
            } else {
                m1
            },
            None => m1,
        }
    }
}

/// Aliases from the contentuid groups, processed in order.
pub open spec fn uid_aliases(a: AliasScan, n: int) -> AliasTable
    decreases n,
{
    if n <= 0 || n > a.groups.len() {
        empty_table()
    } else {
        let m = uid_aliases(a, n - 1);
        let ks = dedup(crate::translation::fidelity::sort_names(a.groups[n - 1]));
        match choose_latin(ks, a, ks.len() as int) {
            Some(c) => group_aliases(m, ks, c, a, ks.len() as int),
            None => m,
        }
    }
}

/// How many of `s`'s elements occur in `t`.
pub open spec fn overlap(s: Seq<Seq<char>>, t: Seq<Seq<char>>) -> nat
    decreases s.len(),
{
    if s.len() == 0 {
        0
    } else {
        overlap(s.drop_last(), t) + (if t.contains(s.last()) {
            1nat
        } else {
            0nat
        })
    }
}

/// Among the Latin profiles `a.profiles[..n]` sharing at least two suffixes
/// with `p`, the one with the largest overlap, then the most suffixes (the
/// last such one on ties).
pub open spec fn best_latin_match(p: ProfileModel, a: AliasScan, n: int) -> Option<int>
    decreases n,
{
    if n <= 0 || n > a.profiles.len() {
        None
    } else {
        let best = best_latin_match(p, a, n - 1);
        let q = a.profiles[n - 1];
        let o = overlap(p.suffixes, q.suffixes);
        if q.latin && o >= 2 {
            match best {
                None => Some(n - 1),
                Some(j) => if pair_ge(o, q.suffixes.len(), overlap(p.suffixes, a.profiles[j].suffixes), a.profiles[j].suffixes.len()) {
                    Some(n - 1)
                } else {
                    best
                },
            }
        } else {
            best
        }
    }
}

/// The aliases after the shared-suffix pass over CJK-only profiles
/// `a.profiles[..n]` that have no alias yet.
pub open spec fn suffix_aliases(a: AliasScan, m0: AliasTable, n: int) -> AliasTable
    decreases n,
{
    if n <= 0 || n > a.profiles.len() {
        m0
    } else {
        let m = suffix_aliases(a, m0, n - 1);
        let p = a.profiles[n - 1];
        let k = a.keys[n - 1];
        if p.cjk && !p.latin && assoc_get(m, k) is None {
            match best_latin_match(p, a, a.profiles.len() as int) {
                Some(j) => assoc_insert(m, k, a.keys[j]),
                None => m,
            }
        } else {
            m
        }
    }
}

/// The alias table of a set of entries: aliases from contentuid groups,
/// then from shared suffixes.
pub open spec fn series_alias_map(es: Seq<crate::types::EntryModel>) -> AliasTable {
    let a = alias_scan(es);
    suffix_aliases(a, uid_aliases(a, a.groups.len() as int), a.profiles.len() as int)
}

struct Profile {
    source: Vec<char>,
    suffixes: Vec<Vec<char>>,
    latin: bool,
    cjk: bool,
}

spec fn profile_view(p: Profile) -> ProfileModel {
    ProfileModel { source: p.source@, suffixes: seqs_of(p.suffixes@), latin: p.latin, cjk: p.cjk }
}

struct Scan {
    keys: Vec<Vec<char>>,
    profiles: Vec<Profile>,
    uids: Vec<Vec<char>>,
    groups: Vec<Vec<Vec<char>>>,
}

spec fn groups_view(g: Seq<Vec<Vec<char>>>) -> Seq<Seq<Seq<char>>> {
    g.map_values(|x: Vec<Vec<char>>| seqs_of(x@))
}

spec fn profiles_view(p: Seq<Profile>) -> Seq<ProfileModel> {
    p.map_values(|x: Profile| profile_view(x))
}

spec fn scan_view(s: Scan) -> AliasScan {
    AliasScan {
        keys: seqs_of(s.keys@),
        profiles: profiles_view(s.profiles@),
        uids: seqs_of(s.uids@),
        groups: groups_view(s.groups@),
    }
}

spec fn scan_wf(s: Scan) -> bool {
    s.keys@.len() == s.profiles@.len() && s.uids@.len() == s.groups@.len()
}

struct Table {
    keys: Vec<Vec<char>>,
    vals: Vec<Vec<char>>,
}

spec fn table_view(t: Table) -> AliasTable {
    AliasTable { keys: seqs_of(t.keys@), vals: seqs_of(t.vals@) }
}

spec fn table_wf(t: Table) -> bool {
    t.keys@.len() == t.vals@.len()
}

fn copy_tokens(v: &Vec<Vec<char>>) -> (r: Vec<Vec<char>>)
    ensures
        seqs_of(r@) == seqs_of(v@),
{
    let mut r: Vec<Vec<char>> = Vec::new();
    crate::text::append_tokens(&mut r, v);
    assert(seqs_of(r@) =~= seqs_of(v@));
    r
}

fn set_insert_exec(s: &mut Vec<Vec<char>>, x: Vec<char>)
    ensures
        seqs_of(final(s)@) == set_insert(seqs_of(old(s)@), x@),
{
    if !crate::translation::fidelity::contains_token(s, x.as_slice()) {
        push_token(s, x);
    }
}

fn lowered_suffix(suffix: &[char]) -> (r: Vec<char>)
    ensures
        r@ == unicode_lowercase(trim(suffix@)),
{
    let t = trim_chars(suffix);
    let st = string_of(t.as_slice());
    let l = to_lowercase(st.as_str());
    chars_of(l.as_str())
}

fn profile_update_exec(scan: Scan, key: Vec<char>, base: &[char], suffix: &[char]) -> (r: Scan)
    requires
        scan_wf(scan),
    ensures
        scan_wf(r),
        scan_view(r) == profile_update(scan_view(scan), key@, base@, suffix@),
{
    let ghost a0 = scan_view(scan);
    let mut scan = scan;
    let ns = lowered_suffix(suffix);
    let latin = has_latin_chars(base);
    let cjk = has_cjk_chars(base);
    match key_index_exec(&scan.keys, key.as_slice()) {
        Some(i) => {
            let old_p = &scan.profiles[i];
            assert(profiles_view(scan.profiles@)[i as int] == profile_view(*old_p));
            let mut suffixes = copy_tokens(&old_p.suffixes);
            set_insert_exec(&mut suffixes, ns);
            let np = Profile {
                source: crate::text::copy_all(&old_p.source),
                suffixes,
                latin: old_p.latin || latin,
                cjk: old_p.cjk || cjk,
            };
            let ghost before = profiles_view(scan.profiles@);
            let ghost npv = profile_view(np);
            assert(npv == (ProfileModel {
                source: a0.profiles[i as int].source,
                suffixes: set_insert(a0.profiles[i as int].suffixes, unicode_lowercase(trim(suffix@))),
                latin: a0.profiles[i as int].latin || has_latin(base@),
                cjk: a0.profiles[i as int].cjk || has_cjk(base@),
            }));
            scan.profiles.set(i, np);
            assert(profiles_view(scan.profiles@) =~= before.update(i as int, npv));
            assert(scan_view(scan).profiles == profile_update(a0, key@, base@, suffix@).profiles);
            scan
        },
        None => {
            let mut suffixes: Vec<Vec<char>> = Vec::new();
            push_token(&mut suffixes, ns);
            assert(seqs_of(suffixes@) =~= seq![unicode_lowercase(trim(suffix@))]);
            let src = copy_range(base, 0, base.len());
            assert(src@ =~= base@);
            let np = Profile { source: src, suffixes, latin, cjk };
            let ghost before = profiles_view(scan.profiles@);
            let ghost npv = profile_view(np);
            push_token(&mut scan.keys, key);
            scan.profiles.push(np);
            assert(profiles_view(scan.profiles@) =~= before.push(npv));
            scan
        },
    }
}

fn group_push_exec(scan: Scan, uid: Vec<char>, key: Vec<char>) -> (r: Scan)
    requires
        scan_wf(scan),
    ensures
        scan_wf(r),
        scan_view(r) == group_push(scan_view(scan), uid@, key@),
{
    let mut scan = scan;
    match key_index_exec(&scan.uids, uid.as_slice()) {
        Some(i) => {
            assert(groups_view(scan.groups@)[i as int] == seqs_of(scan.groups@[i as int]@));
            let mut g = copy_tokens(&scan.groups[i]);
            push_token(&mut g, key);
            let ghost before = groups_view(scan.groups@);
            let ghost gv = seqs_of(g@);
            scan.groups.set(i, g);
            assert(groups_view(scan.groups@) =~= before.update(i as int, gv));
            scan
        },
        None => {
            let mut g: Vec<Vec<char>> = Vec::new();
            let ghost kv = key@;
            push_token(&mut g, key);
            let ghost before = groups_view(scan.groups@);
            let ghost gv = seqs_of(g@);
            assert(gv =~= seq![kv]);
            push_token(&mut scan.uids, uid);
            scan.groups.push(g);
            assert(groups_view(scan.groups@) =~= before.push(gv));
            scan
        },
    }
}

fn scan_entries(entries: &[crate::types::TranslationEntry]) -> (r: Scan)
    ensures
        scan_wf(r),
        scan_view(r) == alias_scan(entries_view(entries@)),
{
    let ghost es = entries_view(entries@);
    let mut scan = Scan { keys: Vec::new(), profiles: Vec::new(), uids: Vec::new(), groups: Vec::new() };
    assert(es.take(0) =~= Seq::<crate::types::EntryModel>::empty());
    assert(scan_view(scan) == alias_scan(es.take(0))) by {
        assert(seqs_of(scan.keys@) =~= Seq::<Seq<char>>::empty());
        assert(profiles_view(scan.profiles@) =~= Seq::<ProfileModel>::empty());
        assert(seqs_of(scan.uids@) =~= Seq::<Seq<char>>::empty());
        assert(groups_view(scan.groups@) =~= Seq::<Seq<Seq<char>>>::empty());
    }
    let mut i: usize = 0;
    while i < entries.len()
        invariant
            i <= entries@.len(),
            es == entries_view(entries@),
            scan_wf(scan),
            scan_view(scan) == alias_scan(es.take(i as int)),
        decreases entries@.len() - i,
    {
        let entry = &entries[i];
        assert(es.take(i + 1).drop_last() =~= es.take(i as int));
        assert(es.take(i + 1).last() == entry@);
        match split_series_variant(entry.source.as_str()) {
            Some(variant) => {
                let key_s = normalize_consistency_key(variant.base.as_str());
                let key = chars_of(key_s.as_str());
                if key.len() > 0 {
                    let base = chars_of(variant.base.as_str());
                    let suffix = chars_of(variant.suffix.as_str());
                    let kc = crate::text::copy_all(&key);
                    scan = profile_update_exec(scan, key, base.as_slice(), suffix.as_slice());
                    if !crate::text::is_blank_str(entry.contentuid.as_str()) {
                        let uid = chars_of(entry.contentuid.as_str());
                        scan = group_push_exec(scan, uid, kc);
                    }
                }
            },
            None => {},
        }
        i = i + 1;
    }
    assert(es.take(entries@.len() as int) =~= es);
    scan
}

fn dedup_exec(s: &Vec<Vec<char>>) -> (r: Vec<Vec<char>>)
    ensures
        seqs_of(r@) == dedup(seqs_of(s@)),
{
    let ghost t = seqs_of(s@);
    let mut out: Vec<Vec<char>> = Vec::new();
    let mut i: usize = 0;
    assert(t.take(0) =~= Seq::<Seq<char>>::empty());
    assert(seqs_of(out@) =~= Seq::<Seq<char>>::empty());
    while i < s.len()
        invariant
            i <= s@.len(),
            t == seqs_of(s@),
            seqs_of(out@) == dedup(t.take(i as int)),
        decreases s@.len() - i,
    {
        assert(t.take(i + 1).drop_last() =~= t.take(i as int));
        assert(t.take(i + 1).last() == s@[i as int]@);
        let n = out.len();
        if n > 0 && crate::text::chars_eq(out[n - 1].as_slice(), s[i].as_slice()) {
            assert(seqs_of(out@).last() == out@[n - 1]@);
        } else {
            proof {
                if n > 0 {
                    assert(seqs_of(out@).last() == out@[n - 1]@);
                }
            }
            push_token(&mut out, crate::text::copy_all(&s[i]));
        }
        i = i + 1;
    }
    assert(t.take(s@.len() as int) =~= t);
    out
}

/// Byte length of a character sequence, in a type wide enough for any text.
fn utf8_len_wide(v: &[char]) -> (n: u128)
    ensures
        n == utf8_len(v@),
{
    let mut n: u128 = 0;
    let mut i: usize = 0;
    while i < v.len()
        invariant
            i <= v@.len(),
            n == utf8_len(v@.take(i as int)),
            n <= 4 * i,
        decreases v@.len() - i,
    {
        proof {
            crate::text::lemma_utf8_len_push(v@.take(i as int), v@[i as int]);
            assert(v@.take(i as int + 1) =~= v@.take(i as int).push(v@[i as int]));
        }
        n = n + crate::text::char_len_utf8(v[i]) as u128;
        i = i + 1;
    }
    assert(v@.take(v@.len() as int) =~= v@);
    n
}

fn choose_latin_exec(ks: &Vec<Vec<char>>, scan: &Scan) -> (r: Option<usize>)
    requires
        scan_wf(*scan),
    ensures
        match choose_latin(seqs_of(ks@), scan_view(*scan), ks@.len() as int) {
            Some(k) => r matches Some(j) && j < ks@.len() && ks@[j as int]@ == k,
            None => r is None,
        },
{
    let ghost kss = seqs_of(ks@);
    let ghost a = scan_view(*scan);
    let mut best: Option<usize> = None;
    let mut best_count: usize = 0;
    let mut best_len: u128 = 0;
    let mut n: usize = 0;
    while n < ks.len()
        invariant
            n <= ks@.len(),
            kss == seqs_of(ks@),
            a == scan_view(*scan),
            scan_wf(*scan),
            match choose_latin(kss, a, n as int) {
                Some(k) => best matches Some(j) && j < n && kss[j as int] == k && (match key_index(a.keys, k) {
                    Some(pi) => best_count == a.profiles[pi].suffixes.len() && best_len == utf8_len(a.profiles[pi].source),
                    None => false,
                }),
                None => best is None,
            },
        decreases ks@.len() - n,
    {
        let k = &ks[n];
        assert(kss[n as int] == k@);
        match key_index_exec(&scan.keys, k.as_slice()) {
            Some(pi) => {
                proof {
                    lemma_key_index(a.keys, k@);
                }
                let p = &scan.profiles[pi];
                assert(a.profiles[pi as int] == profile_view(*p));
                if p.latin {
                    let c = p.suffixes.len();
                    let l = utf8_len_wide(p.source.as_slice());
                    match best {
                        None => {
                            best = Some(n);
                            best_count = c;
                            best_len = l;
                        },
                        Some(_) => {
                            if c > best_count || (c == best_count && l >= best_len) {
                                best = Some(n);
                                best_count = c;
                                best_len = l;
                            }
                        },
                    }
                }
            },
            None => {},
        }
        n = n + 1;
    }
    best
}

fn assoc_insert_exec(m: Table, k: Vec<char>, v: Vec<char>) -> (r: Table)
    requires
        table_wf(m),
    ensures
        table_wf(r),
        table_view(r) == assoc_insert(table_view(m), k@, v@),
{
    let mut m = m;
    match key_index_exec(&m.keys, k.as_slice()) {
        Some(i) => {
            let ghost before = seqs_of(m.vals@);
            let ghost vv = v@;
            m.vals.set(i, v);
            assert(seqs_of(m.vals@) =~= before.update(i as int, vv));
            m
        },
        None => {
            push_token(&mut m.keys, k);
            push_token(&mut m.vals, v);
            m
        },
    }
}

fn assoc_get_exec<'a>(m: &'a Table, k: &[char]) -> (r: Option<&'a Vec<char>>)
    requires
        table_wf(*m),
    ensures
        match assoc_get(table_view(*m), k@) {
            Some(v) => r matches Some(x) && x@ == v,
            None => r is None,
        },
{
    match key_index_exec(&m.keys, k) {
        Some(i) => {
            let x = &m.vals[i];
            assert(table_view(*m).vals[i as int] == x@);
            Some(x)
        },
        None => None,
    }
}

fn group_aliases_exec(m: Table, ks: &Vec<Vec<char>>, canonical: &[char], scan: &Scan) -> (r: Table)
    requires
        table_wf(m),
        scan_wf(*scan),
    ensures
        table_wf(r),
        table_view(r) == group_aliases(table_view(m), seqs_of(ks@), canonical@, scan_view(*scan), ks@.len() as int),
{
    let ghost kss = seqs_of(ks@);
    let ghost a = scan_view(*scan);
    let ghost m0 = table_view(m);
    let mut m = m;
    let mut n: usize = 0;
    while n < ks.len()
        invariant
            n <= ks@.len(),
            kss == seqs_of(ks@),
            a == scan_view(*scan),
            scan_wf(*scan),
            table_wf(m),
            table_view(m) == group_aliases(m0, kss, canonical@, a, n as int),
        decreases ks@.len() - n,
    {
        let k = &ks[n];
        assert(kss[n as int] == k@);
        match key_index_exec(&scan.keys, k.as_slice()) {
            Some(pi) => {
                proof {
                    lemma_key_index(a.keys, k@);
                }
                let p = &scan.profiles[pi];
                assert(a.profiles[pi as int] == profile_view(*p));
                if !crate::text::chars_eq(k.as_slice(), canonical) && p.cjk {
                    let cv = copy_range(canonical, 0, canonical.len());
                    assert(cv@ =~= canonical@);
                    m = assoc_insert_exec(m, crate::text::copy_all(k), cv);
                }
            },
            None => {},
        }
        n = n + 1;
    }
    m
}

fn uid_aliases_exec(scan: &Scan) -> (r: Table)
    requires
        scan_wf(*scan),
    ensures
        table_wf(r),
        table_view(r) == uid_aliases(scan_view(*scan), scan.groups@.len() as int),
{
    let ghost a = scan_view(*scan);
    let mut m = Table { keys: Vec::new(), vals: Vec::new() };
    assert(table_view(m) == empty_table()) by {
        assert(seqs_of(m.keys@) =~= Seq::<Seq<char>>::empty());
        assert(seqs_of(m.vals@) =~= Seq::<Seq<char>>::empty());
    }
    let mut n: usize = 0;
    while n < scan.groups.len()
        invariant
            n <= scan.groups@.len(),
            a == scan_view(*scan),
            scan_wf(*scan),
            table_wf(m),
            table_view(m) == uid_aliases(a, n as int),
        decreases scan.groups@.len() - n,
    {
        assert(a.groups[n as int] == seqs_of(scan.groups@[n as int]@));
        let sorted = crate::translation::fidelity::sort_names_exec(&scan.groups[n]);
        let ks = dedup_exec(&sorted);
        match choose_latin_exec(&ks, scan) {
            Some(j) => {
                let c = crate::text::copy_all(&ks[j]);
                m = group_aliases_exec(m, &ks, c.as_slice(), scan);
            },
            None => {},
        }
        n = n + 1;
    }
    m
}

fn overlap_exec(s: &Vec<Vec<char>>, t: &Vec<Vec<char>>) -> (r: usize)
    ensures
        r == overlap(seqs_of(s@), seqs_of(t@)),
        r <= s@.len(),
{
    let ghost ss = seqs_of(s@);
    let mut r: usize = 0;
    let mut i: usize = 0;
    assert(ss.take(0) =~= Seq::<Seq<char>>::empty());
    while i < s.len()
        invariant
            i <= s@.len(),
            ss == seqs_of(s@),
            r == overlap(ss.take(i as int), seqs_of(t@)),
            r <= i,
        decreases s@.len() - i,
    {
        assert(ss.take(i + 1).drop_last() =~= ss.take(i as int));
        assert(ss.take(i + 1).last() == s@[i as int]@);
        if crate::translation::fidelity::contains_token(t, s[i].as_slice()) {
            r = r + 1;
        }
        i = i + 1;
    }
    assert(ss.take(s@.len() as int) =~= ss);
    r
}

fn best_latin_match_exec(p: &Profile, scan: &Scan) -> (r: Option<usize>)
    requires
        scan_wf(*scan),
    ensures
        match best_latin_match(profile_view(*p), scan_view(*scan), scan.profiles@.len() as int) {
            Some(j) => r == Some(j as usize) && 0 <= j < scan.profiles@.len(),
            None => r is None,
        },
{
    let ghost a = scan_view(*scan);
    let ghost pv = profile_view(*p);
    let mut best: Option<usize> = None;
    let mut best_o: usize = 0;
    let mut best_c: usize = 0;
    let mut n: usize = 0;
    while n < scan.profiles.len()
        invariant
            n <= scan.profiles@.len(),
            a == scan_view(*scan),
            pv == profile_view(*p),
            scan_wf(*scan),
            match best_latin_match(pv, a, n as int) {
                Some(j) => best == Some(j as usize) && 0 <= j < n && best_o == overlap(pv.suffixes, a.profiles[j].suffixes) && best_c == a.profiles[j].suffixes.len(),
                None => best is None,
            },
        decreases scan.profiles@.len() - n,
    {
        let q = &scan.profiles[n];
        assert(a.profiles[n as int] == profile_view(*q));
        let o = overlap_exec(&p.suffixes, &q.suffixes);
        if q.latin && o >= 2 {
            let c = q.suffixes.len();
            match best {
                None => {
                    best = Some(n);
                    best_o = o;
                    best_c = c;
                },
                Some(_) => {
                    if o > best_o || (o == best_o && c >= best_c) {
                        best = Some(n);
                        best_o = o;
                        best_c = c;
                    }
                },
            }
        }
        n = n + 1;
    }
    best
}

fn suffix_aliases_exec(scan: &Scan, m: Table) -> (r: Table)
    requires
        scan_wf(*scan),
        table_wf(m),
    ensures
        table_wf(r),
        table_view(r) == suffix_aliases(scan_view(*scan), table_view(m), scan.profiles@.len() as int),
{
    let ghost a = scan_view(*scan);
    let ghost m0 = table_view(m);
    let mut m = m;
    let mut n: usize = 0;
    while n < scan.profiles.len()
        invariant
            n <= scan.profiles@.len(),
            a == scan_view(*scan),
            scan_wf(*scan),
            table_wf(m),
            table_view(m) == suffix_aliases(a, m0, n as int),
        decreases scan.profiles@.len() - n,
    {
        let p = &scan.profiles[n];
        let k = &scan.keys[n];
        assert(a.profiles[n as int] == profile_view(*p));
        assert(a.keys[n as int] == k@);
        if p.cjk && !p.latin && assoc_get_exec(&m, k.as_slice()).is_none() {
            match best_latin_match_exec(p, scan) {
                Some(j) => {
                    assert(a.keys[j as int] == scan.keys@[j as int]@);
                    let v = crate::text::copy_all(&scan.keys[j]);
                    m = assoc_insert_exec(m, crate::text::copy_all(k), v);
                },
                None => {},
            }
        }
        n = n + 1;
    }
    m
}

/// Alias table of series bases: CJK series names mapped to the Latin name of
/// the same series, plus the display source of every base key.
pub struct SeriesAliases {
    aliases: Table,
    sources: Table,
}

impl SeriesAliases {
    pub closed spec fn alias_table(&self) -> AliasTable {
        table_view(self.aliases)
    }

    pub closed spec fn source_table(&self) -> AliasTable {
        table_view(self.sources)
    }

    pub closed spec fn wf(&self) -> bool {
        table_wf(self.aliases) && table_wf(self.sources)
    }

    /// The canonical key of `key` (itself when it has no alias).
    pub fn canonical_key(&self, key: &str) -> (r: String)
        requires
            self.wf(),
        ensures
            r@ == (match assoc_get(self.alias_table(), key@) {
                Some(v) => v,
                None => key@,
            }),
    {
        let k = chars_of(key);
        match assoc_get_exec(&self.aliases, k.as_slice()) {
            Some(v) => string_of(v.as_slice()),
            None => String::from_str(key),
        }
    }

    /// The display source of a canonical key (`fallback` when unknown).
    pub fn source_for(&self, key: &str, fallback: &str) -> (r: String)
        requires
            self.wf(),
        ensures
            r@ == (match assoc_get(self.source_table(), key@) {
                Some(v) => v,
                None => fallback@,
            }),
    {
        let k = chars_of(key);
        match assoc_get_exec(&self.sources, k.as_slice()) {
            Some(v) => string_of(v.as_slice()),
            None => String::from_str(fallback),
        }
    }
}

/// Every base key mapped to its source as first written.
pub open spec fn source_table_of(a: AliasScan) -> AliasTable {
    AliasTable { keys: a.keys, vals: a.profiles.map_values(|p: ProfileModel| p.source) }
}

/// Builds the series alias table. CJK series names are mapped to a Latin
/// name of the same series when both occur under one contentuid, or else
/// when they share at least two variant suffixes.
pub fn build_series_aliases(entries: &[crate::types::TranslationEntry]) -> (r: SeriesAliases)
    ensures
        r.wf(),
        r.alias_table() == series_alias_map(entries_view(entries@)),
        r.source_table() == source_table_of(alias_scan(entries_view(entries@))),
{
    let scan = scan_entries(entries);
    let aliases0 = uid_aliases_exec(&scan);
    let aliases = suffix_aliases_exec(&scan, aliases0);
    let mut sources = Table { keys: Vec::new(), vals: Vec::new() };
    let ghost a = scan_view(scan);
    assert(table_view(sources) == (AliasTable { keys: a.keys.take(0), vals: a.profiles.map_values(|p: ProfileModel| p.source).take(0) })) by {
        assert(seqs_of(sources.keys@) =~= a.keys.take(0));
        assert(seqs_of(sources.vals@) =~= a.profiles.map_values(|p: ProfileModel| p.source).take(0));
    }
    let mut i: usize = 0;
    while i < scan.keys.len()
        invariant
            i <= scan.keys@.len(),
            scan_wf(scan),
            a == scan_view(scan),
            table_wf(sources),
            table_view(sources) == (AliasTable { keys: a.keys.take(i as int), vals: a.profiles.map_values(|p: ProfileModel| p.source).take(i as int) }),
        decreases scan.keys@.len() - i,
    {
        assert(a.profiles[i as int] == profile_view(scan.profiles@[i as int]));
        push_token(&mut sources.keys, crate::text::copy_all(&scan.keys[i]));
        push_token(&mut sources.vals, crate::text::copy_all(&scan.profiles[i].source));
        assert(a.keys.take(i + 1) =~= a.keys.take(i as int).push(a.keys[i as int]));
        assert(a.profiles.map_values(|p: ProfileModel| p.source).take(i + 1) =~= a.profiles.map_values(|p: ProfileModel| p.source).take(i as int).push(a.profiles[i as int].source));
        i = i + 1;
    }
    assert(a.keys.take(a.keys.len() as int) =~= a.keys);
    assert(a.profiles.map_values(|p: ProfileModel| p.source).take(a.profiles.len() as int) =~= a.profiles.map_values(|p: ProfileModel| p.source));
    SeriesAliases { aliases, sources }
}

// ─────────────────────────────────────────────────────────────
// Consistency references
// ─────────────────────────────────────────────────────────────

/// The remembered terms (in memory order) whose key, at least three bytes
/// long, occurs inside `skey` without being all of it.
pub open spec fn reference_candidates(m: MemoryModel, skey: Seq<char>) -> Seq<(Seq<char>, Seq<char>)>
    decreases m.len(),
{
    if m.len() == 0 {
        Seq::empty()
    } else {
        let prev = reference_candidates(m.drop_last(), skey);
        let e = m.last();
        if utf8_len(e.0) >= 3 && crate::text::contains_seq(skey, e.0) && e.0 != skey {
            prev.push((e.1, e.2))
        } else {
            prev
        }
    }
}

/// `x` inserted after every term whose source is at least as long (bytes).
pub open spec fn insert_by_len(x: (Seq<char>, Seq<char>), s: Seq<(Seq<char>, Seq<char>)>) -> Seq<(Seq<char>, Seq<char>)>
    decreases s.len(),
{
    if s.len() == 0 {
        seq![x]
    } else if utf8_len(s[0].0) >= utf8_len(x.0) {
        seq![s[0]] + insert_by_len(x, s.drop_first())
    } else {
        seq![x] + s
    }
}

/// Stable sort by descending source length in bytes.
pub open spec fn sort_by_len_desc(s: Seq<(Seq<char>, Seq<char>)>) -> Seq<(Seq<char>, Seq<char>)>
    decreases s.len(),
{
    if s.len() == 0 {
        s
    } else {
        insert_by_len(s.last(), sort_by_len_desc(s.drop_last()))
    }
}

/// At most this many consistency references go into a prompt.
pub const MAX_CONSISTENCY_REFERENCES: usize = 12;

/// The settled translations to offer for `source`: the candidates, longest
/// source first (stable), at most twelve.
pub open spec fn consistency_references(source: Seq<char>, m: MemoryModel) -> Seq<(Seq<char>, Seq<char>)> {
    let r = sort_by_len_desc(reference_candidates(m, consistency_key(source)));
    if r.len() > MAX_CONSISTENCY_REFERENCES {
        r.take(MAX_CONSISTENCY_REFERENCES as int)
    } else {
        r
    }
}

pub open spec fn terms_view(v: Seq<ConsistencyTerm>) -> Seq<(Seq<char>, Seq<char>)> {
    v.map_values(|t: ConsistencyTerm| (t.source@, t.target@))
}

proof fn lemma_insert_by_len_at(x: (Seq<char>, Seq<char>), s: Seq<(Seq<char>, Seq<char>)>, p: int)
    requires
        0 <= p <= s.len(),
        forall|k: int| 0 <= k < p ==> utf8_len(#[trigger] s[k].0) >= utf8_len(x.0),
        p == s.len() || utf8_len(s[p].0) < utf8_len(x.0),
    ensures
        insert_by_len(x, s) == s.take(p) + seq![x] + s.skip(p),
    decreases p,
{
    if p == 0 {
        assert(s.take(0) + seq![x] + s.skip(0) =~= seq![x] + s);
    } else {
        let t = s.drop_first();
        assert forall|k: int| 0 <= k < p - 1 implies utf8_len(#[trigger] t[k].0) >= utf8_len(x.0) by {
            assert(t[k] == s[k + 1]);
        }
        lemma_insert_by_len_at(x, t, p - 1);
        assert(seq![s[0]] + (t.take(p - 1) + seq![x] + t.skip(p - 1)) =~= s.take(p) + seq![x] + s.skip(p));
    }
}

fn copy_term(t: &ConsistencyTerm) -> (r: ConsistencyTerm)
    ensures
        r.source@ == t.source@,
        r.target@ == t.target@,
{
    ConsistencyTerm { source: t.source.clone(), target: t.target.clone() }
}

fn insert_by_len_exec(sorted: &Vec<ConsistencyTerm>, x: ConsistencyTerm) -> (r: Vec<ConsistencyTerm>)
    ensures
        terms_view(r@) == insert_by_len((x.source@, x.target@), terms_view(sorted@)),
{
    let ghost s = terms_view(sorted@);
    let ghost xv = (x.source@, x.target@);
    let xl = utf8_len_wide(chars_of(x.source.as_str()).as_slice());
    let mut out: Vec<ConsistencyTerm> = Vec::new();
    let mut i: usize = 0;
    assert(terms_view(out@) =~= s.take(0));
    while i < sorted.len() && utf8_len_wide(chars_of(sorted[i].source.as_str()).as_slice()) >= xl
        invariant
            i <= sorted@.len(),
            s == terms_view(sorted@),
            xl == utf8_len(xv.0),
            terms_view(out@) == s.take(i as int),
            forall|k: int| 0 <= k < i ==> utf8_len(#[trigger] s[k].0) >= utf8_len(xv.0),
        decreases sorted@.len() - i,
    {
        let ghost before = terms_view(out@);
        out.push(copy_term(&sorted[i]));
        assert(terms_view(out@) =~= before.push(s[i as int]));
        assert(s.take(i + 1) =~= s.take(i as int).push(s[i as int]));
        i = i + 1;
    }
    proof {
        lemma_insert_by_len_at(xv, s, i as int);
    }
    let ghost before = terms_view(out@);
    out.push(x);
    assert(terms_view(out@) =~= before.push(xv));
    let mut j = i;
    while j < sorted.len()
        invariant
            i <= j <= sorted@.len(),
            s == terms_view(sorted@),
            terms_view(out@) == s.take(i as int) + seq![xv] + s.subrange(i as int, j as int),
        decreases sorted@.len() - j,
    {
        let ghost before = terms_view(out@);
        out.push(copy_term(&sorted[j]));
        assert(terms_view(out@) =~= before.push(s[j as int]));
        assert(s.subrange(i as int, j + 1) =~= s.subrange(i as int, j as int).push(s[j as int]));
        j = j + 1;
    }
    assert(s.subrange(i as int, sorted@.len() as int) =~= s.skip(i as int));
    out
}

/// The settled translations to show the model for `source`: remembered terms
/// whose key (three bytes or more) occurs in the source's key without being
/// all of it, longest source first, at most twelve.
pub fn find_consistency_references(source: &str, memory: &ConsistencyMemory) -> (r: Vec<ConsistencyTerm>)
    ensures
        terms_view(r@) == consistency_references(source@, memory@),
{
    let skey_s = normalize_consistency_key(source);
    let skey = chars_of(skey_s.as_str());
    let ghost m = memory@;
    let ghost cands = reference_candidates(m, skey@);
    let mut sorted: Vec<ConsistencyTerm> = Vec::new();
    let mut i: usize = 0;
    assert(m.take(0) =~= Seq::<(Seq<char>, Seq<char>, Seq<char>)>::empty());
    assert(terms_view(sorted@) =~= Seq::<(Seq<char>, Seq<char>)>::empty());
    while i < memory.terms.len()
        invariant
            i <= memory.terms@.len(),
            m == memory@,
            skey@ == consistency_key(source@),
            terms_view(sorted@) == sort_by_len_desc(reference_candidates(m.take(i as int), skey@)),
        decreases memory.terms@.len() - i,
    {
        let e = &memory.terms[i];
        assert(m.take(i + 1).drop_last() =~= m.take(i as int));
        assert(m.take(i + 1).last() == m[i as int]);
        assert(m[i as int] == (e.0@, e.1.source@, e.1.target@));
        let key = chars_of(e.0.as_str());
        let ghost c = reference_candidates(m.take(i as int), skey@);
        let ghost c2 = reference_candidates(m.take(i + 1), skey@);
        if utf8_len_wide(key.as_slice()) >= 3 && crate::text::contains_chars(skey.as_slice(), key.as_slice())
            && !crate::text::chars_eq(key.as_slice(), skey.as_slice()) {
            assert(c2 == c.push((m[i as int].1, m[i as int].2)));
            assert(c2.drop_last() =~= c);
            sorted = insert_by_len_exec(&sorted, copy_term(&e.1));
        } else {
            assert(c2 == c);
        }
        i = i + 1;
    }
    assert(m.take(memory.terms@.len() as int) =~= m);
    if sorted.len() > MAX_CONSISTENCY_REFERENCES {
        let ghost before = terms_view(sorted@);
        sorted.truncate(MAX_CONSISTENCY_REFERENCES);
        assert(terms_view(sorted@) =~= before.take(MAX_CONSISTENCY_REFERENCES as int));
    }
    sorted
}

} // verus!
