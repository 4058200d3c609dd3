//! `.lsx` metadata (text XML). Only some attributes are player-visible text:
//! the id is whitelisted, the type is `LSString` / `LSWString`, and the value
//! is not blank. `TranslatedString` values are contentuid handles and are
//! never touched. One scanner serves reading and writing: reading records the
//! byte span of each translatable value, writing replaces those spans in place.

use vstd::prelude::*;
use crate::formats::content_list::{decode_reference_chars, illegal_xml_char, reference_text};
use crate::text::{
    char_find, char_find_exec, chars_eq_str, chars_of, copy_range, decimal, extend_chars,
    is_blank, is_blank_chars, lemma_char_find_range, lemma_char_find_shift, string_of,
    usize_to_string, utf8_len,
};
use crate::types::TranslationEntry;

verus! {

// ─────────────────────────────────────────────────────────────
// Escaping
// ─────────────────────────────────────────────────────────────

/// Attribute text with its references resolved: at each `&` with a `;`
/// after it, a known reference is resolved and an unknown one is kept whole
/// (through its `;`); an `&` without a `;` after it ends the decoding.
pub open spec fn unescaped(s: Seq<char>) -> Seq<char>
    decreases s.len(),
{
    proof {
        lemma_char_find_range(s, '&', 0);
    }
    match char_find(s, '&', 0) {
        None => s,
        Some(p) => {
            proof {
                lemma_char_find_range(s, ';', p);
            }
            match char_find(s, ';', p) {
                None => s,
                Some(q) => s.take(p) + (match reference_text(s.subrange(p + 1, q)) {
                    Some(t) => t,
                    None => s.subrange(p, q + 1),
                }) + unescaped(s.skip(q + 1)),
            }
        },
    }
}

/// Unescapes an XML attribute value (see [`unescaped`]).
#[verifier::rlimit(40)]
pub fn unescape_attribute(value: &str) -> (r: String)
    ensures
        r@ == unescaped(value@),
{
    let s = chars_of(value);
    let n = s.len();
    let mut out: Vec<char> = Vec::new();
    let mut i: usize = 0;
    assert(s@.skip(0) =~= s@);
    assert(out@ + unescaped(s@.skip(0)) =~= unescaped(s@));
    loop
        invariant
            i <= s@.len(),
            n == s@.len(),
            s@ == value@,
            out@ + unescaped(s@.skip(i as int)) == unescaped(value@),
        decreases s@.len() - i,
    {
        let ghost rest = s@.skip(i as int);
        proof {
            lemma_char_find_shift(s@, '&', i as int, 0);
        }
        match char_find_exec(s.as_slice(), '&', i) {
            None => {
                let tail = copy_range(s.as_slice(), i, s.len());
                assert(tail@ =~= rest);
                extend_chars(&mut out, tail.as_slice());
                return string_of(out.as_slice());
            },
            Some(p) => {
                proof {
                    lemma_char_find_shift(s@, ';', i as int, p - i);
                }
                match char_find_exec(s.as_slice(), ';', p) {
                    None => {
                        let tail = copy_range(s.as_slice(), i, s.len());
                        assert(tail@ =~= rest);
                        extend_chars(&mut out, tail.as_slice());
                        return string_of(out.as_slice());
                    },
                    Some(q) => {
                        let ghost before = out@;
                        let head = copy_range(s.as_slice(), i, p);
                        extend_chars(&mut out, head.as_slice());
                        let body = copy_range(s.as_slice(), p + 1, q);
                        assert(body@ =~= rest.subrange(p - i + 1, q - i));
                        match decode_reference_chars(body.as_slice()) {
                            Some(t) => extend_chars(&mut out, t.as_slice()),
                            None => {
                                let raw = copy_range(s.as_slice(), p, q + 1);
                                assert(raw@ =~= rest.subrange(p - i, q - i + 1));
                                extend_chars(&mut out, raw.as_slice());
                            },
                        }
                        assert(head@ =~= rest.take(p - i));
                        assert(rest.skip(q - i + 1) =~= s@.skip(q + 1));
                        assert(out@ + unescaped(s@.skip(q + 1)) =~= before + (rest.take(p - i) + (match reference_text(rest.subrange(p - i + 1, q - i)) {
                            Some(t) => t,
                            None => rest.subrange(p - i, q - i + 1),
                        }) + unescaped(rest.skip(q - i + 1))));
                        i = q + 1;
                    },
                }
            },
        }
    }
}

/// How one character is written inside a double-quoted attribute value.
pub open spec fn escaped_char(c: char) -> Seq<char> {
    if c == '&' {
        "&amp;"@
    } else if c == '<' {
        "&lt;"@
    } else if c == '>' {
        "&gt;"@
    } else if c == '"' {
        "&quot;"@
    } else if c == '\'' {
        "&apos;"@
    } else if c == '\r' {
        "&#13;"@
    } else if c == '\n' {
        "&#10;"@
    } else if c == '\t' {
        "&#9;"@
    } else if illegal_xml_char(c) {
        Seq::empty()
    } else {
        seq![c]
    }
}

/// The text escaped for a double-quoted attribute value; XML-illegal
/// characters are dropped.
pub open spec fn escaped(s: Seq<char>) -> Seq<char>
    decreases s.len(),
{
    if s.len() == 0 {
        s
    } else {
        escaped(s.drop_last()) + escaped_char(s.last())
    }
}

/// Escapes text for a double-quoted attribute value (see [`escaped`]).
pub fn escape_attribute(value: &str) -> (r: String)
    ensures
        r@ == escaped(value@),
{
    let s = chars_of(value);
    let mut out = String::new();
    let mut i: usize = 0;
    assert(escaped(s@.take(0)) =~= Seq::<char>::empty());
    while i < s.len()
        invariant
            i <= s@.len(),
            s@ == value@,
            out@ == escaped(s@.take(i as int)),
        decreases s@.len() - i,
    {
        let c = s[i];
        assert(s@.take(i + 1).drop_last() =~= s@.take(i as int));
        assert(s@.take(i + 1).last() == c);
        if c == '&' {
            out.append("&amp;");
        } else if c == '<' {
            out.append("&lt;");
        } else if c == '>' {
            out.append("&gt;");
        } else if c == '"' {
            out.append("&quot;");
        } else if c == '\'' {
            out.append("&apos;");
        } else if c == '\r' {
            out.append("&#13;");
        } else if c == '\n' {
            out.append("&#10;");
        } else if c == '\t' {
            out.append("&#9;");
        } else if crate::formats::content_list::is_illegal_xml_char(c) {
            assert(out@ =~= out@ + Seq::<char>::empty());
        } else {
            crate::text::string_push(&mut out, c);
        }
        i = i + 1;
    }
    assert(s@.take(s@.len() as int) =~= s@);
    out
}

// ─────────────────────────────────────────────────────────────
// Fields and handles
// ─────────────────────────────────────────────────────────────

/// Attribute ids whose values are player-visible text. `Name` is not one of
/// them: in `meta.lsx` it is the module's internal identifier.
pub open spec fn translatable_field(id: Seq<char>) -> bool {
    id == "Description"@ || id == "DisplayName"@ || id == "Title"@ || id == "Tooltip"@ || id
        == "TooltipDescription"@
}

/// Attribute types that hold player-visible text.
pub open spec fn text_type(t: Seq<char>) -> bool {
    t == "LSString"@ || t == "LSWString"@
}

/// `Clone for Range`: copies both bounds (nothing is stated of the result).
pub assume_specification<Idx: Clone>[ <core::ops::Range<Idx> as Clone>::clone ](
    r: &core::ops::Range<Idx>,
) -> core::ops::Range<Idx>;

/// A translatable attribute of an `.lsx` file.
#[derive(Debug, Clone, PartialEq, Eq)]
pub struct LsxField {
    /// The attribute id, e.g. `Description`.
    pub id: String,
    /// The attribute type, e.g. `LSString`.
    pub value_type: String,
    /// The unescaped value.
    pub value: String,
    /// Byte span of the value in the file (without the quotes).
    pub value_span: std::ops::Range<usize>,
    /// How many translatable fields with the same id come before this one.
    pub occurrence: usize,
}

/// The handle of a field: `{id}#{occurrence}`.
pub open spec fn field_handle(id: Seq<char>, occurrence: nat) -> Seq<char> {
    id + "#"@ + decimal(occurrence)
}

impl LsxField {
    /// The contentuid used for this field: `{id}#{occurrence}`.
    pub fn contentuid(&self) -> (r: String)
        ensures
            r@ == field_handle(self.id@, self.occurrence as nat),
    {
        let mut r = self.id.clone();
        r.append("#");
        r.append(usize_to_string(self.occurrence).as_str());
        r
    }
}

/// Entries for the fields of a file, one per field, in order: the handle
/// as contentuid, version `1`, the value as source.
pub fn entries_from_fields(fields: &[LsxField], file_name: &str) -> (r: Vec<TranslationEntry>)
    ensures
        r@.len() == fields@.len(),
        forall|i: int| 0 <= i < fields@.len() ==> {
            let e = #[trigger] r@[i]@;
            &&& e.source_file == file_name@
            &&& e.contentuid == field_handle(fields@[i].id@, fields@[i].occurrence as nat)
            &&& e.version == "1"@
            &&& e.source == fields@[i].value@
            &&& e.target.len() == 0
            &&& e.status == crate::types::TranslationStatus::Pending
            &&& e.id == file_name@ + "#"@ + e.contentuid
        },
{
    let mut out: Vec<TranslationEntry> = Vec::new();
    let mut i: usize = 0;
    while i < fields.len()
        invariant
            i <= fields@.len(),
            out@.len() == i,
            forall|k: int| 0 <= k < i ==> {
                let e = #[trigger] out@[k]@;
                &&& e.source_file == file_name@
                &&& e.contentuid == field_handle(fields@[k].id@, fields@[k].occurrence as nat)
                &&& e.version == "1"@
                &&& e.source == fields@[k].value@
                &&& e.target.len() == 0
                &&& e.status == crate::types::TranslationStatus::Pending
                &&& e.id == file_name@ + "#"@ + e.contentuid
            },
        decreases fields@.len() - i,
    {
        let uid = fields[i].contentuid();
        out.push(TranslationEntry::new(file_name, uid.as_str(), "1", fields[i].value.as_str()));
        i = i + 1;
    }
    out
}

/// `usize::from_str`: an optional `+` and a non-empty run of decimal digits
/// whose value fits in `usize`.
pub open spec fn parsed_usize(s: Seq<char>) -> Option<nat> {
    let d = if s.len() > 0 && s[0] == '+' {
        s.skip(1)
    } else {
        s
    };
    if d.len() == 0 {
        None
    } else {
        match crate::formats::content_list::digits_value(d, 10) {
            Some(v) => if v <= usize::MAX {
                Some(v)
            } else {
                None
            },
            None => None,
        }
    }
}

/// Index of the last `#` in `s[..k]`.
pub open spec fn last_hash_before(s: Seq<char>, k: int) -> Option<int>
    decreases k,
{
    if k <= 0 || k > s.len() {
        None
    } else if s[k - 1] == '#' {
        Some(k - 1)
    } else {
        last_hash_before(s, k - 1)
    }
}

/// A field handle split at its last `#` into the id and a `usize` index.
pub open spec fn decoded_handle(contentuid: Seq<char>) -> Option<(Seq<char>, nat)> {
    match last_hash_before(contentuid, contentuid.len() as int) {
        Some(h) => match parsed_usize(contentuid.skip(h + 1)) {
            Some(n) => Some((contentuid.take(h), n)),
            None => None,
        },
        None => None,
    }
}

fn parse_usize_chars(s: &[char]) -> (r: Option<usize>)
    ensures
        match parsed_usize(s@) {
            Some(n) => r == Some(n as usize),
            None => r is None,
        },
{
    let start: usize = if s.len() > 0 && s[0] == '+' {
        1
    } else {
        0
    };
    assert(s@.skip(0) =~= s@);
    if start == s.len() {
        return None;
    }
    let mut v: usize = 0;
    let mut i = start;
    let ghost d = s@.skip(start as int);
    assert(d == (if s@.len() > 0 && s@[0] == '+' {
        s@.skip(1)
    } else {
        s@
    }));
    assert(d.take(0) =~= Seq::<char>::empty());
    while i < s.len()
        invariant
            start <= i <= s@.len(),
            d == s@.skip(start as int),
            d == (if s@.len() > 0 && s@[0] == '+' {
                s@.skip(1)
            } else {
                s@
            }),
            crate::formats::content_list::digits_value(d.take(i - start), 10) == Some(v as nat),
        decreases s@.len() - i,
    {
        let c = s[i];
        assert(d.take(i - start + 1).drop_last() =~= d.take(i - start));
        assert(d.take(i - start + 1).last() == c);
        if !('0' <= c && c <= '9') {
            proof {
                lemma_digits_none_at(d, i - start);
            }
            return None;
        }
        let x = (c as u32 - '0' as u32) as usize;
        if v > (usize::MAX - x) / 10 {
            proof {
                assert(v * 10 + x > usize::MAX) by (nonlinear_arith)
                    requires
                        v as int > (usize::MAX - x as int) / 10,
                        x < 10,
                ;
                lemma_digits_grow(d, i - start + 1);
            }
            return None;
        }
        proof {
            assert(v * 10 + x <= usize::MAX) by (nonlinear_arith)
                requires
                    v as int <= (usize::MAX - x as int) / 10,
                    x < 10,
            ;
        }
        v = v * 10 + x;
        i = i + 1;
    }
    assert(d.take(s@.len() - start) =~= d);
    Some(v)
}

proof fn lemma_digits_none_at(t: Seq<char>, k: int)
    requires
        0 <= k < t.len(),
        !crate::text::is_ascii_digit_spec(t[k]),
    ensures
        crate::formats::content_list::digits_value(t, 10) is None,
    decreases t.len(),
{
    if k < t.len() - 1 {
        lemma_digits_none_at(t.drop_last(), k);
    }
}

proof fn lemma_digits_grow(t: Seq<char>, k: int)
    requires
        0 < k <= t.len(),
        crate::formats::content_list::digits_value(t.take(k), 10) matches Some(v) && v > usize::MAX,
    ensures
        crate::formats::content_list::digits_value(t, 10) is None
            || (crate::formats::content_list::digits_value(t, 10) matches Some(v) && v > usize::MAX),
    decreases t.len() - k,
{
    if k < t.len() {
        assert(t.drop_last().take(k) =~= t.take(k));
        lemma_digits_grow(t.drop_last(), k);
        match crate::formats::content_list::digits_value(t.drop_last(), 10) {
            Some(v) => {
                assert(v * 10 >= v) by (nonlinear_arith);
            },
            None => {},
        }
    } else {
        assert(t.take(k) =~= t);
    }
}

/// Splits a field handle `{id}#{index}` at its last `#`.
pub fn decode_contentuid(contentuid: &str) -> (r: Option<(String, usize)>)
    ensures
        match decoded_handle(contentuid@) {
            Some((id, n)) => r matches Some((rid, rn)) && rid@ == id && rn == n,
            None => r is None,
        },
{
    let s = chars_of(contentuid);
    let n = s.len();
    let mut k = n;
    while k > 0 && s[k - 1] != '#'
        invariant
            k <= n,
            n == s@.len(),
            s@ == contentuid@,
            last_hash_before(s@, n as int) == last_hash_before(s@, k as int),
        decreases k,
    {
        k = k - 1;
    }
    if k == 0 {
        return None;
    }
    let h = k - 1;
    let tail = copy_range(s.as_slice(), h + 1, n);
    assert(tail@ =~= s@.skip(h + 1));
    match parse_usize_chars(tail.as_slice()) {
        Some(v) => {
            let id = copy_range(s.as_slice(), 0, h);
            assert(id@ =~= s@.take(h as int));
            Some((string_of(id.as_slice()), v))
        },
        None => None,
    }
}

/// The digits of `decimal(n)` are ASCII digits and read back as `n`.
proof fn lemma_decimal_digits(n: nat)
    ensures
        decimal(n).len() > 0,
        forall|i: int| 0 <= i < decimal(n).len() ==> crate::text::is_ascii_digit_spec(#[trigger] decimal(n)[i]),
        crate::formats::content_list::digits_value(decimal(n), 10) == Some(n),
    decreases n,
{
    let s = decimal(n);
    if n < 10 {
        assert(s.drop_last() =~= Seq::<char>::empty());
        assert(crate::formats::content_list::digits_value(s.drop_last(), 10) == Some(0nat));
        assert(crate::text::is_ascii_digit_spec(s.last()));
        assert((s.last() as u32 - '0' as u32) as nat == n);
    } else {
        lemma_decimal_digits(n / 10);
        assert(s.drop_last() =~= decimal(n / 10));
        let d = (n % 10) as nat;
        assert(d < 10);
        assert(crate::text::is_ascii_digit_spec(s.last()));
        assert((s.last() as u32 - '0' as u32) as nat == d);
        assert((n / 10) * 10 + d == n);
        assert forall|i: int| 0 <= i < s.len() implies crate::text::is_ascii_digit_spec(#[trigger] s[i]) by {
            if i < s.len() - 1 {
                assert(s[i] == decimal(n / 10)[i]);
            }
        }
    }
}

proof fn lemma_last_hash_at(s: Seq<char>, h: int, k: int)
    requires
        0 <= h < k <= s.len(),
        s[h] == '#',
        forall|j: int| h < j < k ==> s[j] != '#',
    ensures
        last_hash_before(s, k) == Some(h),
    decreases k,
{
    if k - 1 > h {
        lemma_last_hash_at(s, h, k - 1);
    }
}

/// A field handle decodes back to its id and occurrence, whatever the id
/// holds (a `#` in it included): the handle's last `#` is the one before
/// the occurrence.
pub proof fn law_field_handle_decodes(id: Seq<char>, occurrence: nat)
    requires
        occurrence <= usize::MAX,
    ensures
        decoded_handle(field_handle(id, occurrence)) == Some((id, occurrence)),
{
    reveal_strlit("#");
    let d = decimal(occurrence);
    let h = field_handle(id, occurrence);
    lemma_decimal_digits(occurrence);
    assert(h == id + seq!['#'] + d);
    assert(h[id.len() as int] == '#');
    assert forall|j: int| id.len() < j < h.len() implies h[j] != '#' by {
        assert(h[j] == d[j - id.len() - 1]);
    }
    lemma_last_hash_at(h, id.len() as int, h.len() as int);
    assert(h.skip(id.len() as int + 1) =~= d);
    assert(h.take(id.len() as int) =~= id);
    assert(d[0] != '+');
}

// ─────────────────────────────────────────────────────────────
// Tag scanner (character positions; byte offsets at the interface)
// ─────────────────────────────────────────────────────────────

/// First position `>= k` where `p` occurs.
pub open spec fn find_seq(s: Seq<char>, p: Seq<char>, k: int) -> Option<int>
    decreases s.len() + 1 - k,
{
    if k < 0 || k + p.len() > s.len() {
        None
    } else if s.subrange(k, k + p.len()) == p {
        Some(k)
    } else {
        find_seq(s, p, k + 1)
    }
}

pub proof fn lemma_find_seq_range(s: Seq<char>, p: Seq<char>, k: int)
    ensures
        find_seq(s, p, k) matches Some(j) ==> k <= j && j + p.len() <= s.len(),
    decreases s.len() + 1 - k,
{
    if 0 <= k && k + p.len() <= s.len() && s.subrange(k, k + p.len()) != p {
        lemma_find_seq_range(s, p, k + 1);
    }
}

fn find_seq_exec(s: &[char], p: &[char], k: usize) -> (r: Option<usize>)
    ensures
        r is None <==> find_seq(s@, p@, k as int) is None,
        r matches Some(j) ==> find_seq(s@, p@, k as int) == Some(j as int) && k <= j && j + p@.len() <= s@.len(),
{
    proof {
        lemma_find_seq_range(s@, p@, k as int);
    }
    let mut i = k;
    while i <= s.len() && p.len() <= s.len() - i
        invariant
            k <= i,
            find_seq(s@, p@, k as int) == find_seq(s@, p@, i as int),
        decreases s@.len() + 1 - i,
    {
        if crate::text::matches_at(s, p, i) {
            return Some(i);
        }
        if i == s.len() {
            assert(p@.len() > 0) by {
                if p@.len() == 0 {
                    assert(s@.subrange(i as int, i as int) =~= p@);
                }
            }
            return None;
        }
        i = i + 1;
    }
    None
}

/// A character that ends a tag name.
pub open spec fn ends_tag_name(c: char) -> bool {
    crate::text::is_ws(c) || c == '>' || c == '/'
}

/// First index `>= k` holding a character that ends a tag name.
pub open spec fn tag_name_end(s: Seq<char>, k: int) -> int
    decreases s.len() - k,
{
    if 0 <= k < s.len() && !ends_tag_name(s[k]) {
        tag_name_end(s, k + 1)
    } else {
        k
    }
}

/// The `>` that ends a tag, from `j`, skipping quoted attribute values.
pub open spec fn quoted_gt(s: Seq<char>, j: int, quote: Option<char>) -> Option<int>
    decreases s.len() - j,
{
    if j < 0 || j >= s.len() {
        None
    } else {
        match quote {
            Some(q) => if s[j] == q {
                quoted_gt(s, j + 1, None)
            } else {
                quoted_gt(s, j + 1, quote)
            },
            None => if s[j] == '"' || s[j] == '\'' {
                quoted_gt(s, j + 1, Some(s[j]))
            } else if s[j] == '>' {
                Some(j)
            } else {
                quoted_gt(s, j + 1, None)
            },
        }
    }
}

pub proof fn lemma_quoted_gt_range(s: Seq<char>, j: int, quote: Option<char>)
    ensures
        quoted_gt(s, j, quote) matches Some(g) ==> j <= g < s.len(),
    decreases s.len() - j,
{
    if 0 <= j < s.len() {
        match quote {
            Some(q) => {
                if s[j] == q {
                    lemma_quoted_gt_range(s, j + 1, None);
                } else {
                    lemma_quoted_gt_range(s, j + 1, quote);
                }
            },
            None => {
                if s[j] == '"' || s[j] == '\'' {
                    lemma_quoted_gt_range(s, j + 1, Some(s[j]));
                } else if s[j] != '>' {
                    lemma_quoted_gt_range(s, j + 1, None);
                }
            },
        }
    }
}

pub proof fn lemma_tag_name_end_ge(s: Seq<char>, k: int)
    ensures
        tag_name_end(s, k) >= k,
    decreases s.len() - k,
{
    if 0 <= k < s.len() && !ends_tag_name(s[k]) {
        lemma_tag_name_end_ge(s, k + 1);
    }
}

/// Where scanning resumes after the markup that starts at `start`, which is
/// a comment, CDATA section, processing instruction or declaration.
pub open spec fn skip_special(s: Seq<char>, start: int) -> Option<int> {
    if crate::text::occurs_at(s, "<!--"@, start) {
        Some(match find_seq(s, "-->"@, start) {
            Some(p) => p + 3,
            None => s.len() as int,
        })
    } else if crate::text::occurs_at(s, "<![CDATA["@, start) {
        Some(match find_seq(s, "]]>"@, start) {
            Some(p) => p + 3,
            None => s.len() as int,
        })
    } else if crate::text::occurs_at(s, "<?"@, start) || crate::text::occurs_at(s, "<!"@, start) {
        Some(match char_find(s, '>', start) {
            Some(p) => p + 1,
            None => s.len() as int,
        })
    } else {
        None
    }
}

/// The character spans `[start, end)` of the start tags named `name` from
/// `i` on, skipping comments, CDATA, processing instructions and
/// declarations; quoted attribute values may hold `>`. A tag without its
/// `>` ends the scan.
pub open spec fn tag_spans_from(s: Seq<char>, i: int, name: Seq<char>) -> Seq<(int, int)>
    decreases s.len() - i,
{
    if i < 0 || i >= s.len() {
        Seq::empty()
    } else {
        proof {
            lemma_char_find_range(s, '<', i);
        }
        match char_find(s, '<', i) {
            None => Seq::empty(),
            Some(start) => {
                proof {
                    lemma_find_seq_range(s, "-->"@, start);
                    lemma_find_seq_range(s, "]]>"@, start);
                    lemma_char_find_range(s, '>', start);
                    lemma_tag_name_end_ge(s, start + 1);
                    lemma_quoted_gt_range(s, tag_name_end(s, start + 1), None);
                }
                match skip_special(s, start) {
                    Some(next) => if i < next <= s.len() {
                        tag_spans_from(s, next, name)
                    } else {
                        Seq::empty()
                    },
                    None => {
                        let ne = tag_name_end(s, start + 1);
                        match quoted_gt(s, ne, None) {
                            None => Seq::empty(),
                            Some(g) => if s.subrange(start + 1, ne) == name {
                                seq![(start, g + 1)] + tag_spans_from(s, g + 1, name)
                            } else {
                                tag_spans_from(s, g + 1, name)
                            },
                        }
                    },
                }
            },
        }
    }
}

fn tag_name_end_exec(s: &[char], k: usize) -> (r: usize)
    requires
        k <= s@.len(),
    ensures
        r == tag_name_end(s@, k as int),
        k <= r <= s@.len(),
{
    let mut i = k;
    while i < s.len() && !(crate::text::is_whitespace(s[i]) || s[i] == '>' || s[i] == '/')
        invariant
            k <= i <= s@.len(),
            tag_name_end(s@, k as int) == tag_name_end(s@, i as int),
        decreases s@.len() - i,
    {
        i = i + 1;
    }
    i
}

fn quoted_gt_exec(s: &[char], from: usize) -> (r: Option<usize>)
    ensures
        match quoted_gt(s@, from as int, None) {
            Some(g) => r == Some(g as usize) && from <= g < s@.len(),
            None => r is None,
        },
{
    proof {
        lemma_quoted_gt_range(s@, from as int, None);
    }
    let mut quote: Option<char> = None;
    let mut i = from;
    while i < s.len()
        invariant
            from <= i,
            quoted_gt(s@, from as int, None) == quoted_gt(s@, i as int, quote),
        decreases s@.len() - i,
    {
        let c = s[i];
        match quote {
            Some(q) => {
                if c == q {
                    quote = None;
                }
            },
            None => {
                if c == '"' || c == '\'' {
                    quote = Some(c);
                } else if c == '>' {
                    return Some(i);
                }
            },
        }
        i = i + 1;
    }
    None
}

fn skip_special_exec(s: &[char], start: usize) -> (r: Option<usize>)
    requires
        start < s@.len(),
    ensures
        match skip_special(s@, start as int) {
            Some(n) => r == Some(n as usize) && start < n <= s@.len(),
            None => r is None,
        },
{
    let n = s.len();
    assert(start < n);
    let open_comment = chars_of("<!--");
    let open_cdata = chars_of("<![CDATA[");
    let open_pi = chars_of("<?");
    let open_decl = chars_of("<!");
    if crate::text::matches_at(s, open_comment.as_slice(), start) {
        let close = chars_of("-->");
        proof {
            reveal_strlit("-->");
        }
        return match find_seq_exec(s, close.as_slice(), start) {
            Some(p) => Some(p + 3),
            None => Some(s.len()),
        };
    }
    if crate::text::matches_at(s, open_cdata.as_slice(), start) {
        let close = chars_of("]]>");
        proof {
            reveal_strlit("]]>");
        }
        return match find_seq_exec(s, close.as_slice(), start) {
            Some(p) => Some(p + 3),
            None => Some(s.len()),
        };
    }
    if crate::text::matches_at(s, open_pi.as_slice(), start) || crate::text::matches_at(s, open_decl.as_slice(), start) {
        proof {
            lemma_char_find_range(s@, '>', start as int);
        }
        return match char_find_exec(s, '>', start) {
            Some(p) => Some(p + 1),
            None => Some(s.len()),
        };
    }
    None
}

fn tag_spans_exec(s: &[char], name: &[char]) -> (r: Vec<(usize, usize)>)
    ensures
        r@.map_values(|p: (usize, usize)| (p.0 as int, p.1 as int)) == tag_spans_from(s@, 0, name@),
{
    let mut out: Vec<(usize, usize)> = Vec::new();
    let mut i: usize = 0;
    assert(out@.map_values(|p: (usize, usize)| (p.0 as int, p.1 as int)) + tag_spans_from(s@, 0, name@) =~= tag_spans_from(s@, 0, name@));
    loop
        invariant
            i <= s@.len(),
            out@.map_values(|p: (usize, usize)| (p.0 as int, p.1 as int)) + tag_spans_from(s@, i as int, name@) == tag_spans_from(s@, 0, name@),
        decreases s@.len() - i,
    {
        let ghost before = out@.map_values(|p: (usize, usize)| (p.0 as int, p.1 as int));
        if i >= s.len() {
            assert(before + Seq::<(int, int)>::empty() =~= before);
            return out;
        }
        match char_find_exec(s, '<', i) {
            None => {
                assert(before + Seq::<(int, int)>::empty() =~= before);
                return out;
            },
            Some(start) => {
                match skip_special_exec(s, start) {
                    Some(next) => {
                        i = next;
                    },
                    None => {
                        let ne = tag_name_end_exec(s, start + 1);
                        match quoted_gt_exec(s, ne) {
                            None => {
                                assert(before + Seq::<(int, int)>::empty() =~= before);
                                return out;
                            },
                            Some(g) => {
                                let tag_name = copy_range(s, start + 1, ne);
                                if crate::text::chars_eq(tag_name.as_slice(), name) {
                                    out.push((start, g + 1));
                                    assert(out@.map_values(|p: (usize, usize)| (p.0 as int, p.1 as int)) =~= before.push((start as int, g + 1)));
                                    assert(before.push((start as int, g + 1)) + tag_spans_from(s@, g + 1, name@) =~= before + (seq![(start as int, g + 1)] + tag_spans_from(s@, g + 1, name@)));
                                }
                                i = g + 1;
                            },
                        }
                    },
                }
            },
        }
    }
}

// ─────────────────────────────────────────────────────────────
// Attributes of a start tag
// ─────────────────────────────────────────────────────────────

/// ASCII whitespace as `u8::is_ascii_whitespace` defines it.
pub open spec fn is_xml_space(c: char) -> bool {
    c == ' ' || c == '\t' || c == '\n' || c == '\u{C}' || c == '\r'
}

fn xml_space(c: char) -> (r: bool)
    ensures
        r == is_xml_space(c),
{
    c == ' ' || c == '\t' || c == '\n' || c == '\u{C}' || c == '\r'
}

/// How a scan over `s[i..end]` stops.
#[derive(Clone, Copy)]
pub enum Stop {
    /// past whitespace and `/`
    SpaceSlash,
    /// past whitespace
    Space,
    /// at `=`, whitespace or `>` (end of an attribute name)
    KeyEnd,
    /// at whitespace, `>` or `/` (end of a tag name)
    NameEnd,
}

pub open spec fn keeps_going(stop: Stop, c: char) -> bool {
    match stop {
        Stop::SpaceSlash => is_xml_space(c) || c == '/',
        Stop::Space => is_xml_space(c),
        Stop::KeyEnd => c != '=' && !is_xml_space(c) && c != '>',
        Stop::NameEnd => !is_xml_space(c) && c != '>' && c != '/',
    }
}

/// First index `>= i` (below `end`) where the scan stops.
pub open spec fn scan_stop(s: Seq<char>, i: int, end: int, stop: Stop) -> int
    decreases end - i,
{
    if 0 <= i < end && i < s.len() && keeps_going(stop, s[i]) {
        scan_stop(s, i + 1, end, stop)
    } else {
        i
    }
}

/// First index `>= i` (below `end`) holding `q`, else where the scan stops.
pub open spec fn value_close(s: Seq<char>, i: int, end: int, q: char) -> int
    decreases end - i,
{
    if 0 <= i < end && i < s.len() && s[i] != q {
        value_close(s, i + 1, end, q)
    } else {
        i
    }
}

fn keeps_going_exec(stop: Stop, c: char) -> (r: bool)
    ensures
        r == keeps_going(stop, c),
{
    match stop {
        Stop::SpaceSlash => xml_space(c) || c == '/',
        Stop::Space => xml_space(c),
        Stop::KeyEnd => c != '=' && !xml_space(c) && c != '>',
        Stop::NameEnd => !xml_space(c) && c != '>' && c != '/',
    }
}

fn scan_stop_exec(s: &[char], i: usize, end: usize, stop: Stop) -> (r: usize)
    ensures
        r == scan_stop(s@, i as int, end as int, stop),
        i <= r,
        r <= end || r == i,
{
    let mut k = i;
    while k < end && k < s.len() && keeps_going_exec(stop, s[k])
        invariant
            i <= k,
            k <= end || k == i,
            scan_stop(s@, i as int, end as int, stop) == scan_stop(s@, k as int, end as int, stop),
        decreases end - k,
    {
        k = k + 1;
    }
    k
}

fn value_close_exec(s: &[char], i: usize, end: usize, q: char) -> (r: usize)
    ensures
        r == value_close(s@, i as int, end as int, q),
        i <= r,
        r <= end || r == i,
{
    let mut k = i;
    while k < end && k < s.len() && s[k] != q
        invariant
            i <= k,
            k <= end || k == i,
            value_close(s@, i as int, end as int, q) == value_close(s@, k as int, end as int, q),
        decreases end - k,
    {
        k = k + 1;
    }
    k
}

/// Attributes read from a tag: names in first-seen order, each with its raw
/// value and the value's character span; a repeated name keeps the last value.
pub struct AttrModel {
    pub keys: Seq<Seq<char>>,
    pub vals: Seq<(Seq<char>, int, int)>,
}

pub open spec fn attr_put(m: AttrModel, k: Seq<char>, v: (Seq<char>, int, int)) -> AttrModel {
    match crate::translation::series::key_index(m.keys, k) {
        Some(i) => AttrModel { keys: m.keys, vals: m.vals.update(i, v) },
        None => AttrModel { keys: m.keys.push(k), vals: m.vals.push(v) },
    }
}

pub open spec fn attr_get(m: AttrModel, k: Seq<char>) -> Option<(Seq<char>, int, int)> {
    match crate::translation::series::key_index(m.keys, k) {
        Some(i) => Some(m.vals[i]),
        None => None,
    }
}

/// The attributes `name="v"` / `name='v'` of `s[i..end]`: names stop at `=`,
/// whitespace or `>`; a name without `=` or without a quoted value is
/// skipped; an unterminated value runs to `end`.
pub open spec fn attrs_from(s: Seq<char>, i: int, end: int, acc: AttrModel) -> AttrModel
    decreases end - i,
{
    let a = scan_stop(s, i, end, Stop::SpaceSlash);
    if a >= end || a >= s.len() || a < 0 || s[a] == '>' {
        acc
    } else {
        let ke = scan_stop(s, a, end, Stop::KeyEnd);
        let key = s.subrange(a, ke);
        let b = scan_stop(s, ke, end, Stop::Space);
        if b >= end || b >= s.len() || s[b] != '=' {
            if i < b <= end {
                attrs_from(s, b, end, acc)
            } else {
                acc
            }
        } else {
            let c = scan_stop(s, b + 1, end, Stop::Space);
            if c >= end || c >= s.len() || (s[c] != '"' && s[c] != '\'') {
                if i < c <= end {
                    attrs_from(s, c, end, acc)
                } else {
                    acc
                }
            } else {
                let ve = value_close(s, c + 1, end, s[c]);
                let next = if ve < end {
                    ve + 1
                } else {
                    ve
                };
                let acc2 = if key.len() > 0 {
                    attr_put(acc, key, (s.subrange(c + 1, ve), c + 1, ve))
                } else {
                    acc
                };
                if i < next <= end {
                    attrs_from(s, next, end, acc2)
                } else {
                    acc2
                }
            }
        }
    }
}

/// The attributes of the start tag at `s[start..end]`.
pub open spec fn attributes_of(s: Seq<char>, start: int, end: int) -> AttrModel {
    attrs_from(
        s,
        scan_stop(s, start + 1, end, Stop::NameEnd),
        end,
        AttrModel { keys: Seq::empty(), vals: Seq::empty() },
    )
}

struct Attrs {
    keys: Vec<Vec<char>>,
    texts: Vec<Vec<char>>,
    starts: Vec<usize>,
    ends: Vec<usize>,
}

spec fn attrs_view(a: Attrs) -> AttrModel {
    AttrModel {
        keys: crate::text::seqs_of(a.keys@),
        vals: Seq::new(a.texts@.len(), |i: int| (a.texts@[i]@, a.starts@[i] as int, a.ends@[i] as int)),
    }
}

spec fn attrs_wf(a: Attrs) -> bool {
    a.keys@.len() == a.texts@.len() && a.texts@.len() == a.starts@.len() && a.starts@.len() == a.ends@.len()
}

fn key_index_of(keys: &Vec<Vec<char>>, k: &[char]) -> (r: Option<usize>)
    ensures
        match r {
            Some(j) => crate::translation::series::key_index(crate::text::seqs_of(keys@), k@) == Some(j as int) && j < keys@.len(),
            None => crate::translation::series::key_index(crate::text::seqs_of(keys@), k@) is None,
        },
{
    let ghost ks = crate::text::seqs_of(keys@);
    proof {
        crate::translation::series::lemma_key_index(ks, k@);
    }
    let mut i: usize = 0;
    while i < keys.len()
        invariant
            i <= keys@.len(),
            ks == crate::text::seqs_of(keys@),
            forall|j: int| 0 <= j < i ==> ks[j] != k@,
        decreases keys@.len() - i,
    {
        if crate::text::chars_eq(keys[i].as_slice(), k) {
            assert(ks[i as int] == k@);
            proof {
                crate::translation::series::lemma_key_index(ks, k@);
                match crate::translation::series::key_index(ks, k@) {
                    Some(m) => {
                        if m < i {
                            assert(ks[m] != k@);
                        }
                        if m > i {
                            assert(ks[i as int] != k@);
                        }
                    },
                    None => {},
                }
            }
            return Some(i);
        }
        assert(ks[i as int] == keys@[i as int]@);
        i = i + 1;
    }
    None
}

fn attrs_put_exec(a: Attrs, k: Vec<char>, t: Vec<char>, vs: usize, ve: usize) -> (r: Attrs)
    requires
        attrs_wf(a),
    ensures
        attrs_wf(r),
        attrs_view(r) == attr_put(attrs_view(a), k@, (t@, vs as int, ve as int)),
{
    let ghost m0 = attrs_view(a);
    let mut a = a;
    match key_index_of(&a.keys, k.as_slice()) {
        Some(i) => {
            a.texts.set(i, t);
            a.starts.set(i, vs);
            a.ends.set(i, ve);
            assert(attrs_view(a).vals =~= m0.vals.update(i as int, (attrs_view(a).vals[i as int])));
            a
        },
        None => {
            crate::text::push_token(&mut a.keys, k);
            a.texts.push(t);
            a.starts.push(vs);
            a.ends.push(ve);
            assert(attrs_view(a).vals =~= m0.vals.push(attrs_view(a).vals.last()));
            a
        },
    }
}

fn attributes_exec(s: &[char], start: usize, end: usize) -> (r: Attrs)
    requires
        end <= s@.len(),
    ensures
        attrs_wf(r),
        attrs_view(r) == attributes_of(s@, start as int, end as int),
{
    let n = s.len();
    let mut acc = Attrs { keys: Vec::new(), texts: Vec::new(), starts: Vec::new(), ends: Vec::new() };
    assert(attrs_view(acc) == (AttrModel { keys: Seq::empty(), vals: Seq::empty() })) by {
        assert(crate::text::seqs_of(acc.keys@) =~= Seq::<Seq<char>>::empty());
        assert(attrs_view(acc).vals =~= Seq::<(Seq<char>, int, int)>::empty());
    }
    if start >= n {
        proof {
            assert(scan_stop(s@, start + 1, end as int, Stop::NameEnd) == start + 1);
            assert(scan_stop(s@, start + 1, end as int, Stop::SpaceSlash) == start + 1);
            assert(attrs_view(acc) == attributes_of(s@, start as int, end as int));
        }
        return acc;
    }
    let mut i = scan_stop_exec(s, start + 1, end, Stop::NameEnd);
    let ghost goal = attributes_of(s@, start as int, end as int);
    loop
        invariant
            end <= s@.len(),
            n == s@.len(),
            attrs_wf(acc),
            goal == attributes_of(s@, start as int, end as int),
            attrs_from(s@, i as int, end as int, attrs_view(acc)) == goal,
        decreases end - i,
    {
        let a = scan_stop_exec(s, i, end, Stop::SpaceSlash);
        if a >= end || a >= s.len() || s[a] == '>' {
            assert(attrs_view(acc) == goal);
            return acc;
        }
        let ke = scan_stop_exec(s, a, end, Stop::KeyEnd);
        let b = scan_stop_exec(s, ke, end, Stop::Space);
        if b >= end || b >= s.len() || s[b] != '=' {
            if i < b && b <= end {
                i = b;
                continue;
            }
            return acc;
        }
        let c = scan_stop_exec(s, b + 1, end, Stop::Space);
        if c >= end || c >= s.len() || (s[c] != '"' && s[c] != '\'') {
            if i < c && c <= end {
                i = c;
                continue;
            }
            return acc;
        }
        let ve = value_close_exec(s, c + 1, end, s[c]);
        let next = if ve < end {
            ve + 1
        } else {
            ve
        };
        if ke > a {
            let key = copy_range(s, a, ke);
            let text = copy_range(s, c + 1, ve);
            acc = attrs_put_exec(acc, key, text, c + 1, ve);
        }
        if i < next && next <= end {
            i = next;
        } else {
            return acc;
        }
    }
}

// ─────────────────────────────────────────────────────────────
// Byte offsets
// ─────────────────────────────────────────────────────────────

/// Byte offset of character position `k` (the UTF-8 length of `s[..k]`).
pub open spec fn byte_of(s: Seq<char>, k: int) -> int {
    utf8_len(s.take(k)) as int
}

/// The first character position `>= k` whose byte offset reaches `b`
/// (the text's length when none does).
pub open spec fn char_at_byte(s: Seq<char>, b: int, k: int) -> int
    decreases s.len() - k,
{
    if 0 <= k < s.len() && byte_of(s, k) < b {
        char_at_byte(s, b, k + 1)
    } else {
        k
    }
}

/// Byte offsets of every character position `0..=len`.
fn byte_offsets(s: &[char], total: usize) -> (r: Vec<usize>)
    requires
        utf8_len(s@) == total,
    ensures
        r@.len() == s@.len() + 1,
        forall|k: int| 0 <= k <= s@.len() ==> r@[k] == byte_of(s@, k),
{
    let mut r: Vec<usize> = Vec::new();
    let mut b: usize = 0;
    let mut i: usize = 0;
    assert(s@.take(0) =~= Seq::<char>::empty());
    r.push(0);
    while i < s.len()
        invariant
            i <= s@.len(),
            utf8_len(s@) == total,
            r@.len() == i + 1,
            b == byte_of(s@, i as int),
            forall|k: int| 0 <= k <= i ==> r@[k] == byte_of(s@, k),
        decreases s@.len() - i,
    {
        proof {
            crate::text::lemma_utf8_len_push(s@.take(i as int), s@[i as int]);
            assert(s@.take(i + 1) =~= s@.take(i as int).push(s@[i as int]));
            crate::text::lemma_utf8_len_prefix(s@, i + 1);
        }
        b = b + crate::text::char_len_utf8(s[i]);
        r.push(b);
        i = i + 1;
    }
    r
}

fn char_at_byte_exec(offsets: &Vec<usize>, s: &[char], b: usize) -> (r: usize)
    requires
        offsets@.len() == s@.len() + 1,
        forall|k: int| 0 <= k <= s@.len() ==> offsets@[k] == byte_of(s@, k),
    ensures
        r == char_at_byte(s@, b as int, 0),
        r <= s@.len(),
{
    let mut k: usize = 0;
    while k < s.len() && offsets[k] < b
        invariant
            k <= s@.len(),
            offsets@.len() == s@.len() + 1,
            forall|j: int| 0 <= j <= s@.len() ==> offsets@[j] == byte_of(s@, j),
            char_at_byte(s@, b as int, 0) == char_at_byte(s@, b as int, k as int),
        decreases s@.len() - k,
    {
        k = k + 1;
    }
    k
}

/// Byte span `[start, end)` of a start tag.
#[derive(Debug, Clone, PartialEq, Eq)]
pub struct TagSpan {
    pub start: usize,
    pub end: usize,
}

/// The byte spans of the start tags named `name` (see [`tag_spans_from`]).
pub fn find_tags(xml: &str, name: &str) -> (r: Vec<TagSpan>)
    ensures
        r@.len() == tag_spans_from(xml@, 0, name@).len(),
        forall|i: int| 0 <= i < r@.len() ==> {
            &&& (#[trigger] r@[i]).start == byte_of(xml@, tag_spans_from(xml@, 0, name@)[i].0)
            &&& r@[i].end == byte_of(xml@, tag_spans_from(xml@, 0, name@)[i].1)
        },
{
    let s = chars_of(xml);
    let nv = chars_of(name);
    let total = crate::text::str_utf8_len(xml);
    let offsets = byte_offsets(s.as_slice(), total);
    let spans = tag_spans_exec(s.as_slice(), nv.as_slice());
    let ghost sp = tag_spans_from(xml@, 0, name@);
    proof {
        lemma_spans_in_range(s@, 0, name@);
    }
    let mut out: Vec<TagSpan> = Vec::new();
    let mut i: usize = 0;
    while i < spans.len()
        invariant
            i <= spans@.len(),
            s@ == xml@,
            sp == tag_spans_from(xml@, 0, name@),
            spans@.map_values(|p: (usize, usize)| (p.0 as int, p.1 as int)) == sp,
            offsets@.len() == s@.len() + 1,
            forall|k: int| 0 <= k <= s@.len() ==> offsets@[k] == byte_of(s@, k),
            forall|j: int| 0 <= j < sp.len() ==> 0 <= (#[trigger] sp[j]).0 <= sp[j].1 <= s@.len(),
            out@.len() == i,
            forall|j: int| 0 <= j < i ==> {
                &&& (#[trigger] out@[j]).start == byte_of(xml@, sp[j].0)
                &&& out@[j].end == byte_of(xml@, sp[j].1)
            },
        decreases spans@.len() - i,
    {
        let (a, b) = spans[i];
        assert(sp[i as int] == (a as int, b as int));
        out.push(TagSpan { start: offsets[a], end: offsets[b] });
        i = i + 1;
    }
    out
}

/// Every span lies inside the text, in order.
pub proof fn lemma_spans_in_range(s: Seq<char>, i: int, name: Seq<char>)
    ensures
        forall|j: int| 0 <= j < tag_spans_from(s, i, name).len() ==> 0 <= (#[trigger] tag_spans_from(s, i, name)[j]).0 <= tag_spans_from(s, i, name)[j].1 <= s.len(),
    decreases s.len() - i,
{
    if 0 <= i < s.len() {
        lemma_char_find_range(s, '<', i);
        match char_find(s, '<', i) {
            None => {
                assert(tag_spans_from(s, i, name) =~= Seq::<(int, int)>::empty());
            },
            Some(start) => {
                lemma_find_seq_range(s, "-->"@, start);
                lemma_find_seq_range(s, "]]>"@, start);
                lemma_char_find_range(s, '>', start);
                lemma_tag_name_end_ge(s, start + 1);
                lemma_quoted_gt_range(s, tag_name_end(s, start + 1), None);
                match skip_special(s, start) {
                    Some(next) => {
                        if i < next <= s.len() {
                            lemma_spans_in_range(s, next, name);
                            assert(tag_spans_from(s, i, name) == tag_spans_from(s, next, name));
                        } else {
                            assert(tag_spans_from(s, i, name) =~= Seq::<(int, int)>::empty());
                        }
                    },
                    None => {
                        let ne = tag_name_end(s, start + 1);
                        match quoted_gt(s, ne, None) {
                            None => {
                                assert(tag_spans_from(s, i, name) =~= Seq::<(int, int)>::empty());
                            },
                            Some(g) => {
                                lemma_spans_in_range(s, g + 1, name);
                                let rest = tag_spans_from(s, g + 1, name);
                                if s.subrange(start + 1, ne) != name {
                                    assert(tag_spans_from(s, i, name) == rest);
                                }
                                if s.subrange(start + 1, ne) == name {
                                    assert(tag_spans_from(s, i, name) == seq![(start, g + 1)] + rest);
                                    assert forall|j: int| 0 <= j < tag_spans_from(s, i, name).len() implies 0 <= (#[trigger] tag_spans_from(s, i, name)[j]).0 <= tag_spans_from(s, i, name)[j].1 <= s.len() by {
                                        if j > 0 {
                                            assert(tag_spans_from(s, i, name)[j] == rest[j - 1]);
                                        } else {
                                            assert(tag_spans_from(s, i, name)[j] == (start, g + 1));
                                        }
                                    }
                                }
                            },
                        }
                    },
                }
            },
        }
    }
}

/// An attribute value as written, with its byte span (without the quotes).
#[derive(Debug, Clone, PartialEq, Eq)]
pub struct RawValue {
    pub text: String,
    pub span: std::ops::Range<usize>,
}

/// The attributes of a start tag, by name.
#[derive(Debug, Clone, PartialEq, Eq)]
pub struct AttributeMap {
    entries: Vec<(String, RawValue)>,
}

impl AttributeMap {
    /// Names, raw values and byte spans, in first-seen order.
    pub closed spec fn model(&self) -> AttrModel {
        AttrModel {
            keys: self.entries@.map_values(|e: (String, RawValue)| e.0@),
            vals: self.entries@.map_values(|e: (String, RawValue)| (e.1.text@, e.1.span.start as int, e.1.span.end as int)),
        }
    }

    /// The value of the attribute `key`.
    pub fn get(&self, key: &str) -> (r: Option<&RawValue>)
        ensures
            match attr_get(self.model(), key@) {
                Some(v) => r matches Some(x) && x.text@ == v.0 && x.span.start == v.1 && x.span.end == v.2,
                None => r is None,
            },
    {
        let k = chars_of(key);
        let ghost ks = self.model().keys;
        proof {
            crate::translation::series::lemma_key_index(ks, key@);
        }
        let mut i: usize = 0;
        while i < self.entries.len()
            invariant
                i <= self.entries@.len(),
                k@ == key@,
                ks == self.model().keys,
                forall|j: int| 0 <= j < i ==> ks[j] != key@,
            decreases self.entries@.len() - i,
        {
            let kv = chars_of(self.entries[i].0.as_str());
            assert(ks[i as int] == self.entries@[i as int].0@);
            if crate::text::chars_eq(kv.as_slice(), k.as_slice()) {
                proof {
                    crate::translation::series::lemma_key_index(ks, key@);
                    match crate::translation::series::key_index(ks, key@) {
                        Some(m) => {
                            if m < i {
                                assert(ks[m] != key@);
                            }
                            if m > i {
                                assert(ks[i as int] != key@);
                            }
                        },
                        None => {},
                    }
                }
                return Some(&self.entries[i].1);
            }
            i = i + 1;
        }
        None
    }

    /// Number of distinct attribute names.
    pub fn len(&self) -> (r: usize)
        ensures
            r == self.model().keys.len(),
    {
        self.entries.len()
    }
}

/// The attribute model with character spans turned into byte spans.
pub open spec fn attrs_in_bytes(s: Seq<char>, m: AttrModel) -> AttrModel {
    AttrModel {
        keys: m.keys,
        vals: m.vals.map_values(|v: (Seq<char>, int, int)| (v.0, byte_of(s, v.1), byte_of(s, v.2))),
    }
}

/// Parses the attributes of the start tag at the byte span `tag` (see
/// [`attrs_from`]); values keep their escapes and carry byte spans.
pub fn parse_attributes(xml: &str, tag: &TagSpan) -> (r: AttributeMap)
    ensures
        r.model() == attrs_in_bytes(
            xml@,
            attributes_of(xml@, char_at_byte(xml@, tag.start as int, 0), char_at_byte(xml@, tag.end as int, 0)),
        ),
{
    let s = chars_of(xml);
    let total = crate::text::str_utf8_len(xml);
    let offsets = byte_offsets(s.as_slice(), total);
    let cs = char_at_byte_exec(&offsets, s.as_slice(), tag.start);
    let ce = char_at_byte_exec(&offsets, s.as_slice(), tag.end);
    let attrs = attributes_exec(s.as_slice(), cs, ce);
    let ghost m = attrs_view(attrs);
    proof {
        lemma_attr_spans(s@, cs as int, ce as int);
    }
    let mut entries: Vec<(String, RawValue)> = Vec::new();
    let mut i: usize = 0;
    while i < attrs.keys.len()
        invariant
            i <= attrs.keys@.len(),
            attrs_wf(attrs),
            m == attrs_view(attrs),
            s@ == xml@,
            offsets@.len() == s@.len() + 1,
            forall|k: int| 0 <= k <= s@.len() ==> offsets@[k] == byte_of(s@, k),
            forall|j: int| 0 <= j < m.vals.len() ==> 0 <= (#[trigger] m.vals[j]).1 <= m.vals[j].2 <= s@.len(),
            entries@.len() == i,
            forall|j: int| 0 <= j < i ==> {
                &&& (#[trigger] entries@[j]).0@ == m.keys[j]
                &&& entries@[j].1.text@ == m.vals[j].0
                &&& entries@[j].1.span.start == byte_of(s@, m.vals[j].1)
                &&& entries@[j].1.span.end == byte_of(s@, m.vals[j].2)
            },
        decreases attrs.keys@.len() - i,
    {
        assert(m.keys[i as int] == attrs.keys@[i as int]@);
        assert(m.vals[i as int] == (attrs.texts@[i as int]@, attrs.starts@[i as int] as int, attrs.ends@[i as int] as int));
        let a = attrs.starts[i];
        let b = attrs.ends[i];
        entries.push((
            string_of(attrs.keys[i].as_slice()),
            RawValue { text: string_of(attrs.texts[i].as_slice()), span: std::ops::Range { start: offsets[a], end: offsets[b] } },
        ));
        i = i + 1;
    }
    let r = AttributeMap { entries };
    assert(r.model().keys =~= m.keys);
    assert(r.model().vals =~= attrs_in_bytes(s@, m).vals);
    r
}

/// Attribute value spans lie inside the tag.
pub proof fn lemma_attr_spans(s: Seq<char>, start: int, end: int)
    requires
        0 <= end <= s.len(),
    ensures
        attributes_of(s, start, end).keys.len() == attributes_of(s, start, end).vals.len(),
        forall|j: int| 0 <= j < attributes_of(s, start, end).vals.len() ==> 0 <= (#[trigger] attributes_of(s, start, end).vals[j]).1 <= attributes_of(s, start, end).vals[j].2 <= s.len(),
{
    lemma_attrs_from_spans(s, scan_stop(s, start + 1, end, Stop::NameEnd), end, AttrModel { keys: Seq::empty(), vals: Seq::empty() });
}

proof fn lemma_scan_stop_range(s: Seq<char>, i: int, end: int, stop: Stop)
    ensures
        scan_stop(s, i, end, stop) >= i,
        i <= end ==> scan_stop(s, i, end, stop) <= end,
    decreases end - i,
{
    if 0 <= i < end && i < s.len() && keeps_going(stop, s[i]) {
        lemma_scan_stop_range(s, i + 1, end, stop);
    }
}

proof fn lemma_value_close_range(s: Seq<char>, i: int, end: int, q: char)
    ensures
        value_close(s, i, end, q) >= i,
        i <= end ==> value_close(s, i, end, q) <= end,
    decreases end - i,
{
    if 0 <= i < end && i < s.len() && s[i] != q {
        lemma_value_close_range(s, i + 1, end, q);
    }
}

proof fn lemma_attrs_from_spans(s: Seq<char>, i: int, end: int, acc: AttrModel)
    requires
        0 <= end <= s.len(),
        acc.keys.len() == acc.vals.len(),
        forall|j: int| 0 <= j < acc.vals.len() ==> 0 <= (#[trigger] acc.vals[j]).1 <= acc.vals[j].2 <= s.len(),
    ensures
        attrs_from(s, i, end, acc).keys.len() == attrs_from(s, i, end, acc).vals.len(),
        forall|j: int| 0 <= j < attrs_from(s, i, end, acc).vals.len() ==> 0 <= (#[trigger] attrs_from(s, i, end, acc).vals[j]).1 <= attrs_from(s, i, end, acc).vals[j].2 <= s.len(),
    decreases end - i,
{
    let a = scan_stop(s, i, end, Stop::SpaceSlash);
    lemma_scan_stop_range(s, i, end, Stop::SpaceSlash);
    if a >= end || a >= s.len() || a < 0 || s[a] == '>' {
        assert(attrs_from(s, i, end, acc) == acc);
    } else {
        let ke = scan_stop(s, a, end, Stop::KeyEnd);
        lemma_scan_stop_range(s, a, end, Stop::KeyEnd);
        let b = scan_stop(s, ke, end, Stop::Space);
        lemma_scan_stop_range(s, ke, end, Stop::Space);
        if b >= end || b >= s.len() || s[b] != '=' {
            if i < b <= end {
                lemma_attrs_from_spans(s, b, end, acc);
                assert(attrs_from(s, i, end, acc) == attrs_from(s, b, end, acc));
            } else {
                assert(attrs_from(s, i, end, acc) == acc);
            }
        } else {
            let c = scan_stop(s, b + 1, end, Stop::Space);
            lemma_scan_stop_range(s, b + 1, end, Stop::Space);
            if c >= end || c >= s.len() || (s[c] != '"' && s[c] != '\'') {
                if i < c <= end {
                    lemma_attrs_from_spans(s, c, end, acc);
                    assert(attrs_from(s, i, end, acc) == attrs_from(s, c, end, acc));
                } else {
                    assert(attrs_from(s, i, end, acc) == acc);
                }
            } else {
                let ve = value_close(s, c + 1, end, s[c]);
                lemma_value_close_range(s, c + 1, end, s[c]);
                let next = if ve < end {
                    ve + 1
                } else {
                    ve
                };
                let key = s.subrange(a, ke);
                let acc2 = if key.len() > 0 {
                    attr_put(acc, key, (s.subrange(c + 1, ve), c + 1, ve))
                } else {
                    acc
                };
                crate::translation::series::lemma_key_index(acc.keys, key);
                assert(acc2.keys.len() == acc2.vals.len());
                assert forall|j: int| 0 <= j < acc2.vals.len() implies 0 <= (#[trigger] acc2.vals[j]).1 <= acc2.vals[j].2 <= s.len() by {
                    if key.len() > 0 {
                        match crate::translation::series::key_index(acc.keys, key) {
                            Some(x) => {
                                if j != x {
                                    assert(acc2.vals[j] == acc.vals[j]);
                                }
                            },
                            None => {
                                if j < acc.vals.len() {
                                    assert(acc2.vals[j] == acc.vals[j]);
                                }
                            },
                        }
                    }
                }
                if i < next <= end {
                    lemma_attrs_from_spans(s, next, end, acc2);
                    assert(attrs_from(s, i, end, acc) == attrs_from(s, next, end, acc2));
                } else {
                    assert(attrs_from(s, i, end, acc) == acc2);
                }
            }
        }
    }
}


// ─────────────────────────────────────────────────────────────
// Scanning for translatable fields
// ─────────────────────────────────────────────────────────────

/// A translatable field as the scanner reports it, with a byte span.
pub struct FieldModel {
    pub id: Seq<char>,
    pub value_type: Seq<char>,
    pub value: Seq<char>,
    pub start: int,
    pub end: int,
    pub occurrence: nat,
}

/// The model of a field.
pub open spec fn field_model(f: LsxField) -> FieldModel {
    FieldModel {
        id: f.id@,
        value_type: f.value_type@,
        value: f.value@,
        start: f.value_span.start as int,
        end: f.value_span.end as int,
        occurrence: f.occurrence as nat,
    }
}

/// The models of a list of fields.
pub open spec fn fields_model(v: Seq<LsxField>) -> Seq<FieldModel> {
    v.map_values(|f: LsxField| field_model(f))
}

/// The models of a list of entries.
pub open spec fn entries_model(v: Seq<TranslationEntry>) -> Seq<crate::types::EntryModel> {
    v.map_values(|e: TranslationEntry| e@)
}

/// The translatable content of the `<attribute>` tag at the character span
/// `span`: it has an `id`, a `type` and a `value`, the id is whitelisted, the
/// type is a text type and the unescaped value is not blank. Yields the id,
/// the type, the unescaped value and the value's byte span.
pub open spec fn field_at(s: Seq<char>, span: (int, int)) -> Option<(Seq<char>, Seq<char>, Seq<char>, int, int)> {
    let m = attributes_of(s, span.0, span.1);
    match (attr_get(m, "id"@), attr_get(m, "type"@), attr_get(m, "value"@)) {
        (Some(i), Some(t), Some(v)) => if translatable_field(i.0) && text_type(t.0) && !is_blank(unescaped(v.0)) {
            Some((i.0, t.0, unescaped(v.0), byte_of(s, v.1), byte_of(s, v.2)))
        } else {
            None
        },
        _ => None,
    }
}

/// How many fields of `fs` have the id `id`.
pub open spec fn count_id(fs: Seq<FieldModel>, id: Seq<char>) -> nat
    decreases fs.len(),
{
    if fs.len() == 0 {
        0
    } else {
        count_id(fs.drop_last(), id) + if fs.last().id == id {
            1nat
        } else {
            0nat
        }
    }
}

/// The translatable fields of the tags at `spans`, in order; each field's
/// occurrence counts the earlier fields with the same id.
pub open spec fn fields_of(s: Seq<char>, spans: Seq<(int, int)>) -> Seq<FieldModel>
    decreases spans.len(),
{
    if spans.len() == 0 {
        Seq::empty()
    } else {
        let prev = fields_of(s, spans.drop_last());
        match field_at(s, spans.last()) {
            Some(f) => prev.push(
                FieldModel { id: f.0, value_type: f.1, value: f.2, start: f.3, end: f.4, occurrence: count_id(prev, f.0) },
            ),
            None => prev,
        }
    }
}

/// The translatable fields of an `.lsx` text.
pub open spec fn scanned(s: Seq<char>) -> Seq<FieldModel> {
    fields_of(s, tag_spans_from(s, 0, "attribute"@))
}

proof fn lemma_fields_of_reports(s: Seq<char>, spans: Seq<(int, int)>, j: int)
    requires
        0 <= j < spans.len(),
        field_at(s, spans[j]) is Some,
    ensures
        exists|k: int| 0 <= k < fields_of(s, spans).len() && {
            let f = field_at(s, spans[j])->0;
            let g = #[trigger] fields_of(s, spans)[k];
            g.id == f.0 && g.value_type == f.1 && g.value == f.2 && g.start == f.3 && g.end == f.4
        },
    decreases spans.len(),
{
    let prev = fields_of(s, spans.drop_last());
    let f = field_at(s, spans[j])->0;
    if j == spans.len() - 1 {
        let k = prev.len() as int;
        assert(spans.last() == spans[j]);
        let g = fields_of(s, spans)[k];
        assert(g.id == f.0 && g.value_type == f.1 && g.value == f.2 && g.start == f.3 && g.end == f.4);
    } else {
        assert(spans.drop_last()[j] == spans[j]);
        lemma_fields_of_reports(s, spans.drop_last(), j);
        let k = choose|k: int| 0 <= k < prev.len() && {
            let g = #[trigger] prev[k];
            g.id == f.0 && g.value_type == f.1 && g.value == f.2 && g.start == f.3 && g.end == f.4
        };
        assert(fields_of(s, spans)[k] == prev[k]);
    }
}

proof fn lemma_fields_of_whitelisted(s: Seq<char>, spans: Seq<(int, int)>, k: int)
    requires
        0 <= k < fields_of(s, spans).len(),
    ensures
        exists|j: int| 0 <= j < spans.len() && (#[trigger] field_at(s, spans[j]) matches Some(f)
            && f.0 == fields_of(s, spans)[k].id && f.1 == fields_of(s, spans)[k].value_type
            && f.2 == fields_of(s, spans)[k].value),
    decreases spans.len(),
{
    let prev = fields_of(s, spans.drop_last());
    if k < prev.len() {
        assert(fields_of(s, spans)[k] == prev[k]);
        lemma_fields_of_whitelisted(s, spans.drop_last(), k);
        let j = choose|j: int| 0 <= j < spans.drop_last().len() && (#[trigger] field_at(s, spans.drop_last()[j]) matches Some(f)
            && f.0 == prev[k].id && f.1 == prev[k].value_type && f.2 == prev[k].value);
        assert(spans.drop_last()[j] == spans[j]);
        assert(field_at(s, spans[j]) is Some);
    } else {
        assert(spans[spans.len() - 1] == spans.last());
        assert(field_at(s, spans[spans.len() - 1]) is Some);
    }
}

/// Every `<attribute>` tag of an `.lsx` text whose id is `Description`,
/// `DisplayName`, `Title`, `Tooltip` or `TooltipDescription`, whose type is
/// `LSString` or `LSWString` and whose unescaped value is not blank is
/// reported by the scan, with that id, type and value.
pub proof fn law_whitelisted_attribute_is_scanned(
    s: Seq<char>,
    j: int,
    id: (Seq<char>, int, int),
    ty: (Seq<char>, int, int),
    value: (Seq<char>, int, int),
)
    requires
        0 <= j < tag_spans_from(s, 0, "attribute"@).len(),
        attr_get(attributes_of(s, tag_spans_from(s, 0, "attribute"@)[j].0, tag_spans_from(s, 0, "attribute"@)[j].1), "id"@) == Some(id),
        attr_get(attributes_of(s, tag_spans_from(s, 0, "attribute"@)[j].0, tag_spans_from(s, 0, "attribute"@)[j].1), "type"@) == Some(ty),
        attr_get(attributes_of(s, tag_spans_from(s, 0, "attribute"@)[j].0, tag_spans_from(s, 0, "attribute"@)[j].1), "value"@) == Some(value),
        id.0 == "Description"@ || id.0 == "DisplayName"@ || id.0 == "Title"@ || id.0 == "Tooltip"@
            || id.0 == "TooltipDescription"@,
        ty.0 == "LSString"@ || ty.0 == "LSWString"@,
        !is_blank(unescaped(value.0)),
    ensures
        exists|k: int| 0 <= k < scanned(s).len() && (#[trigger] scanned(s)[k]).id == id.0
            && scanned(s)[k].value_type == ty.0 && scanned(s)[k].value == unescaped(value.0),
{
    let spans = tag_spans_from(s, 0, "attribute"@);
    assert(field_at(s, spans[j]) is Some);
    lemma_fields_of_reports(s, spans, j);
    let f = field_at(s, spans[j])->0;
    let k = choose|k: int| 0 <= k < fields_of(s, spans).len() && {
        let g = #[trigger] fields_of(s, spans)[k];
        g.id == f.0 && g.value_type == f.1 && g.value == f.2 && g.start == f.3 && g.end == f.4
    };
    assert(scanned(s)[k] == fields_of(s, spans)[k]);
}

/// Every field the scan reports is a whitelisted text attribute: its id is
/// `Description`, `DisplayName`, `Title`, `Tooltip` or `TooltipDescription`,
/// its type `LSString` or `LSWString`, and its value is not blank.
pub proof fn law_scanned_fields_are_whitelisted(s: Seq<char>, k: int)
    requires
        0 <= k < scanned(s).len(),
    ensures
        scanned(s)[k].id == "Description"@ || scanned(s)[k].id == "DisplayName"@ || scanned(s)[k].id == "Title"@
            || scanned(s)[k].id == "Tooltip"@ || scanned(s)[k].id == "TooltipDescription"@,
        scanned(s)[k].value_type == "LSString"@ || scanned(s)[k].value_type == "LSWString"@,
        !is_blank(scanned(s)[k].value),
{
    lemma_fields_of_whitelisted(s, tag_spans_from(s, 0, "attribute"@), k);
}

fn attr_lookup(a: &Attrs, k: &str) -> (r: Option<usize>)
    requires
        attrs_wf(*a),
    ensures
        match attr_get(attrs_view(*a), k@) {
            Some(v) => r matches Some(j) && j < a.keys@.len() && a.texts@[j as int]@ == v.0
                && a.starts@[j as int] == v.1 && a.ends@[j as int] == v.2,
            None => r is None,
        },
{
    let kv = chars_of(k);
    key_index_of(&a.keys, kv.as_slice())
}

fn whitelisted(id: &[char]) -> (r: bool)
    ensures
        r == translatable_field(id@),
{
    chars_eq_str(id, "Description") || chars_eq_str(id, "DisplayName") || chars_eq_str(id, "Title")
        || chars_eq_str(id, "Tooltip") || chars_eq_str(id, "TooltipDescription")
}

fn field_at_exec(s: &[char], offsets: &Vec<usize>, a: usize, b: usize) -> (r: Option<(String, String, String, usize, usize)>)
    requires
        b <= s@.len(),
        offsets@.len() == s@.len() + 1,
        forall|k: int| 0 <= k <= s@.len() ==> offsets@[k] == byte_of(s@, k),
    ensures
        match field_at(s@, (a as int, b as int)) {
            Some(f) => r matches Some(x) && x.0@ == f.0 && x.1@ == f.1 && x.2@ == f.2 && x.3 == f.3 && x.4 == f.4,
            None => r is None,
        },
{
    let attrs = attributes_exec(s, a, b);
    proof {
        lemma_attr_spans(s@, a as int, b as int);
    }
    let ghost m = attrs_view(attrs);
    let i = match attr_lookup(&attrs, "id") {
        Some(i) => i,
        None => return None,
    };
    let t = match attr_lookup(&attrs, "type") {
        Some(t) => t,
        None => return None,
    };
    let v = match attr_lookup(&attrs, "value") {
        Some(v) => v,
        None => return None,
    };
    proof {
        crate::translation::series::lemma_key_index(m.keys, "value"@);
    }
    assert(m.vals[v as int] == (attrs.texts@[v as int]@, attrs.starts@[v as int] as int, attrs.ends@[v as int] as int));
    if !whitelisted(attrs.texts[i].as_slice()) {
        return None;
    }
    let tt = attrs.texts[t].as_slice();
    if !(chars_eq_str(tt, "LSString") || chars_eq_str(tt, "LSWString")) {
        return None;
    }
    let raw = string_of(attrs.texts[v].as_slice());
    let decoded = unescape_attribute(raw.as_str());
    if crate::text::is_blank_str(decoded.as_str()) {
        return None;
    }
    let vs = attrs.starts[v];
    let ve = attrs.ends[v];
    Some((string_of(attrs.texts[i].as_slice()), string_of(tt), decoded, offsets[vs], offsets[ve]))
}

/// Scans an `.lsx` text for its translatable fields (see [`scanned`]).
pub fn scan_translatable(xml: &str) -> (r: Vec<LsxField>)
    ensures
        r@.len() == scanned(xml@).len(),
        forall|i: int| 0 <= i < r@.len() ==> field_model(#[trigger] r@[i]) == scanned(xml@)[i],
{
    let s = chars_of(xml);
    let name = chars_of("attribute");
    let total = crate::text::str_utf8_len(xml);
    let offsets = byte_offsets(s.as_slice(), total);
    let spans = tag_spans_exec(s.as_slice(), name.as_slice());
    let ghost sp = tag_spans_from(s@, 0, "attribute"@);
    proof {
        lemma_spans_in_range(s@, 0, "attribute"@);
    }
    let mut out: Vec<LsxField> = Vec::new();
    let mut i: usize = 0;
    assert(sp.take(0) =~= Seq::<(int, int)>::empty());
    while i < spans.len()
        invariant
            i <= spans@.len(),
            s@ == xml@,
            sp == tag_spans_from(xml@, 0, "attribute"@),
            spans@.map_values(|p: (usize, usize)| (p.0 as int, p.1 as int)) == sp,
            offsets@.len() == s@.len() + 1,
            forall|k: int| 0 <= k <= s@.len() ==> offsets@[k] == byte_of(s@, k),
            forall|j: int| 0 <= j < sp.len() ==> 0 <= (#[trigger] sp[j]).0 <= sp[j].1 <= s@.len(),
            out@.len() == fields_of(s@, sp.take(i as int)).len(),
            forall|k: int| 0 <= k < out@.len() ==> field_model(#[trigger] out@[k]) == fields_of(s@, sp.take(i as int))[k],
        decreases spans@.len() - i,
    {
        let (a, b) = spans[i];
        assert(sp[i as int] == (a as int, b as int));
        let ghost prev = fields_of(s@, sp.take(i as int));
        assert(sp.take(i + 1).drop_last() =~= sp.take(i as int));
        assert(sp.take(i + 1).last() == (a as int, b as int));
        match field_at_exec(s.as_slice(), &offsets, a, b) {
            None => {},
            Some((id, ty, value, vs, ve)) => {
                let idc = chars_of(id.as_str());
                let mut cnt: usize = 0;
                let mut k: usize = 0;
                assert(prev.take(0) =~= Seq::<FieldModel>::empty());
                while k < out.len()
                    invariant
                        k <= out@.len(),
                        out@.len() == prev.len(),
                        idc@ == id@,
                        forall|j: int| 0 <= j < out@.len() ==> field_model(#[trigger] out@[j]) == prev[j],
                        cnt <= k,
                        cnt == count_id(prev.take(k as int), id@),
                    decreases out@.len() - k,
                {
                    assert(prev.take(k + 1).drop_last() =~= prev.take(k as int));
                    assert(field_model(out@[k as int]) == prev[k as int]);
                    if crate::text::chars_eq_str(idc.as_slice(), out[k].id.as_str()) {
                        cnt = cnt + 1;
                    }
                    k = k + 1;
                }
                assert(prev.take(prev.len() as int) =~= prev);
                let f = LsxField { id, value_type: ty, value, value_span: std::ops::Range { start: vs, end: ve }, occurrence: cnt };
                out.push(f);
            },
        }
        i = i + 1;
    }
    assert(sp.take(sp.len() as int) =~= sp);
    out
}


// ─────────────────────────────────────────────────────────────
// Planning the write
// ─────────────────────────────────────────────────────────────

/// A planned replacement: a byte span and the text that goes there.
pub open spec fn repl_model(x: (std::ops::Range<usize>, String)) -> ((int, int), Seq<char>) {
    ((x.0.start as int, x.0.end as int), x.1@)
}

/// The models of a list of replacements.
pub open spec fn repls_model(v: Seq<(std::ops::Range<usize>, String)>) -> Seq<((int, int), Seq<char>)> {
    v.map_values(|x: (std::ops::Range<usize>, String)| repl_model(x))
}

/// The index of the first field with the given id and occurrence.
pub open spec fn find_field(fs: Seq<FieldModel>, id: Seq<char>, occ: nat) -> Option<int>
    decreases fs.len(),
{
    if fs.len() == 0 {
        None
    } else {
        match find_field(fs.drop_last(), id, occ) {
            Some(i) => Some(i),
            None => if fs.last().id == id && fs.last().occurrence == occ {
                Some(fs.len() - 1)
            } else {
                None
            },
        }
    }
}

pub proof fn lemma_find_field(fs: Seq<FieldModel>, id: Seq<char>, occ: nat)
    ensures
        match find_field(fs, id, occ) {
            Some(i) => 0 <= i < fs.len() && fs[i].id == id && fs[i].occurrence == occ
                && forall|j: int| 0 <= j < i ==> !(fs[j].id == id && fs[j].occurrence == occ),
            None => forall|j: int| 0 <= j < fs.len() ==> !(fs[j].id == id && fs[j].occurrence == occ),
        },
    decreases fs.len(),
{
    if fs.len() > 0 {
        lemma_find_field(fs.drop_last(), id, occ);
        match find_field(fs.drop_last(), id, occ) {
            Some(i) => {
                assert forall|j: int| 0 <= j < i implies !(fs[j].id == id && fs[j].occurrence == occ) by {
                    assert(fs[j] == fs.drop_last()[j]);
                }
            },
            None => {
                assert forall|j: int| 0 <= j < fs.len() - 1 implies !(fs[j].id == id && fs[j].occurrence == occ) by {
                    assert(fs[j] == fs.drop_last()[j]);
                }
            },
        }
    }
}

/// Some replacement of `plan` has the span `sp`.
pub open spec fn span_planned(plan: Seq<((int, int), Seq<char>)>, sp: (int, int)) -> bool {
    exists|i: int| 0 <= i < plan.len() && (#[trigger] plan[i]).0 == sp
}

/// The replacements in entry order: each entry with a writable translation
/// and a handle that names a field gives that field's span and the
/// translation; a span already planned is not planned again.
pub open spec fn plan_from(fs: Seq<FieldModel>, es: Seq<crate::types::EntryModel>) -> Seq<((int, int), Seq<char>)>
    decreases es.len(),
{
    if es.len() == 0 {
        Seq::empty()
    } else {
        let prev = plan_from(fs, es.drop_last());
        let e = es.last();
        if !crate::types::writable_target(e) {
            prev
        } else {
            match decoded_handle(e.contentuid) {
                None => prev,
                Some((id, occ)) => match find_field(fs, id, occ) {
                    None => prev,
                    Some(k) => if span_planned(prev, (fs[k].start, fs[k].end)) {
                        prev
                    } else {
                        prev.push(((fs[k].start, fs[k].end), e.target))
                    },
                },
            }
        }
    }
}

/// The first position `>= k` whose replacement starts before `v`.
pub open spec fn first_below(s: Seq<((int, int), Seq<char>)>, v: int, k: int) -> int
    decreases s.len() - k,
{
    if 0 <= k < s.len() && s[k].0.0 >= v {
        first_below(s, v, k + 1)
    } else {
        k
    }
}

/// `x` inserted into `s` after every replacement that starts at or after it.
pub open spec fn insert_desc(s: Seq<((int, int), Seq<char>)>, x: ((int, int), Seq<char>)) -> Seq<((int, int), Seq<char>)> {
    s.insert(first_below(s, x.0.0, 0), x)
}

/// The replacements stably sorted by start, last first.
pub open spec fn sort_desc(plan: Seq<((int, int), Seq<char>)>) -> Seq<((int, int), Seq<char>)>
    decreases plan.len(),
{
    if plan.len() == 0 {
        plan
    } else {
        insert_desc(sort_desc(plan.drop_last()), plan.last())
    }
}

/// The write plan for `fs` and `es`: see [`plan_from`] and [`sort_desc`].
pub open spec fn planned(fs: Seq<FieldModel>, es: Seq<crate::types::EntryModel>) -> Seq<((int, int), Seq<char>)> {
    sort_desc(plan_from(fs, es))
}

proof fn lemma_first_below_range(s: Seq<((int, int), Seq<char>)>, v: int, k: int)
    requires
        0 <= k <= s.len(),
    ensures
        k <= first_below(s, v, k) <= s.len(),
    decreases s.len() - k,
{
    if k < s.len() && s[k].0.0 >= v {
        lemma_first_below_range(s, v, k + 1);
    }
}

fn field_index(fields: &[LsxField], id: &str, occ: usize) -> (r: Option<usize>)
    ensures
        match find_field(fields_model(fields@), id@, occ as nat) {
            Some(i) => r == Some(i as usize) && 0 <= i < fields@.len(),
            None => r is None,
        },
{
    let ghost fs = fields_model(fields@);
    proof {
        lemma_find_field(fs, id@, occ as nat);
    }
    let idc = chars_of(id);
    let mut k: usize = 0;
    while k < fields.len()
        invariant
            k <= fields@.len(),
            fs == fields_model(fields@),
            idc@ == id@,
            forall|j: int| 0 <= j < k ==> !(fs[j].id == id@ && fs[j].occurrence == occ as nat),
        decreases fields@.len() - k,
    {
        assert(fs[k as int] == field_model(fields@[k as int]));
        if fields[k].occurrence == occ && chars_eq_str(idc.as_slice(), fields[k].id.as_str()) {
            proof {
                lemma_find_field(fs, id@, occ as nat);
                match find_field(fs, id@, occ as nat) {
                    Some(i) => {
                        if i < k {
                            assert(false);
                        }
                        if i > k {
                            assert(!(fs[k as int].id == id@ && fs[k as int].occurrence == occ as nat));
                        }
                    },
                    None => {
                        assert(!(fs[k as int].id == id@ && fs[k as int].occurrence == occ as nat));
                    },
                }
            }
            return Some(k);
        }
        k = k + 1;
    }
    proof {
        lemma_find_field(fs, id@, occ as nat);
    }
    None
}

/// Plans the write-back of `entries` into the scanned `fields`: see
/// [`planned`]. Entries that cannot be placed are skipped.
pub fn plan_replacements(fields: &[LsxField], entries: &[TranslationEntry]) -> (r: Vec<(std::ops::Range<usize>, String)>)
    ensures
        repls_model(r@) == planned(fields_model(fields@), entries_model(entries@)),
{
    let ghost fs = fields_model(fields@);
    let ghost es = entries_model(entries@);
    let mut plan: Vec<(std::ops::Range<usize>, String)> = Vec::new();
    let mut i: usize = 0;
    assert(es.take(0) =~= Seq::<crate::types::EntryModel>::empty());
    assert(repls_model(plan@) =~= Seq::<((int, int), Seq<char>)>::empty());
    while i < entries.len()
        invariant
            i <= entries@.len(),
            fs == fields_model(fields@),
            es == entries_model(entries@),
            repls_model(plan@) == plan_from(fs, es.take(i as int)),
        decreases entries@.len() - i,
    {
        let ghost prev = plan_from(fs, es.take(i as int));
        assert(es.take(i + 1).drop_last() =~= es.take(i as int));
        assert(es.take(i + 1).last() == entries@[i as int]@);
        let entry = &entries[i];
        i = i + 1;
        if !entry.has_writable_target() {
            continue;
        }
        let (id, occ) = match decode_contentuid(entry.contentuid.as_str()) {
            Some(x) => x,
            None => continue,
        };
        let k = match field_index(fields, id.as_str(), occ) {
            Some(k) => k,
            None => continue,
        };
        assert(fs[k as int] == field_model(fields@[k as int]));
        let a = fields[k].value_span.start;
        let b = fields[k].value_span.end;
        let mut dup = false;
        let mut j: usize = 0;
        while j < plan.len()
            invariant
                j <= plan@.len(),
                repls_model(plan@) == prev,
                dup ==> span_planned(prev, (a as int, b as int)),
                !dup ==> forall|m: int| 0 <= m < j ==> (#[trigger] prev[m]).0 != (a as int, b as int),
            decreases plan@.len() - j,
        {
            assert(prev[j as int] == repl_model(plan@[j as int]));
            if plan[j].0.start == a && plan[j].0.end == b {
                dup = true;
            }
            j = j + 1;
        }
        if dup {
            continue;
        }
        let ghost before = plan@;
        plan.push((std::ops::Range { start: a, end: b }, entry.target.clone()));
        assert(repls_model(plan@) =~= prev.push(((a as int, b as int), entry.target@)));
    }
    assert(es.take(es.len() as int) =~= es);
    let ghost unsorted = repls_model(plan@);
    let mut out: Vec<(std::ops::Range<usize>, String)> = Vec::new();
    let mut n: usize = 0;
    let total = plan.len();
    assert(unsorted.take(0) =~= Seq::<((int, int), Seq<char>)>::empty());
    assert(repls_model(out@) =~= Seq::<((int, int), Seq<char>)>::empty());
    while plan.len() > 0
        invariant
            n + plan@.len() == total,
            total == unsorted.len(),
            repls_model(plan@) == unsorted.skip(n as int),
            repls_model(out@) == sort_desc(unsorted.take(n as int)),
        decreases plan@.len(),
    {
        let ghost rest = plan@;
        let x = plan.remove(0);
        assert(repl_model(x) == unsorted[n as int]) by {
            assert(repls_model(rest)[0] == repl_model(rest[0]));
        }
        assert(repls_model(plan@) =~= unsorted.skip(n + 1)) by {
            assert(plan@ =~= rest.subrange(1, rest.len() as int));
            assert forall|m: int| 0 <= m < plan@.len() implies repls_model(plan@)[m] == unsorted.skip(n + 1)[m] by {
                assert(repls_model(rest)[m + 1] == repl_model(rest[m + 1]));
            }
        }
        let ghost cur = repls_model(out@);
        let mut p: usize = 0;
        proof {
            lemma_first_below_range(cur, x.0.start as int, 0);
        }
        while p < out.len() && out[p].0.start >= x.0.start
            invariant
                p <= out@.len(),
                cur == repls_model(out@),
                first_below(cur, x.0.start as int, 0) == first_below(cur, x.0.start as int, p as int),
            decreases out@.len() - p,
        {
            assert(cur[p as int] == repl_model(out@[p as int]));
            p = p + 1;
        }
        proof {
            if p < out@.len() {
                assert(cur[p as int] == repl_model(out@[p as int]));
            }
        }
        out.insert(p, x);
        assert(unsorted.take(n + 1).drop_last() =~= unsorted.take(n as int));
        assert(unsorted.take(n + 1).last() == repl_model(x));
        assert(repls_model(out@) =~= cur.insert(p as int, repl_model(x)));
        n = n + 1;
    }
    assert(unsorted.take(n as int) =~= unsorted);
    out
}


// ─────────────────────────────────────────────────────────────
// Applying the write
// ─────────────────────────────────────────────────────────────

/// Byte offset `b` starts a character of `s` (or is its end).
pub open spec fn is_boundary(s: Seq<char>, b: int) -> bool {
    byte_of(s, char_at_byte(s, b, 0)) == b
}

/// The state after applying `reps` in order: the byte offset left of which
/// the text is still the original, and the rewritten text right of it. A
/// replacement whose span is reversed or reaches past that offset is skipped;
/// the others put the escaped text (references resolved first) in place.
pub open spec fn apply_state(xml: Seq<char>, reps: Seq<((int, int), Seq<char>)>) -> (int, Seq<char>)
    decreases reps.len(),
{
    if reps.len() == 0 {
        (utf8_len(xml) as int, Seq::empty())
    } else {
        let st = apply_state(xml, reps.drop_last());
        let x = reps.last();
        if x.0.0 > x.0.1 || x.0.1 > st.0 {
            st
        } else {
            (
                x.0.0,
                escaped(crate::formats::content_list::decoded_entities(x.1)) + xml.subrange(
                    char_at_byte(xml, x.0.1, 0),
                    char_at_byte(xml, st.0, 0),
                ) + st.1,
            )
        }
    }
}

/// Every replacement that is applied has both ends on character boundaries
/// (replacing inside a character is refused by `String::replace_range`).
pub open spec fn applies_cleanly(xml: Seq<char>, reps: Seq<((int, int), Seq<char>)>) -> bool {
    forall|i: int| 0 <= i < reps.len() ==> {
        let x = #[trigger] reps[i];
        (x.0.0 <= x.0.1 && x.0.1 <= apply_state(xml, reps.take(i)).0) ==> (is_boundary(xml, x.0.0) && is_boundary(xml, x.0.1))
    }
}

/// The text after the replacements.
pub open spec fn applied(xml: Seq<char>, reps: Seq<((int, int), Seq<char>)>) -> Seq<char> {
    xml.take(char_at_byte(xml, apply_state(xml, reps).0, 0)) + apply_state(xml, reps).1
}

proof fn lemma_char_at_byte_ge(s: Seq<char>, b: int, k: int)
    ensures
        char_at_byte(s, b, k) >= k,
        0 <= k <= s.len() ==> char_at_byte(s, b, k) <= s.len(),
    decreases s.len() - k,
{
    if 0 <= k < s.len() && byte_of(s, k) < b {
        lemma_char_at_byte_ge(s, b, k + 1);
    }
}

proof fn lemma_char_at_byte_mono(s: Seq<char>, b1: int, b2: int, k: int)
    requires
        b1 <= b2,
    ensures
        char_at_byte(s, b1, k) <= char_at_byte(s, b2, k),
    decreases s.len() - k,
{
    lemma_char_at_byte_ge(s, b2, k);
    if 0 <= k < s.len() && byte_of(s, k) < b1 {
        lemma_char_at_byte_mono(s, b1, b2, k + 1);
    }
}

proof fn lemma_byte_of_strict(s: Seq<char>, j: int, k: int)
    requires
        0 <= j < k <= s.len(),
    ensures
        byte_of(s, j) < byte_of(s, k),
    decreases k - j,
{
    assert(s.take(k).drop_last() =~= s.take(k - 1));
    if j < k - 1 {
        lemma_byte_of_strict(s, j, k - 1);
    }
}

/// Every character position is a boundary.
proof fn lemma_byte_of_boundary(s: Seq<char>, k: int)
    requires
        0 <= k <= s.len(),
    ensures
        char_at_byte(s, byte_of(s, k), 0) == k,
        is_boundary(s, byte_of(s, k)),
{
    lemma_char_at_byte_from(s, byte_of(s, k), k, 0);
}

proof fn lemma_char_at_byte_from(s: Seq<char>, b: int, k: int, j: int)
    requires
        0 <= j <= k <= s.len(),
        b == byte_of(s, k),
    ensures
        char_at_byte(s, b, j) == k,
    decreases k - j,
{
    if j < k {
        lemma_byte_of_strict(s, j, k);
        lemma_char_at_byte_from(s, b, k, j + 1);
    }
}

/// Applies replacements to an `.lsx` text (see [`applied`]).
pub fn apply_replacements(xml: &str, replacements: &[(std::ops::Range<usize>, String)]) -> (r: String)
    requires
        applies_cleanly(xml@, repls_model(replacements@)),
    ensures
        r@ == applied(xml@, repls_model(replacements@)),
{
    let ghost reps = repls_model(replacements@);
    let s = chars_of(xml);
    let total = crate::text::str_utf8_len(xml);
    let offsets = byte_offsets(s.as_slice(), total);
    let mut lim: usize = total;
    let mut lim_c: usize = s.len();
    let mut tail: Vec<char> = Vec::new();
    proof {
        lemma_byte_of_boundary(s@, s@.len() as int);
        assert(s@.take(s@.len() as int) =~= s@);
        assert(reps.take(0) =~= Seq::<((int, int), Seq<char>)>::empty());
    }
    let mut i: usize = 0;
    while i < replacements.len()
        invariant
            i <= replacements@.len(),
            reps == repls_model(replacements@),
            applies_cleanly(xml@, reps),
            s@ == xml@,
            offsets@.len() == s@.len() + 1,
            forall|k: int| 0 <= k <= s@.len() ==> offsets@[k] == byte_of(s@, k),
            lim == apply_state(xml@, reps.take(i as int)).0,
            tail@ == apply_state(xml@, reps.take(i as int)).1,
            lim_c == char_at_byte(xml@, lim as int, 0),
            lim_c <= s@.len(),
        decreases replacements@.len() - i,
    {
        let a = replacements[i].0.start;
        let b = replacements[i].0.end;
        let ghost x = reps[i as int];
        assert(x == repl_model(replacements@[i as int]));
        assert(reps.take(i + 1).drop_last() =~= reps.take(i as int));
        assert(reps.take(i + 1).last() == x);
        if a > b || b > lim {
            i = i + 1;
            continue;
        }
        let ca = char_at_byte_exec(&offsets, s.as_slice(), a);
        let cb = char_at_byte_exec(&offsets, s.as_slice(), b);
        proof {
            lemma_char_at_byte_mono(s@, a as int, b as int, 0);
            lemma_char_at_byte_mono(s@, b as int, lim as int, 0);
        }
        let decoded = crate::formats::content_list::decode_entities(replacements[i].1.as_str());
        let esc = escape_attribute(decoded.as_str());
        let mut nt = chars_of(esc.as_str());
        let mid = copy_range(s.as_slice(), cb, lim_c);
        extend_chars(&mut nt, mid.as_slice());
        extend_chars(&mut nt, tail.as_slice());
        tail = nt;
        lim = a;
        lim_c = ca;
        i = i + 1;
    }
    assert(reps.take(reps.len() as int) =~= reps);
    let mut out = copy_range(s.as_slice(), 0, lim_c);
    assert(out@ =~= xml@.take(lim_c as int));
    extend_chars(&mut out, tail.as_slice());
    string_of(out.as_slice())
}


/// Every replacement of `reps` has both ends on character boundaries.
pub open spec fn spans_on_boundaries(s: Seq<char>, reps: Seq<((int, int), Seq<char>)>) -> bool {
    forall|i: int| 0 <= i < reps.len() ==> is_boundary(s, (#[trigger] reps[i]).0.0) && is_boundary(s, reps[i].0.1)
}

proof fn lemma_fields_of_boundaries(s: Seq<char>, spans: Seq<(int, int)>)
    requires
        forall|j: int| 0 <= j < spans.len() ==> 0 <= (#[trigger] spans[j]).0 <= spans[j].1 <= s.len(),
    ensures
        forall|i: int| 0 <= i < fields_of(s, spans).len() ==> is_boundary(s, (#[trigger] fields_of(s, spans)[i]).start)
            && is_boundary(s, fields_of(s, spans)[i].end),
    decreases spans.len(),
{
    if spans.len() > 0 {
        let prev = fields_of(s, spans.drop_last());
        assert forall|j: int| 0 <= j < spans.drop_last().len() implies 0 <= (#[trigger] spans.drop_last()[j]).0 <= spans.drop_last()[j].1 <= s.len() by {
            assert(spans.drop_last()[j] == spans[j]);
        }
        lemma_fields_of_boundaries(s, spans.drop_last());
        let sp = spans.last();
        assert(sp == spans[spans.len() - 1]);
        match field_at(s, sp) {
            Some(f) => {
                let m = attributes_of(s, sp.0, sp.1);
                lemma_attr_spans(s, sp.0, sp.1);
                crate::translation::series::lemma_key_index(m.keys, "value"@);
                let v = attr_get(m, "value"@).unwrap();
                lemma_byte_of_boundary(s, v.1);
                lemma_byte_of_boundary(s, v.2);
                assert forall|i: int| 0 <= i < fields_of(s, spans).len() implies is_boundary(s, (#[trigger] fields_of(s, spans)[i]).start)
                    && is_boundary(s, fields_of(s, spans)[i].end) by {
                    if i < prev.len() {
                        assert(fields_of(s, spans)[i] == prev[i]);
                    }
                }
            },
            None => {},
        }
    }
}

proof fn lemma_plan_from_boundaries(s: Seq<char>, fs: Seq<FieldModel>, es: Seq<crate::types::EntryModel>)
    requires
        forall|i: int| 0 <= i < fs.len() ==> is_boundary(s, (#[trigger] fs[i]).start) && is_boundary(s, fs[i].end),
    ensures
        spans_on_boundaries(s, plan_from(fs, es)),
    decreases es.len(),
{
    if es.len() > 0 {
        lemma_plan_from_boundaries(s, fs, es.drop_last());
        let prev = plan_from(fs, es.drop_last());
        let e = es.last();
        if crate::types::writable_target(e) {
            match decoded_handle(e.contentuid) {
                None => {},
                Some((id, occ)) => {
                    lemma_find_field(fs, id, occ);
                    match find_field(fs, id, occ) {
                        None => {},
                        Some(k) => {
                            let q = plan_from(fs, es);
                            assert forall|i: int| 0 <= i < q.len() implies is_boundary(s, (#[trigger] q[i]).0.0) && is_boundary(s, q[i].0.1) by {
                                if i < prev.len() {
                                    assert(q[i] == prev[i]);
                                } else {
                                    assert(q[i].0 == (fs[k].start, fs[k].end));
                                }
                            }
                        },
                    }
                },
            }
        }
    }
}

proof fn lemma_sort_desc_boundaries(s: Seq<char>, p: Seq<((int, int), Seq<char>)>)
    requires
        spans_on_boundaries(s, p),
    ensures
        spans_on_boundaries(s, sort_desc(p)),
        sort_desc(p).len() == p.len(),
    decreases p.len(),
{
    if p.len() > 0 {
        assert forall|i: int| 0 <= i < p.drop_last().len() implies is_boundary(s, (#[trigger] p.drop_last()[i]).0.0) && is_boundary(s, p.drop_last()[i].0.1) by {
            assert(p.drop_last()[i] == p[i]);
        }
        lemma_sort_desc_boundaries(s, p.drop_last());
        let t = sort_desc(p.drop_last());
        let x = p.last();
        assert(x == p[p.len() - 1]);
        let pos = first_below(t, x.0.0, 0);
        lemma_first_below_range(t, x.0.0, 0);
        let q = sort_desc(p);
        assert(q == t.insert(pos, x));
        assert forall|i: int| 0 <= i < q.len() implies is_boundary(s, (#[trigger] q[i]).0.0) && is_boundary(s, q[i].0.1) by {
            if i < pos {
                assert(q[i] == t[i]);
            } else if i > pos {
                assert(q[i] == t[i - 1]);
            }
        }
    }
}

/// Replacements on character boundaries always apply cleanly.
proof fn lemma_boundaries_apply_cleanly(s: Seq<char>, reps: Seq<((int, int), Seq<char>)>)
    requires
        spans_on_boundaries(s, reps),
    ensures
        applies_cleanly(s, reps),
{
    assert forall|i: int| 0 <= i < reps.len() implies {
        let x = #[trigger] reps[i];
        (x.0.0 <= x.0.1 && x.0.1 <= apply_state(s, reps.take(i)).0) ==> (is_boundary(s, x.0.0) && is_boundary(s, x.0.1))
    } by {
        assert(is_boundary(s, reps[i].0.0) && is_boundary(s, reps[i].0.1));
    }
}

/// The `.lsx` text with the writable translations of `entries` put in
/// place of the fields they name; everything else is kept byte for byte.
pub fn rewrite_text(xml: &str, entries: &[TranslationEntry]) -> (r: String)
    ensures
        r@ == applied(xml@, planned(scanned(xml@), entries_model(entries@))),
{
    let fields = scan_translatable(xml);
    assert(fields_model(fields@) =~= scanned(xml@));
    let reps = plan_replacements(fields.as_slice(), entries);
    proof {
        lemma_spans_in_range(xml@, 0, "attribute"@);
        lemma_fields_of_boundaries(xml@, tag_spans_from(xml@, 0, "attribute"@));
        lemma_plan_from_boundaries(xml@, scanned(xml@), entries_model(entries@));
        lemma_sort_desc_boundaries(xml@, plan_from(scanned(xml@), entries_model(entries@)));
        lemma_boundaries_apply_cleanly(xml@, repls_model(reps@));
    }
    apply_replacements(xml, reps.as_slice())
}


// ─────────────────────────────────────────────────────────────
// Laws of the write
// ─────────────────────────────────────────────────────────────

/// The replacements of `p` have pairwise different spans.
pub open spec fn distinct_spans(p: Seq<((int, int), Seq<char>)>) -> bool {
    forall|i: int, j: int| 0 <= i < p.len() && 0 <= j < p.len() && i != j ==> (#[trigger] p[i]).0 != (#[trigger] p[j]).0
}

/// The replacements of `p` start back to front.
pub open spec fn back_to_front(p: Seq<((int, int), Seq<char>)>) -> bool {
    forall|i: int, j: int| 0 <= i < j < p.len() ==> (#[trigger] p[i]).0.0 >= (#[trigger] p[j]).0.0
}

proof fn lemma_first_below_props(s: Seq<((int, int), Seq<char>)>, v: int, k: int)
    requires
        0 <= k <= s.len(),
        forall|i: int| 0 <= i < k ==> (#[trigger] s[i]).0.0 >= v,
    ensures
        forall|i: int| 0 <= i < first_below(s, v, k) ==> (#[trigger] s[i]).0.0 >= v,
        first_below(s, v, k) < s.len() ==> s[first_below(s, v, k)].0.0 < v,
    decreases s.len() - k,
{
    if k < s.len() && s[k].0.0 >= v {
        lemma_first_below_props(s, v, k + 1);
    }
}

proof fn lemma_plan_from_distinct(fs: Seq<FieldModel>, es: Seq<crate::types::EntryModel>)
    ensures
        distinct_spans(plan_from(fs, es)),
    decreases es.len(),
{
    if es.len() > 0 {
        lemma_plan_from_distinct(fs, es.drop_last());
        let prev = plan_from(fs, es.drop_last());
        let q = plan_from(fs, es);
        if q.len() == prev.len() + 1 {
            assert forall|i: int, j: int| 0 <= i < q.len() && 0 <= j < q.len() && i != j implies (#[trigger] q[i]).0 != (#[trigger] q[j]).0 by {
                if i < prev.len() && j < prev.len() {
                    assert(q[i] == prev[i] && q[j] == prev[j]);
                } else if i < prev.len() {
                    assert(q[i] == prev[i]);
                    assert(!span_planned(prev, q[j].0));
                } else {
                    assert(q[j] == prev[j]);
                    assert(!span_planned(prev, q[i].0));
                }
            }
        }
    }
}

proof fn lemma_sort_desc_props(p: Seq<((int, int), Seq<char>)>)
    ensures
        sort_desc(p).len() == p.len(),
        back_to_front(sort_desc(p)),
        forall|i: int| 0 <= i < p.len() ==> exists|k: int| 0 <= k < p.len() && #[trigger] sort_desc(p)[i] == p[k],
        distinct_spans(p) ==> distinct_spans(sort_desc(p)),
    decreases p.len(),
{
    if p.len() > 0 {
        let d = p.drop_last();
        lemma_sort_desc_props(d);
        let t = sort_desc(d);
        let x = p.last();
        let pos = first_below(t, x.0.0, 0);
        lemma_first_below_range(t, x.0.0, 0);
        lemma_first_below_props(t, x.0.0, 0);
        let q = sort_desc(p);
        assert(q == t.insert(pos, x));
        assert forall|i: int, j: int| 0 <= i < j < q.len() implies (#[trigger] q[i]).0.0 >= (#[trigger] q[j]).0.0 by {
            if j < pos {
                assert(q[i] == t[i] && q[j] == t[j]);
            } else if j == pos {
                assert(q[i] == t[i]);
            } else if i < pos {
                assert(q[i] == t[i] && q[j] == t[j - 1]);
            } else if i == pos {
                assert(q[j] == t[j - 1]);
                assert(t[pos].0.0 >= t[j - 1].0.0 || j - 1 == pos);
            } else {
                assert(q[i] == t[i - 1] && q[j] == t[j - 1]);
            }
        }
        assert forall|i: int| 0 <= i < p.len() implies exists|k: int| 0 <= k < p.len() && #[trigger] q[i] == p[k] by {
            if i < pos {
                assert(q[i] == t[i]);
                let k = choose|k: int| 0 <= k < d.len() && t[i] == d[k];
                assert(q[i] == p[k]);
            } else if i == pos {
                assert(q[i] == p[p.len() - 1]);
            } else {
                assert(q[i] == t[i - 1]);
                let k = choose|k: int| 0 <= k < d.len() && t[i - 1] == d[k];
                assert(q[i] == p[k]);
            }
        }
        if distinct_spans(p) {
            assert forall|i: int, j: int| 0 <= i < d.len() && 0 <= j < d.len() && i != j implies (#[trigger] d[i]).0 != (#[trigger] d[j]).0 by {
                assert(d[i] == p[i] && d[j] == p[j]);
            }
            assert forall|i: int| 0 <= i < t.len() implies (#[trigger] t[i]).0 != x.0 by {
                let k = choose|k: int| 0 <= k < d.len() && t[i] == d[k];
                assert(d[k] == p[k]);
                assert(x == p[p.len() - 1]);
            }
            assert forall|i: int, j: int| 0 <= i < q.len() && 0 <= j < q.len() && i != j implies (#[trigger] q[i]).0 != (#[trigger] q[j]).0 by {
                if i != pos && j != pos {
                    let ii = if i < pos { i } else { i - 1 };
                    let jj = if j < pos { j } else { j - 1 };
                    assert(q[i] == t[ii] && q[j] == t[jj]);
                } else if i == pos {
                    let jj = if j < pos { j } else { j - 1 };
                    assert(q[j] == t[jj]);
                } else {
                    let ii = if i < pos { i } else { i - 1 };
                    assert(q[i] == t[ii]);
                }
            }
        }
    }
}

/// The write plan never replaces the same span twice, and it runs from the
/// back of the file to the front.
pub proof fn law_plan_is_distinct_and_back_to_front(fs: Seq<FieldModel>, es: Seq<crate::types::EntryModel>)
    ensures
        distinct_spans(planned(fs, es)),
        back_to_front(planned(fs, es)),
{
    lemma_plan_from_distinct(fs, es);
    lemma_sort_desc_props(plan_from(fs, es));
}

proof fn lemma_plan_from_empty(fs: Seq<FieldModel>, es: Seq<crate::types::EntryModel>)
    requires
        forall|i: int| 0 <= i < es.len() ==> !crate::types::writable_target(#[trigger] es[i]),
    ensures
        plan_from(fs, es).len() == 0,
    decreases es.len(),
{
    if es.len() > 0 {
        assert forall|i: int| 0 <= i < es.drop_last().len() implies !crate::types::writable_target(#[trigger] es.drop_last()[i]) by {
            assert(es.drop_last()[i] == es[i]);
        }
        lemma_plan_from_empty(fs, es.drop_last());
        assert(!crate::types::writable_target(es[es.len() - 1]));
    }
}

/// Entries without a translation to write leave an `.lsx` text unchanged,
/// byte for byte.
pub proof fn law_nothing_to_write_keeps_text(xml: Seq<char>, es: Seq<crate::types::EntryModel>)
    requires
        forall|i: int| 0 <= i < es.len() ==> !crate::types::writable_target(#[trigger] es[i]),
    ensures
        applied(xml, planned(scanned(xml), es)) == xml,
{
    lemma_plan_from_empty(scanned(xml), es);
    let p = plan_from(scanned(xml), es);
    assert(sort_desc(p) == p);
    lemma_byte_of_boundary(xml, xml.len() as int);
    assert(xml.take(xml.len() as int) =~= xml);
    assert(applied(xml, planned(scanned(xml), es)) =~= xml);
}


// ─────────────────────────────────────────────────────────────
// Escaping round trip
// ─────────────────────────────────────────────────────────────

proof fn lemma_escaped_concat(a: Seq<char>, b: Seq<char>)
    ensures
        escaped(a + b) == escaped(a) + escaped(b),
    decreases b.len(),
{
    if b.len() == 0 {
        assert(a + b =~= a);
        assert(escaped(b) =~= Seq::<char>::empty());
        assert(escaped(a) + escaped(b) =~= escaped(a));
    } else {
        lemma_escaped_concat(a, b.drop_last());
        assert((a + b).drop_last() =~= a + b.drop_last());
        assert((a + b).last() == b.last());
        assert(escaped(a + b) =~= escaped(a) + escaped(b));
    }
}

proof fn lemma_char_find_skip(s: Seq<char>, c: char, k: int, m: int)
    requires
        0 <= k <= m <= s.len(),
        forall|i: int| k <= i < m ==> s[i] != c,
    ensures
        char_find(s, c, k) == char_find(s, c, m),
    decreases m - k,
{
    if k < m {
        lemma_char_find_skip(s, c, k + 1, m);
    }
}

/// A prefix without `&` passes through unescaping unchanged.
#[verifier::spinoff_prover]
#[verifier::rlimit(30)]
proof fn lemma_unescaped_plain_prefix(p: Seq<char>, r: Seq<char>)
    requires
        forall|i: int| 0 <= i < p.len() ==> p[i] != '&',
    ensures
        unescaped(p + r) == p + unescaped(r),
{
    let s = p + r;
    let n = p.len() as int;
    assert(s.skip(n) =~= r);
    lemma_char_find_skip(s, '&', 0, n);
    lemma_char_find_shift(s, '&', n, 0);
    lemma_char_find_range(s, '&', 0);
    match char_find(s, '&', 0) {
        None => {
            assert(char_find(r, '&', 0) is None);
            assert(unescaped(s) == s);
            assert(unescaped(r) == r);
        },
        Some(pp) => {
            assert(char_find(r, '&', 0) == Some(pp - n));
            lemma_char_find_shift(s, ';', n, pp - n);
            lemma_char_find_range(s, ';', pp);
            match char_find(s, ';', pp) {
                None => {
                    assert(char_find(r, ';', pp - n) is None);
                    assert(unescaped(s) == s);
                    assert(unescaped(r) == r);
                },
                Some(q) => {
                    assert(char_find(r, ';', pp - n) == Some(q - n));
                    assert(s.take(pp) =~= p + r.take(pp - n));
                    assert(s.subrange(pp + 1, q) =~= r.subrange(pp - n + 1, q - n));
                    assert(s.subrange(pp, q + 1) =~= r.subrange(pp - n, q - n + 1));
                    assert(s.skip(q + 1) =~= r.skip(q - n + 1));
                    let mid = match reference_text(r.subrange(pp - n + 1, q - n)) {
                        Some(t) => t,
                        None => r.subrange(pp - n, q - n + 1),
                    };
                    assert(unescaped(s) == s.take(pp) + mid + unescaped(s.skip(q + 1)));
                    assert(unescaped(r) == r.take(pp - n) + mid + unescaped(r.skip(q - n + 1)));
                    assert(unescaped(s) =~= p + unescaped(r));
                },
            }
        },
    }
}

/// A complete reference `&body;` unescapes to what it stands for.
proof fn lemma_unescaped_reference(body: Seq<char>, t: Seq<char>, r: Seq<char>)
    requires
        forall|i: int| 0 <= i < body.len() ==> body[i] != ';',
        reference_text(body) == Some(t),
    ensures
        unescaped(seq!['&'] + body + seq![';'] + r) == t + unescaped(r),
{
    let e = seq!['&'] + body + seq![';'];
    let s = e + r;
    let n = e.len() as int;
    assert(s[0] == '&');
    assert(char_find(s, '&', 0) == Some(0int));
    assert forall|i: int| 0 <= i < n - 1 implies s[i] != ';' by {
        if i > 0 {
            assert(s[i] == body[i - 1]);
        }
    }
    lemma_char_find_skip(s, ';', 0, n - 1);
    assert(s[n - 1] == ';');
    assert(char_find(s, ';', 0) == Some(n - 1));
    assert(s.subrange(1, n - 1) =~= body);
    assert(s.skip(n) =~= r);
    assert(s.take(0) =~= Seq::<char>::empty());
    assert(unescaped(s) =~= t + unescaped(r));
}

#[verifier::spinoff_prover]
#[verifier::rlimit(30)]
proof fn lemma_escape_char_roundtrip(c: char, r: Seq<char>)
    requires
        !illegal_xml_char(c),
    ensures
        unescaped(escaped_char(c) + r) == seq![c] + unescaped(r),
{
    reveal_strlit("&amp;");
    reveal_strlit("&lt;");
    reveal_strlit("&gt;");
    reveal_strlit("&quot;");
    reveal_strlit("&apos;");
    reveal_strlit("&#13;");
    reveal_strlit("&#10;");
    reveal_strlit("&#9;");
    reveal_strlit("amp");
    reveal_strlit("lt");
    reveal_strlit("gt");
    reveal_strlit("quot");
    reveal_strlit("apos");
    reveal_strlit("&");
    reveal_strlit("<");
    reveal_strlit(">");
    reveal_strlit("\"");
    reveal_strlit("'");
    if c == '&' {
        assert(escaped_char(c) =~= seq!['&'] + "amp"@ + seq![';']);
        lemma_unescaped_reference("amp"@, "&"@, r);
    } else if c == '<' {
        assert(escaped_char(c) =~= seq!['&'] + "lt"@ + seq![';']);
        lemma_unescaped_reference("lt"@, "<"@, r);
    } else if c == '>' {
        assert("gt"@[0] != "lt"@[0]);
        assert(escaped_char(c) =~= seq!['&'] + "gt"@ + seq![';']);
        lemma_unescaped_reference("gt"@, ">"@, r);
    } else if c == '"' {
        assert(escaped_char(c) =~= seq!['&'] + "quot"@ + seq![';']);
        lemma_unescaped_reference("quot"@, "\""@, r);
    } else if c == '\'' {
        assert("apos"@[0] != "quot"@[0]);
        assert(escaped_char(c) =~= seq!['&'] + "apos"@ + seq![';']);
        lemma_unescaped_reference("apos"@, "'"@, r);
    } else if c == '\r' || c == '\n' || c == '\t' {
        let d: Seq<char> = if c == '\r' {
            seq!['1', '3']
        } else if c == '\n' {
            seq!['1', '0']
        } else {
            seq!['9']
        };
        let body = seq!['#'] + d;
        assert(escaped_char(c) =~= seq!['&'] + body + seq![';']);
        assert(body.skip(1) =~= d);
        let v: nat = if c == '\r' {
            13
        } else if c == '\n' {
            10
        } else {
            9
        };
        if c == '\t' {
            assert(d.drop_last() =~= Seq::<char>::empty());
            assert(crate::formats::content_list::digits_value(d.drop_last(), 10) == Some(0nat));
            assert(d.last() == '9');
            assert(crate::formats::content_list::digits_value(d, 10) == Some(v));
        } else {
            assert(d.drop_last() =~= seq!['1']);
            assert(d.drop_last().drop_last() =~= Seq::<char>::empty());
            assert(crate::formats::content_list::digits_value(d.drop_last().drop_last(), 10) == Some(0nat));
            assert(d.drop_last().last() == '1');
            assert(crate::formats::content_list::digits_value(d.drop_last(), 10) == Some(1nat));
            assert(crate::formats::content_list::digits_value(d, 10) == Some(v));
        }
        assert(body[1] != 'x');
        assert(seq![v as char] =~= seq![c]);
        assert(reference_text(body) == Some(seq![c]));
        lemma_unescaped_reference(body, seq![c], r);
    } else {
        assert(escaped_char(c) =~= seq![c]);
        lemma_unescaped_plain_prefix(seq![c], r);
    }
}

/// Escaping then unescaping gives the text back, for text without
/// characters that XML forbids (those are dropped by escaping; `"\u{1}"`
/// is such a text).
pub proof fn law_escape_roundtrip(x: Seq<char>)
    requires
        forall|i: int| 0 <= i < x.len() ==> !illegal_xml_char(#[trigger] x[i]),
    ensures
        unescaped(escaped(x)) == x,
    decreases x.len(),
{
    if x.len() == 0 {
        assert(escaped(x) =~= Seq::<char>::empty());
        assert(char_find(Seq::<char>::empty(), '&', 0) is None);
    } else {
        let rest = x.skip(1);
        assert(x =~= seq![x[0]] + rest);
        lemma_escaped_concat(seq![x[0]], rest);
        let one = seq![x[0]];
        assert(one.drop_last() =~= Seq::<char>::empty());
        assert(escaped(one.drop_last()) =~= Seq::<char>::empty());
        assert(one.last() == x[0]);
        assert(escaped(one) =~= escaped_char(x[0]));
        assert forall|i: int| 0 <= i < rest.len() implies !illegal_xml_char(#[trigger] rest[i]) by {
            assert(rest[i] == x[i + 1]);
        }
        law_escape_roundtrip(rest);
        lemma_escape_char_roundtrip(x[0], escaped(rest));
    }
}

} // verus!
