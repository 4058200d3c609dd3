//! `<contentList>` localisation XML: the rich-text tag rules that decide which
//! `<...>` fragments of an entry are written back as real markup, and the
//! character rules that keep the written document well-formed XML.

use vstd::prelude::*;
use vstd::string::StringSliceAdditionalSpecFns;
use quick_xml::events::Event;
use crate::error::AppError;
use crate::formats::loca::{entries_model, has_uid, lemma_entries_model_push};
use crate::types::{effective_text_of, new_entry, EntryModel, TranslationEntry};
use crate::text::{
    chars_eq, chars_eq_str, chars_of, copy_range, ends_with, extend_chars, extend_str, trim_chars, is_ascii_alnum_spec, is_ascii_alpha_spec,
    is_ascii_alphabetic, is_ascii_alphanumeric, is_whitespace, is_ws, lemma_trim_end_take,
    push_token, seqs_of, string_of, trim, trim_bounds, trim_end, ws_find, ws_find_exec, ws_skip,
    ws_skip_exec,
};

verus! {

// ─────────────────────────────────────────────────────────────
// Tag candidates
// ─────────────────────────────────────────────────────────────

/// Scanning a tag candidate from position `j` with the given open quote:
/// the index of the `>` that ends it. A `>` inside a quoted attribute value
/// does not end the tag; a `<` outside quotes, or the end of the text, means
/// there is no tag.
pub open spec fn tag_close(s: Seq<char>, j: int, quote: Option<char>) -> Option<int>
    decreases s.len() - j,
{
    if j < 0 || j >= s.len() {
        None
    } else {
        match quote {
            Some(q) => if s[j] == q {
                tag_close(s, j + 1, None)
            } else {
                tag_close(s, j + 1, quote)
            },
            None => if s[j] == '"' || s[j] == '\'' {
                tag_close(s, j + 1, Some(s[j]))
            } else if s[j] == '>' {
                Some(j)
            } else if s[j] == '<' {
                None
            } else {
                tag_close(s, j + 1, None)
            },
        }
    }
}

pub proof fn lemma_tag_close_range(s: Seq<char>, j: int, quote: Option<char>)
    ensures
        tag_close(s, j, quote) matches Some(g) ==> j <= g < s.len() && s[g] == '>',
    decreases s.len() - j,
{
    if 0 <= j < s.len() {
        match quote {
            Some(q) => {
                if s[j] == q {
                    lemma_tag_close_range(s, j + 1, None);
                } else {
                    lemma_tag_close_range(s, j + 1, quote);
                }
            },
            None => {
                if s[j] == '"' || s[j] == '\'' {
                    lemma_tag_close_range(s, j + 1, Some(s[j]));
                } else if s[j] != '>' && s[j] != '<' {
                    lemma_tag_close_range(s, j + 1, None);
                }
            },
        }
    }
}

/// Index of the `>` closing the tag candidate whose body starts at `from`.
pub fn find_tag_close(s: &[char], from: usize) -> (r: Option<usize>)
    ensures
        r == (match tag_close(s@, from as int, None) {
            Some(g) => Some(g as usize),
            None => None::<usize>,
        }),
        r matches Some(g) ==> from <= g < s@.len() && s@[g as int] == '>',
        tag_close(s@, from as int, None) matches Some(g) ==> from <= g < s@.len() && s@[g] == '>',
{
    proof {
        lemma_tag_close_range(s@, from as int, None);
    }
    let mut quote: Option<char> = None;
    let mut i = from;
    while i < s.len()
        invariant
            from <= i,
            tag_close(s@, from as int, None) == tag_close(s@, i as int, quote),
        decreases s@.len() - i,
    {
        let c = s[i];
        match quote {
            Some(q) => {
                if c == q {
                    quote = None;
                }
            },
            None => {
                if c == '"' || c == '\'' {
                    quote = Some(c);
                } else if c == '>' {
                    return Some(i);
                } else if c == '<' {
                    return None;
                }
            },
        }
        i = i + 1;
    }
    None
}

/// The byte-level form of [`tag_close`], over the UTF-8 bytes of a text.
pub open spec fn tag_close_bytes(b: Seq<u8>, j: int, quote: Option<u8>) -> Option<int>
    decreases b.len() - j,
{
    if j < 0 || j >= b.len() {
        None
    } else {
        match quote {
            Some(q) => if b[j] == q {
                tag_close_bytes(b, j + 1, None)
            } else {
                tag_close_bytes(b, j + 1, quote)
            },
            None => if b[j] == 0x22 || b[j] == 0x27 {
                tag_close_bytes(b, j + 1, Some(b[j]))
            } else if b[j] == 0x3e {
                Some(j)
            } else if b[j] == 0x3c {
                None
            } else {
                tag_close_bytes(b, j + 1, None)
            },
        }
    }
}

/// Starting from `text[start]`, which must be `<`, scans a tag candidate and
/// returns the byte index just past its closing `>`; `None` when `text[start]`
/// is not `<`, when an unquoted `<` comes first, or when the text ends.
pub fn scan_tag_end(text: &str, start: usize) -> (r: Option<usize>)
    ensures
        r == (if start < text.spec_bytes().len() && text.spec_bytes()[start as int] == 0x3c {
            match tag_close_bytes(text.spec_bytes(), start + 1, None) {
                Some(g) => Some((g + 1) as usize),
                None => None::<usize>,
            }
        } else {
            None::<usize>
        }),
{
    let bytes = text.as_bytes();
    if start >= bytes.len() || bytes[start] != 0x3c {
        return None;
    }
    let mut quote: Option<u8> = None;
    let mut i = start + 1;
    while i < bytes.len()
        invariant
            bytes@ == text.spec_bytes(),
            start < i,
            start < bytes@.len(),
            bytes@[start as int] == 0x3c,
            tag_close_bytes(bytes@, start + 1, None) == tag_close_bytes(bytes@, i as int, quote),
        decreases bytes@.len() - i,
    {
        let byte = bytes[i];
        match quote {
            Some(q) => {
                if byte == q {
                    quote = None;
                }
            },
            None => {
                if byte == 0x22 || byte == 0x27 {
                    quote = Some(byte);
                } else if byte == 0x3e {
                    return Some(i + 1);
                } else if byte == 0x3c {
                    return None;
                }
            },
        }
        i = i + 1;
    }
    None
}

// ─────────────────────────────────────────────────────────────
// Single-tag validation
// ─────────────────────────────────────────────────────────────

/// What quick-xml's reader makes of the first event of `tag`: for a start
/// or empty-element tag, its name and whether every attribute parses.
pub uninterp spec fn xml_first_tag(tag: Seq<char>) -> Option<(Seq<char>, bool)>;

/// `quick_xml::Reader::read_event_into` on `tag`, keeping the first event
/// when it is a start or empty-element tag: its name, and whether each of its
/// lazily parsed attributes is `Ok`. Any other event or a reader error gives
/// `None`. The result is named (`xml_first_tag`) rather than spelled out:
/// it is the outcome of quick-xml's tokenizer on the text.
#[verifier::external_body]
fn read_first_tag(tag: &str) -> (r: Option<(String, bool)>)
    ensures
        r is None <==> xml_first_tag(tag@) is None,
        r matches Some(p) ==> xml_first_tag(tag@) == Some((p.0@, p.1)),
{
    let mut reader = quick_xml::Reader::from_str(tag);
    reader.config_mut().trim_text(false);
    let mut buf = Vec::new();
    match reader.read_event_into(&mut buf) {
        Ok(quick_xml::events::Event::Start(e)) | Ok(quick_xml::events::Event::Empty(e)) => {
            let attributes_ok = e.attributes().all(|a| a.is_ok());
            Some((e.name().as_ref().to_string(), attributes_ok))
        },
        _ => None,
    }
}

pub open spec fn is_name_start_char(c: char) -> bool {
    is_ascii_alpha_spec(c) || c == '_' || c == ':'
}

pub open spec fn is_name_char(c: char) -> bool {
    is_ascii_alnum_spec(c) || c == '_' || c == ':' || c == '.' || c == '-'
}

/// An XML name in its ASCII form.
pub open spec fn is_xml_name(n: Seq<char>) -> bool {
    n.len() > 0 && is_name_start_char(n[0]) && forall|i: int| 1 <= i < n.len() ==> is_name_char(#[trigger] n[i])
}

fn xml_name_ok(n: &[char]) -> (r: bool)
    ensures
        r == is_xml_name(n@),
{
    if n.len() == 0 {
        return false;
    }
    let c = n[0];
    if !(is_ascii_alphabetic(c) || c == '_' || c == ':') {
        return false;
    }
    let mut i: usize = 1;
    while i < n.len()
        invariant
            1 <= i <= n@.len(),
            forall|k: int| 1 <= k < i ==> is_name_char(#[trigger] n@[k]),
        decreases n@.len() - i,
    {
        let d = n[i];
        if !(is_ascii_alphanumeric(d) || d == '_' || d == ':' || d == '.' || d == '-') {
            return false;
        }
        i = i + 1;
    }
    true
}

/// The name of `tag` when it is exactly one well-formed XML tag: an end tag
/// `</name>` (name checked syntactically, trailing whitespace allowed), or a
/// start / empty-element tag that quick-xml reads with a non-empty name and
/// attributes that all parse.
pub open spec fn single_tag_name(tag: Seq<char>) -> Option<Seq<char>> {
    if tag.len() < 2 || tag[0] != '<' || tag.last() != '>' {
        None
    } else {
        let body = tag.subrange(1, tag.len() - 1);
        if body.len() > 0 && body[0] == '/' {
            let name = trim_end(body.skip(1));
            if is_xml_name(name) {
                Some(name)
            } else {
                None
            }
        } else {
            match xml_first_tag(tag) {
                Some((name, attributes_ok)) => if attributes_ok && name.len() > 0 {
                    Some(name)
                } else {
                    None
                },
                None => None,
            }
        }
    }
}

/// The rich-text tag names that may stay as markup in a translation.
pub open spec fn is_inline_tag_name(n: Seq<char>) -> bool {
    ||| n == "LSTag"@
    ||| n == "font"@
    ||| n == "i"@
    ||| n == "b"@
    ||| n == "u"@
    ||| n == "br"@
    ||| n == "span"@
    ||| n == "em"@
    ||| n == "strong"@
}

/// Elements that need no closing tag.
pub open spec fn is_void_tag_name(n: Seq<char>) -> bool {
    n == "br"@
}

/// A whitelisted rich-text tag that is itself one well-formed XML tag.
pub open spec fn allowed_inline_tag(tag: Seq<char>) -> bool {
    match single_tag_name(tag) {
        Some(name) => is_inline_tag_name(name),
        None => false,
    }
}

proof fn lemma_end_tag_allowed(n: Seq<char>)
    requires
        is_xml_name(n),
        is_inline_tag_name(n),
    ensures
        single_tag_name(seq!['<', '/'] + n + seq!['>']) == Some(n),
        allowed_inline_tag(seq!['<', '/'] + n + seq!['>']),
{
    let tag = seq!['<', '/'] + n + seq!['>'];
    let body = tag.subrange(1, tag.len() - 1);
    assert(body =~= seq!['/'] + n);
    assert(body.skip(1) =~= n);
    assert(!is_ws(n.last()));
    assert(trim_end(n) == n);
}

/// The end tags `</LSTag>`, `</font>`, `</i>`, `</b>`, `</u>`, `</br>`,
/// `</span>`, `</em>` and `</strong>` are each an allowed inline tag (so a
/// translation that drops one is caught), and every allowed inline tag is
/// one well-formed tag with one of those names.
pub proof fn law_inline_tag_whitelist(n: Seq<char>, tag: Seq<char>)
    ensures
        (n == "LSTag"@ || n == "font"@ || n == "i"@ || n == "b"@ || n == "u"@ || n == "br"@ || n == "span"@
            || n == "em"@ || n == "strong"@) ==> allowed_inline_tag(seq!['<', '/'] + n + seq!['>']),
        allowed_inline_tag(tag) ==> (single_tag_name(tag) matches Some(m) && (m == "LSTag"@ || m == "font"@
            || m == "i"@ || m == "b"@ || m == "u"@ || m == "br"@ || m == "span"@ || m == "em"@ || m == "strong"@)),
{
    reveal_strlit("LSTag");
    reveal_strlit("font");
    reveal_strlit("i");
    reveal_strlit("b");
    reveal_strlit("u");
    reveal_strlit("br");
    reveal_strlit("span");
    reveal_strlit("em");
    reveal_strlit("strong");
    if n == "LSTag"@ || n == "font"@ || n == "i"@ || n == "b"@ || n == "u"@ || n == "br"@ || n == "span"@
        || n == "em"@ || n == "strong"@ {
        assert(is_xml_name(n));
        lemma_end_tag_allowed(n);
    }
}

fn trim_end_bounds(v: &[char], from: usize) -> (r: usize)
    requires
        from <= v@.len(),
    ensures
        from <= r <= v@.len(),
        trim_end(v@.skip(from as int)) == v@.subrange(from as int, r as int),
{
    let mut b: usize = v.len();
    while b > from && is_whitespace(v[b - 1])
        invariant
            from <= b <= v@.len(),
            forall|k: int| b <= k < v@.len() ==> is_ws(#[trigger] v@[k]),
        decreases b,
    {
        b = b - 1;
    }
    proof {
        let t = v@.skip(from as int);
        assert forall|k: int| b - from <= k < t.len() implies is_ws(#[trigger] t[k]) by {
            assert(t[k] == v@[from + k]);
        }
        lemma_trim_end_take(t, b - from);
        assert(t.take(b - from) =~= v@.subrange(from as int, b as int));
        let u = v@.subrange(from as int, b as int);
        if u.len() > 0 {
            assert(u.last() == v@[b - 1]);
        }
    }
    b
}

/// Name of `tag` when it is exactly one well-formed tag (see [`single_tag_name`]).
pub fn parse_single_tag(tag: &[char]) -> (r: Option<Vec<char>>)
    ensures
        match r {
            Some(n) => single_tag_name(tag@) == Some(n@),
            None => single_tag_name(tag@) is None,
        },
{
    let n = tag.len();
    if n < 2 || tag[0] != '<' || tag[n - 1] != '>' {
        return None;
    }
    if tag[1] == '/' && n > 2 {
        proof {
            let body = tag@.subrange(1, n - 1);
            assert(body.skip(1) =~= tag@.subrange(2, n - 1));
        }
        let e2 = trim_end_bounds(&copy_range(tag, 0, n - 1), 2);
        let name = copy_range(tag, 2, e2);
        proof {
            let w = tag@.subrange(0, n - 1);
            assert(w.skip(2) =~= tag@.subrange(2, n - 1));
            assert(w.subrange(2, e2 as int) =~= tag@.subrange(2, e2 as int));
        }
        if xml_name_ok(&name) {
            return Some(name);
        }
        return None;
    }
    proof {
        let body = tag@.subrange(1, n - 1);
        if body.len() > 0 {
            assert(body[0] == tag@[1]);
        }
    }
    let s = string_of(tag);
    match read_first_tag(s.as_str()) {
        Some((name, attributes_ok)) => {
            let nv = chars_of(name.as_str());
            if attributes_ok && nv.len() > 0 {
                Some(nv)
            } else {
                None
            }
        },
        None => None,
    }
}

fn is_inline_name(n: &[char]) -> (r: bool)
    ensures
        r == is_inline_tag_name(n@),
{
    chars_eq_str(n, "LSTag") || chars_eq_str(n, "font") || chars_eq_str(n, "i") || chars_eq_str(
        n,
        "b",
    ) || chars_eq_str(n, "u") || chars_eq_str(n, "br") || chars_eq_str(n, "span")
        || chars_eq_str(n, "em") || chars_eq_str(n, "strong")
}

/// Whether a `<...>` fragment is a whitelisted rich-text tag that is itself
/// exactly one well-formed XML tag.
pub fn is_allowed_inline_chars(tag: &[char]) -> (r: bool)
    ensures
        r == allowed_inline_tag(tag@),
{
    match parse_single_tag(tag) {
        Some(name) => is_inline_name(&name),
        None => false,
    }
}

/// Whether `tag` is a whitelisted rich-text tag that is itself exactly one
/// well-formed XML tag.
pub fn is_allowed_inline_tag(tag: &str) -> (r: bool)
    ensures
        r == allowed_inline_tag(tag@),
{
    let v = chars_of(tag);
    is_allowed_inline_chars(&v)
}

// ─────────────────────────────────────────────────────────────
// Tag balance
// ─────────────────────────────────────────────────────────────

/// The first whitespace-separated word of `t` (empty when there is none).
pub open spec fn first_word(t: Seq<char>) -> Seq<char> {
    t.subrange(ws_skip(t, 0), ws_find(t, ws_skip(t, 0)))
}

/// Balance of the whitelisted tags of `s` from index `i`, with the names of
/// the still-open tags on `stack`: every closing tag must match the innermost
/// open tag and none may stay open; self-closing and void tags need no
/// partner, and fragments that are not whitelisted tags are text.
pub open spec fn balanced_from(s: Seq<char>, i: int, stack: Seq<Seq<char>>) -> bool
    decreases s.len() - i,
{
    if i < 0 || i >= s.len() {
        stack.len() == 0
    } else if s[i] != '<' {
        balanced_from(s, i + 1, stack)
    } else {
        proof {
            lemma_tag_close_range(s, i + 1, None);
        }
        match tag_close(s, i + 1, None) {
            Some(g) => if allowed_inline_tag(s.subrange(i, g + 1)) {
                let inner = trim(s.subrange(i + 1, g));
                if inner.len() > 0 && inner.last() == '/' {
                    balanced_from(s, g + 1, stack)
                } else if inner.len() > 0 && inner[0] == '/' {
                    let name = trim(inner.drop_first());
                    if stack.len() > 0 && stack.last() == name {
                        balanced_from(s, g + 1, stack.drop_last())
                    } else {
                        false
                    }
                } else {
                    let name = first_word(inner);
                    if is_void_tag_name(name) {
                        balanced_from(s, g + 1, stack)
                    } else {
                        balanced_from(s, g + 1, stack.push(name))
                    }
                }
            } else {
                balanced_from(s, i + 1, stack)
            },
            None => balanced_from(s, i + 1, stack),
        }
    }
}

/// Whether the whitelisted rich-text tags of a text are balanced.
pub open spec fn tag_balanced(s: Seq<char>) -> bool {
    balanced_from(s, 0, Seq::empty())
}

fn trimmed(v: &[char]) -> (r: Vec<char>)
    ensures
        r@ == trim(v@),
{
    let (a, b) = trim_bounds(v);
    copy_range(v, a, b)
}

/// Whether the rich-text tags in `text` are balanced (opening and closing
/// tags pair up; self-closing and void tags stand alone). Only balanced text
/// is written back with its tags as markup.
pub fn is_tag_balanced(text: &str) -> (r: bool)
    ensures
        r == tag_balanced(text@),
{
    let s = chars_of(text);
    let mut stack: Vec<Vec<char>> = Vec::new();
    let mut i: usize = 0;
    assert(seqs_of(stack@) =~= Seq::<Seq<char>>::empty());
    while i < s.len()
        invariant
            i <= s@.len(),
            s@ == text@,
            balanced_from(s@, i as int, seqs_of(stack@)) == tag_balanced(text@),
        decreases s@.len() - i,
    {
        if s[i] != '<' {
            i = i + 1;
        } else {
            proof {
                lemma_tag_close_range(s@, i + 1, None);
            }
            match find_tag_close(s.as_slice(), i + 1) {
                Some(g) => {
                    let tag = copy_range(s.as_slice(), i, g + 1);
                    if is_allowed_inline_chars(tag.as_slice()) {
                        let raw = copy_range(s.as_slice(), i + 1, g);
                        let inner = trimmed(raw.as_slice());
                        let n = inner.len();
                        if n > 0 && inner[n - 1] == '/' {
                            i = g + 1;
                        } else if n > 0 && inner[0] == '/' {
                            let rest = copy_range(inner.as_slice(), 1, n);
                            assert(rest@ =~= inner@.drop_first());
                            let name = trimmed(rest.as_slice());
                            let k = stack.len();
                            if k > 0 && chars_eq(stack[k - 1].as_slice(), name.as_slice()) {
                                let ghost before = seqs_of(stack@);
                                stack.pop();
                                assert(seqs_of(stack@) =~= before.drop_last());
                                i = g + 1;
                            } else {
                                return false;
                            }
                        } else {
                            let a = ws_skip_exec(inner.as_slice(), 0);
                            let b = ws_find_exec(inner.as_slice(), a);
                            let name = copy_range(inner.as_slice(), a, b);
                            if !chars_eq_str(name.as_slice(), "br") {
                                push_token(&mut stack, name);
                            }
                            i = g + 1;
                        }
                    } else {
                        i = i + 1;
                    }
                },
                None => {
                    i = i + 1;
                },
            }
        }
    }
    stack.len() == 0
}

// ─────────────────────────────────────────────────────────────
// Entity references
// ─────────────────────────────────────────────────────────────

pub open spec fn hex_digit_value(c: char) -> Option<nat> {
    if '0' <= c && c <= '9' {
        Some((c as u32 - '0' as u32) as nat)
    } else if 'a' <= c && c <= 'f' {
        Some((c as u32 - 'a' as u32 + 10) as nat)
    } else if 'A' <= c && c <= 'F' {
        Some((c as u32 - 'A' as u32 + 10) as nat)
    } else {
        None
    }
}

/// The value of a non-empty run of digits in `radix` (10 or 16).
pub open spec fn digits_value(d: Seq<char>, radix: nat) -> Option<nat>
    decreases d.len(),
{
    if d.len() == 0 {
        Some(0)
    } else {
        let dv: Option<nat> = if radix == 16 {
            hex_digit_value(d.last())
        } else if crate::text::is_ascii_digit_spec(d.last()) {
            Some((d.last() as u32 - '0' as u32) as nat)
        } else {
            None
        };
        match (digits_value(d.drop_last(), radix), dv) {
            (Some(v), Some(x)) => Some(v * radix + x),
            _ => None,
        }
    }
}

/// A code point that a character reference may denote: a Unicode scalar
/// value other than 0.
pub open spec fn referable(v: nat) -> bool {
    0 < v <= 0x10FFFF && !(0xD800 <= v <= 0xDFFF)
}

/// What the body of a reference `&body;` stands for: the five predefined
/// entities, `#` + decimal digits, or `#x` + hexadecimal digits (lowercase
/// `x`) naming a non-zero scalar value. Anything else stays unresolved.
pub open spec fn reference_text(body: Seq<char>) -> Option<Seq<char>> {
    if body == "amp"@ {
        Some("&"@)
    } else if body == "lt"@ {
        Some("<"@)
    } else if body == "gt"@ {
        Some(">"@)
    } else if body == "quot"@ {
        Some("\""@)
    } else if body == "apos"@ {
        Some("'"@)
    } else if body.len() >= 3 && body[0] == '#' && body[1] == 'x' {
        match digits_value(body.skip(2), 16) {
            Some(v) => if referable(v) {
                Some(seq![v as char])
            } else {
                None
            },
            None => None,
        }
    } else if body.len() >= 2 && body[0] == '#' {
        match digits_value(body.skip(1), 10) {
            Some(v) => if referable(v) {
                Some(seq![v as char])
            } else {
                None
            },
            None => None,
        }
    } else {
        None
    }
}

fn digit_run_value(d: &[char], from: usize, radix: u32) -> (r: Option<u32>)
    requires
        from <= d@.len(),
        radix == 10 || radix == 16,
    ensures
        match r {
            Some(v) => digits_value(d@.skip(from as int), radix as nat) == Some(v as nat) && v <= 0x10FFFF,
            None => digits_value(d@.skip(from as int), radix as nat) is None
                || (digits_value(d@.skip(from as int), radix as nat) matches Some(v) && v > 0x10FFFF),
        },
{
    let mut v: u32 = 0;
    let mut i = from;
    assert(d@.skip(from as int).take(0) =~= Seq::<char>::empty());
    while i < d.len()
        invariant
            from <= i <= d@.len(),
            radix == 10 || radix == 16,
            digits_value(d@.skip(from as int).take(i - from), radix as nat) == Some(v as nat),
            v <= 0x10FFFF,
        decreases d@.len() - i,
    {
        let c = d[i];
        let x: u32 = if radix == 16 {
            if '0' <= c && c <= '9' {
                c as u32 - '0' as u32
            } else if 'a' <= c && c <= 'f' {
                c as u32 - 'a' as u32 + 10
            } else if 'A' <= c && c <= 'F' {
                c as u32 - 'A' as u32 + 10
            } else {
                proof {
                    lemma_digits_prefix_none(d@.skip(from as int), radix as nat, i - from);
                }
                return None;
            }
        } else {
            if '0' <= c && c <= '9' {
                c as u32 - '0' as u32
            } else {
                proof {
                    lemma_digits_prefix_none(d@.skip(from as int), radix as nat, i - from);
                }
                return None;
            }
        };
        let ghost t = d@.skip(from as int);
        assert(t.take(i - from + 1).drop_last() =~= t.take(i - from));
        assert(t.take(i - from + 1).last() == c);
        if v > (0x10FFFF - x) / radix {
            proof {
                assert(v * radix + x > 0x10FFFF) by (nonlinear_arith)
                    requires
                        v as int > (0x10FFFF - x as int) / (radix as int),
                        radix > 0,
                        x < radix,
                ;
                lemma_digits_prefix_big(t, radix as nat, i - from + 1);
            }
            return None;
        }
        proof {
            assert(v * radix + x <= 0x10FFFF) by (nonlinear_arith)
                requires
                    v as int <= (0x10FFFF - x as int) / (radix as int),
                    radix > 0,
                    x < radix,
            ;
        }
        v = v * radix + x;
        i = i + 1;
    }
    assert(d@.skip(from as int).take(d@.len() - from) =~= d@.skip(from as int));
    Some(v)
}

/// A prefix with a non-digit makes the whole run invalid.
proof fn lemma_digits_prefix_none(t: Seq<char>, radix: nat, k: int)
    requires
        0 <= k < t.len(),
        radix == 10 || radix == 16,
        radix == 16 ==> hex_digit_value(t[k]) is None,
        radix == 10 ==> !crate::text::is_ascii_digit_spec(t[k]),
    ensures
        digits_value(t, radix) is None,
    decreases t.len(),
{
    if k < t.len() - 1 {
        lemma_digits_prefix_none(t.drop_last(), radix, k);
    }
}

/// Once a prefix exceeds the bound, so does the whole run (or it is invalid).
proof fn lemma_digits_prefix_big(t: Seq<char>, radix: nat, k: int)
    requires
        0 < k <= t.len(),
        radix == 10 || radix == 16,
        digits_value(t.take(k), radix) matches Some(v) && v > 0x10FFFF,
    ensures
        digits_value(t, radix) is None || (digits_value(t, radix) matches Some(v) && v > 0x10FFFF),
    decreases t.len() - k,
{
    if k < t.len() {
        assert(t.drop_last().take(k) =~= t.take(k));
        lemma_digits_prefix_big(t.drop_last(), radix, k);
        match digits_value(t.drop_last(), radix) {
            Some(v) => {
                assert(v * radix >= v) by (nonlinear_arith)
                    requires
                        radix >= 1,
                ;
            },
            None => {},
        }
    } else {
        assert(t.take(k) =~= t);
    }
}

/// `char::from_u32`: the character with code point `v`, when `v` is a
/// Unicode scalar value.
#[verifier::external_body]
fn char_from_u32(v: u32) -> (r: Option<char>)
    ensures
        (v <= 0x10FFFF && !(0xD800 <= v <= 0xDFFF)) ==> r == Some(v as char),
        !(v <= 0x10FFFF && !(0xD800 <= v <= 0xDFFF)) ==> r is None,
{
    char::from_u32(v)
}

fn referenced_char(v: u32) -> (r: Option<Vec<char>>)
    ensures
        match r {
            Some(t) => referable(v as nat) && t@ == seq![v as char],
            None => !referable(v as nat),
        },
{
    if v == 0 {
        return None;
    }
    match char_from_u32(v) {
        Some(c) => {
            let mut t: Vec<char> = Vec::new();
            t.push(c);
            Some(t)
        },
        None => None,
    }
}

/// Decodes the body of a reference `&body;` (see [`reference_text`]).
pub fn decode_reference_chars(body: &[char]) -> (r: Option<Vec<char>>)
    ensures
        match r {
            Some(t) => reference_text(body@) == Some(t@),
            None => reference_text(body@) is None,
        },
{
    proof {
        reveal_strlit("amp");
        reveal_strlit("lt");
        reveal_strlit("gt");
        reveal_strlit("quot");
        reveal_strlit("apos");
        reveal_strlit("&");
        reveal_strlit("<");
        reveal_strlit(">");
        reveal_strlit("\"");
        reveal_strlit("'");
    }
    if chars_eq_str(body, "amp") {
        return Some(chars_of("&"));
    }
    if chars_eq_str(body, "lt") {
        return Some(chars_of("<"));
    }
    if chars_eq_str(body, "gt") {
        return Some(chars_of(">"));
    }
    if chars_eq_str(body, "quot") {
        return Some(chars_of("\""));
    }
    if chars_eq_str(body, "apos") {
        return Some(chars_of("'"));
    }
    if body.len() >= 3 && body[0] == '#' && body[1] == 'x' {
        return match digit_run_value(body, 2, 16) {
            Some(v) => referenced_char(v),
            None => None,
        };
    }
    if body.len() >= 2 && body[0] == '#' {
        return match digit_run_value(body, 1, 10) {
            Some(v) => referenced_char(v),
            None => None,
        };
    }
    None
}

/// Decodes the body of a reference `&body;`: the five predefined entities
/// and decimal / hexadecimal character references; `None` otherwise.
pub fn decode_reference_body(body: &str) -> (r: Option<String>)
    ensures
        match r {
            Some(t) => reference_text(body@) == Some(t@),
            None => reference_text(body@) is None,
        },
{
    let v = chars_of(body);
    match decode_reference_chars(v.as_slice()) {
        Some(t) => Some(string_of(t.as_slice())),
        None => None,
    }
}

/// Text with its references resolved: at each `&`, the text up to the next
/// `;` is resolved when it is a known reference; otherwise the `&` stays as
/// it is and scanning goes on after it.
pub open spec fn decoded_entities(s: Seq<char>) -> Seq<char>
    decreases s.len(),
{
    if s.len() == 0 {
        s
    } else if s[0] == '&' {
        proof {
            crate::text::lemma_char_find_range(s, ';', 1);
        }
        match crate::text::char_find(s, ';', 1) {
            Some(q) => match reference_text(s.subrange(1, q)) {
                Some(t) => t + decoded_entities(s.skip(q + 1)),
                None => seq!['&'] + decoded_entities(s.skip(1)),
            },
            None => seq!['&'] + decoded_entities(s.skip(1)),
        }
    } else {
        seq![s[0]] + decoded_entities(s.skip(1))
    }
}

/// Resolves the references of a text (see [`decoded_entities`]): unknown or
/// malformed references are kept character for character.
pub fn decode_entities(text: &str) -> (r: String)
    ensures
        r@ == decoded_entities(text@),
{
    let s = chars_of(text);
    let mut out: Vec<char> = Vec::new();
    let mut i: usize = 0;
    assert(s@.skip(0) =~= s@);
    assert(out@ + decoded_entities(s@.skip(0)) =~= decoded_entities(s@));
    while i < s.len()
        invariant
            i <= s@.len(),
            out@ + decoded_entities(s@.skip(i as int)) == decoded_entities(text@),
            s@ == text@,
        decreases s@.len() - i,
    {
        let ghost rest = s@.skip(i as int);
        let ghost before = out@;
        if s[i] == '&' {
            match crate::text::char_find_exec(s.as_slice(), ';', i + 1) {
                Some(q) => {
                    proof {
                        crate::text::lemma_char_find_shift(s@, ';', i as int, 1);
                        assert(rest.subrange(1, q - i) =~= s@.subrange(i + 1, q as int));
                        assert(rest.skip(q - i + 1) =~= s@.skip(q + 1));
                        assert(rest.skip(1) =~= s@.skip(i + 1));
                    }
                    let body = copy_range(s.as_slice(), i + 1, q);
                    match decode_reference_chars(body.as_slice()) {
                        Some(t) => {
                            crate::text::extend_chars(&mut out, t.as_slice());
                            assert(out@ + decoded_entities(s@.skip(q + 1)) =~= before + (t@ + decoded_entities(rest.skip(q - i + 1))));
                            i = q + 1;
                        },
                        None => {
                            out.push('&');
                            assert(out@ + decoded_entities(s@.skip(i + 1)) =~= before + (seq!['&'] + decoded_entities(rest.skip(1))));
                            i = i + 1;
                        },
                    }
                },
                None => {
                    proof {
                        crate::text::lemma_char_find_shift(s@, ';', i as int, 1);
                        assert(rest.skip(1) =~= s@.skip(i + 1));
                    }
                    out.push('&');
                    assert(out@ + decoded_entities(s@.skip(i + 1)) =~= before + (seq!['&'] + decoded_entities(rest.skip(1))));
                    i = i + 1;
                },
            }
        } else {
            out.push(s[i]);
            assert(rest.skip(1) =~= s@.skip(i + 1));
            assert(out@ + decoded_entities(s@.skip(i + 1)) =~= before + (seq![s@[i as int]] + decoded_entities(rest.skip(1))));
            i = i + 1;
        }
    }
    assert(out@ + decoded_entities(s@.skip(i as int)) =~= out@);
    string_of(out.as_slice())
}

// ─────────────────────────────────────────────────────────────
// XML characters
// ─────────────────────────────────────────────────────────────

/// Characters that XML 1.0 does not allow at all (not even as references).
pub open spec fn illegal_xml_char(c: char) -> bool {
    ||| ('\u{0}' <= c && c <= '\u{8}')
    ||| c == '\u{B}'
    ||| c == '\u{C}'
    ||| ('\u{E}' <= c && c <= '\u{1F}')
    ||| c == '\u{FFFE}'
    ||| c == '\u{FFFF}'
}

/// Whether XML 1.0 forbids the character.
pub fn is_illegal_xml_char(c: char) -> (r: bool)
    ensures
        r == illegal_xml_char(c),
{
    ('\u{0}' <= c && c <= '\u{8}') || c == '\u{B}' || c == '\u{C}' || ('\u{E}' <= c && c
        <= '\u{1F}') || c == '\u{FFFE}' || c == '\u{FFFF}'
}

/// The text without XML-illegal characters.
pub open spec fn sanitized(s: Seq<char>) -> Seq<char>
    decreases s.len(),
{
    if s.len() == 0 {
        s
    } else if illegal_xml_char(s.last()) {
        sanitized(s.drop_last())
    } else {
        sanitized(s.drop_last()).push(s.last())
    }
}

/// Drops the characters that XML 1.0 forbids.
pub fn sanitize_xml_chars(text: &str) -> (r: String)
    ensures
        r@ == sanitized(text@),
{
    let s = chars_of(text);
    let mut out: Vec<char> = Vec::new();
    let mut i: usize = 0;
    assert(sanitized(s@.take(0)) =~= Seq::<char>::empty());
    while i < s.len()
        invariant
            i <= s@.len(),
            s@ == text@,
            out@ == sanitized(s@.take(i as int)),
        decreases s@.len() - i,
    {
        proof {
            assert(s@.take(i + 1).drop_last() =~= s@.take(i as int));
            assert(s@.take(i + 1).last() == s@[i as int]);
        }
        if !is_illegal_xml_char(s[i]) {
            out.push(s[i]);
        }
        i = i + 1;
    }
    assert(s@.take(s@.len() as int) =~= s@);
    string_of(out.as_slice())
}

/// Whether a handle (contentuid, version) holds an XML-illegal character.
pub open spec fn has_illegal_xml_char(s: Seq<char>) -> bool {
    exists|i: int| 0 <= i < s.len() && illegal_xml_char(#[trigger] s[i])
}

/// Rejects a handle that holds an XML-illegal character: handles are lookup
/// keys and are never rewritten.
pub fn reject_illegal_identity(value: &str, what: &str) -> (r: Result<(), crate::error::AppError>)
    ensures
        r is Err <==> has_illegal_xml_char(value@),
        r matches Err(e) ==> e is Xml,
{
    let s = chars_of(value);
    let mut i: usize = 0;
    while i < s.len()
        invariant
            i <= s@.len(),
            s@ == value@,
            forall|k: int| 0 <= k < i ==> !illegal_xml_char(#[trigger] s@[k]),
        decreases s@.len() - i,
    {
        if is_illegal_xml_char(s[i]) {
            let mut m = String::from_str(what);
            m.append(" 含 XML 非法控制字符，拒绝写回（句柄不允许被改写）");
            return Err(crate::error::AppError::Xml(m));
        }
        i = i + 1;
    }
    Ok(())
}


// ─────────────────────────────────────────────────────────────
// Reading a document
// ─────────────────────────────────────────────────────────────

/// One attribute of a tag as the reader gives it.
#[derive(Debug, Clone, PartialEq, Eq)]
pub struct XmlAttribute {
    pub key: String,
    /// The value as written in the document, references unresolved.
    pub raw: String,
    /// The value with references resolved and whitespace normalized.
    pub value: String,
}

/// The name and the attributes of a start or empty-element tag.
#[derive(Debug, Clone, PartialEq, Eq)]
pub struct XmlTag {
    pub name: String,
    pub attributes: Vec<XmlAttribute>,
}

/// One event of an XML document, as plain values.
#[derive(Debug, Clone, PartialEq, Eq)]
pub enum XmlEvent {
    Start(XmlTag),
    Empty(XmlTag),
    /// An end tag, by name.
    End(String),
    /// Character data, line ends normalized.
    Text(String),
    /// An entity or character reference `&name;`, by the text between `&` and `;`.
    Reference(String),
    CData(String),
    Eof,
    /// The reader stopped on malformed input, with its message.
    Failed(String),
    /// Declarations, comments, processing instructions, doctypes.
    Other,
}

pub struct AttributeModel {
    pub key: Seq<char>,
    pub raw: Seq<char>,
    pub value: Seq<char>,
}

pub struct TagModel {
    pub name: Seq<char>,
    pub attributes: Seq<AttributeModel>,
}

pub enum XmlEventModel {
    Start(TagModel),
    Empty(TagModel),
    End(Seq<char>),
    Text(Seq<char>),
    Reference(Seq<char>),
    CData(Seq<char>),
    Eof,
    Failed(Seq<char>),
    Other,
}

impl View for XmlAttribute {
    type V = AttributeModel;

    open spec fn view(&self) -> AttributeModel {
        AttributeModel { key: self.key@, raw: self.raw@, value: self.value@ }
    }
}

impl View for XmlTag {
    type V = TagModel;

    open spec fn view(&self) -> TagModel {
        TagModel {
            name: self.name@,
            attributes: Seq::new(self.attributes@.len(), |i: int| self.attributes@[i]@),
        }
    }
}

impl View for XmlEvent {
    type V = XmlEventModel;

    open spec fn view(&self) -> XmlEventModel {
        match self {
            XmlEvent::Start(t) => XmlEventModel::Start(t@),
            XmlEvent::Empty(t) => XmlEventModel::Empty(t@),
            XmlEvent::End(n) => XmlEventModel::End(n@),
            XmlEvent::Text(t) => XmlEventModel::Text(t@),
            XmlEvent::Reference(n) => XmlEventModel::Reference(n@),
            XmlEvent::CData(t) => XmlEventModel::CData(t@),
            XmlEvent::Eof => XmlEventModel::Eof,
            XmlEvent::Failed(m) => XmlEventModel::Failed(m@),
            XmlEvent::Other => XmlEventModel::Other,
        }
    }
}

/// The models of a list of events.
pub open spec fn events_model(v: Seq<XmlEvent>) -> Seq<XmlEventModel> {
    Seq::new(v.len(), |i: int| v[i]@)
}

/// quick-xml's reader, over the bytes of a document.
#[verifier::external_type_specification]
#[verifier::external_body]
#[verifier::reject_recursive_types(R)]
pub struct ExXmlReader<R>(quick_xml::Reader<R>);

/// quick-xml's start tag.
#[verifier::external_type_specification]
#[verifier::external_body]
pub struct ExBytesStart<'a>(quick_xml::events::BytesStart<'a>);

/// The name and attributes of a start tag as quick-xml reads them: every
/// attribute that parses, with its key, its raw value, and its value
/// normalized as an XML 1.0 attribute value (empty where that fails);
/// attributes that do not parse are skipped.
#[verifier::external_body]
fn plain_tag(e: &quick_xml::events::BytesStart) -> XmlTag {
    let attributes = e.attributes().flatten().map(|a| XmlAttribute {
        key: a.key.as_ref().to_string(),
        raw: a.value.to_string(),
        value: a.normalized_value(quick_xml::XmlVersion::Implicit1_0).unwrap_or_default().into_owned(),
    }).collect();
    XmlTag { name: e.name().as_ref().to_string(), attributes }
}

/// One `quick_xml::Reader::read_event` as a plain value: used only to
/// collect a document's events in [`read_xml_events`], whose contract
/// covers it.
#[verifier::external_body]
fn next_xml_event(reader: &mut quick_xml::Reader<&[u8]>) -> XmlEvent {
    match reader.read_event() {
        Ok(Event::Start(e)) => XmlEvent::Start(plain_tag(&e)),
        Ok(Event::Empty(e)) => XmlEvent::Empty(plain_tag(&e)),
        Ok(Event::End(e)) => XmlEvent::End(e.name().as_ref().to_string()),
        Ok(Event::Text(e)) => XmlEvent::Text(e.xml10_content().into_owned()),
        Ok(Event::GeneralRef(e)) => XmlEvent::Reference(e.as_ref().to_string()),
        Ok(Event::CData(e)) => XmlEvent::CData(e.as_ref().to_string()),
        Ok(Event::Eof) => XmlEvent::Eof,
        Ok(_) => XmlEvent::Other,
        Err(err) => XmlEvent::Failed(err.to_string()),
    }
}

/// The events quick-xml's reader (`Reader::from_str`, default configuration)
/// yields for a document, as plain values, up to and including the end of
/// the document or the first reader failure. They depend on the text alone.
pub uninterp spec fn xml_events(xml: Seq<char>) -> Seq<XmlEventModel>;

/// `quick_xml::Reader::from_str` and `read_event` until the end of the
/// document or a failure: the document's events, named by
/// [`xml_events`] rather than spelled out (they are quick-xml's tokenizer).
#[verifier::external_body]
fn read_xml_events(xml: &str) -> (r: Vec<XmlEvent>)
    ensures
        events_model(r@) == xml_events(xml@),
{
    let mut reader = quick_xml::Reader::from_str(xml);
    let mut events = Vec::new();
    loop {
        let event = next_xml_event(&mut reader);
        let last = matches!(event, XmlEvent::Eof | XmlEvent::Failed(_));
        events.push(event);
        if last {
            return events;
        }
    }
}

/// The `(key, value)` pairs of attributes.
pub open spec fn attribute_pairs(a: Seq<AttributeModel>) -> Seq<(Seq<char>, Seq<char>)> {
    Seq::new(a.len(), |i: int| (a[i].key, a[i].value))
}

/// The `contentuid` and `version` values of a `<content>` tag: the last
/// attribute of each name wins, and a missing one is empty.
pub open spec fn identity(a: Seq<AttributeModel>) -> (Seq<char>, Seq<char>)
    decreases a.len(),
{
    if a.len() == 0 {
        (Seq::empty(), Seq::empty())
    } else {
        let (u, v) = identity(a.drop_last());
        if a.last().key == "contentuid"@ {
            (a.last().value, v)
        } else if a.last().key == "version"@ {
            (u, a.last().value)
        } else {
            (u, v)
        }
    }
}

/// ` key="raw"` for each attribute, values left as written.
pub open spec fn raw_attributes(a: Seq<AttributeModel>) -> Seq<char>
    decreases a.len(),
{
    if a.len() == 0 {
        Seq::empty()
    } else {
        raw_attributes(a.drop_last()) + " "@ + a.last().key + "=\""@ + a.last().raw + "\""@
    }
}

/// A start tag written back as text inside an entry.
pub open spec fn raw_start_tag(t: TagModel) -> Seq<char> {
    "<"@ + t.name + raw_attributes(t.attributes) + ">"@
}

/// An empty-element tag written back as text inside an entry.
pub open spec fn raw_empty_tag(t: TagModel) -> Seq<char> {
    "<"@ + t.name + raw_attributes(t.attributes) + "/>"@
}

/// An end tag written back as text inside an entry.
pub open spec fn raw_end_tag(name: Seq<char>) -> Seq<char> {
    "</"@ + name + ">"@
}

/// What a reference stands for inside an entry: its text where it is a known
/// entity or a valid character reference, else itself, `&` and `;` included.
pub open spec fn resolved_reference(name: Seq<char>) -> Seq<char> {
    match reference_text(name) {
        Some(t) => t,
        None => "&"@ + name + ";"@,
    }
}

/// The message for a document that ends inside a `<content>` element.
pub open spec fn truncated_message() -> Seq<char> {
    "文档在 <content> 元素内部意外结束（文件可能被截断）"@
}

/// The state of reading a document.
pub struct ParseState {
    pub entries: Seq<EntryModel>,
    pub root_attributes: Seq<(Seq<char>, Seq<char>)>,
    /// The identity of the `<content>` element being read.
    pub pending: Option<(Seq<char>, Seq<char>)>,
    /// Its text so far, nested markup kept as text.
    pub raw: Seq<char>,
    /// How many `<content>` elements are open inside it.
    pub depth: nat,
    pub error: Option<Seq<char>>,
    /// Reading stopped (end of document or reader failure).
    pub finished: bool,
}

pub open spec fn initial_state() -> ParseState {
    ParseState {
        entries: Seq::empty(),
        root_attributes: Seq::empty(),
        pending: None,
        raw: Seq::empty(),
        depth: 0,
        error: None,
        finished: false,
    }
}

/// One event applied to the state. Inside a `<content>` element every event
/// adds to its text (tags as text, references resolved); its own end tag, at
/// depth zero, emits the entry with the text trimmed. Outside, the root's
/// attributes are kept and empty `<content/>` elements give empty entries.
/// Once reading stopped, events change nothing.
pub open spec fn parse_step(st: ParseState, e: XmlEventModel, file: Seq<char>) -> ParseState {
    if st.finished {
        st
    } else {
        match e {
            XmlEventModel::Start(t) => match st.pending {
                None => if t.name == "contentList"@ {
                    ParseState { root_attributes: attribute_pairs(t.attributes), ..st }
                } else if t.name == "content"@ {
                    ParseState {
                        pending: Some(identity(t.attributes)),
                        raw: Seq::empty(),
                        depth: 0,
                        ..st
                    }
                } else {
                    st
                },
                Some(_) => ParseState {
                    depth: if t.name == "content"@ { st.depth + 1 } else { st.depth },
                    raw: st.raw + raw_start_tag(t),
                    ..st
                },
            },
            XmlEventModel::Empty(t) => match st.pending {
                None => if t.name == "content"@ {
                    ParseState {
                        entries: st.entries.push(
                            new_entry(file, identity(t.attributes).0, identity(t.attributes).1, Seq::empty()),
                        ),
                        ..st
                    }
                } else {
                    st
                },
                Some(_) => ParseState { raw: st.raw + raw_empty_tag(t), ..st },
            },
            XmlEventModel::End(name) => match st.pending {
                None => st,
                Some(id) => if name == "content"@ {
                    if st.depth > 0 {
                        ParseState {
                            depth: (st.depth - 1) as nat,
                            raw: st.raw + raw_end_tag(name),
                            ..st
                        }
                    } else {
                        ParseState {
                            entries: st.entries.push(new_entry(file, id.0, id.1, trim(st.raw))),
                            pending: None,
                            raw: Seq::empty(),
                            ..st
                        }
                    }
                } else {
                    ParseState { raw: st.raw + raw_end_tag(name), ..st }
                },
            },
            XmlEventModel::Text(t) => if st.pending is Some {
                ParseState { raw: st.raw + t, ..st }
            } else {
                st
            },
            XmlEventModel::Reference(n) => if st.pending is Some {
                ParseState { raw: st.raw + resolved_reference(n), ..st }
            } else {
                st
            },
            XmlEventModel::CData(t) => if st.pending is Some {
                ParseState { raw: st.raw + t, ..st }
            } else {
                st
            },
            XmlEventModel::Eof => ParseState {
                error: if st.pending is Some { Some(truncated_message()) } else { st.error },
                finished: true,
                ..st
            },
            XmlEventModel::Failed(m) => ParseState { error: Some(m), finished: true, ..st },
            XmlEventModel::Other => st,
        }
    }
}

/// The state after a list of events.
pub open spec fn parse_run(evs: Seq<XmlEventModel>, file: Seq<char>) -> ParseState
    decreases evs.len(),
{
    if evs.len() == 0 {
        initial_state()
    } else {
        parse_step(parse_run(evs.drop_last(), file), evs.last(), file)
    }
}

/// What reading a document that yields `evs` gives: the state after them,
/// with the end of the list read as the end of the document.
pub open spec fn parse_outcome(evs: Seq<XmlEventModel>, file: Seq<char>) -> ParseState {
    parse_step(parse_run(evs, file), XmlEventModel::Eof, file)
}

/// The result of parsing: the entries in document order, the root element's
/// attributes (kept for writing back), and why reading stopped early, if it
/// did. A result with an error must not be written over the original file.
#[derive(Debug, Clone, Default, PartialEq, Eq)]
pub struct ParsedContentList {
    pub entries: Vec<TranslationEntry>,
    pub root_attributes: Vec<(String, String)>,
    pub error: Option<String>,
}

pub open spec fn pairs_model(v: Seq<(String, String)>) -> Seq<(Seq<char>, Seq<char>)> {
    Seq::new(v.len(), |i: int| (v[i].0@, v[i].1@))
}

pub open spec fn opt_model(o: Option<String>) -> Option<Seq<char>> {
    match o {
        Some(s) => Some(s@),
        None => None,
    }
}

impl ParsedContentList {
    /// The result agrees with a final parse state.
    pub open spec fn matches(&self, st: ParseState) -> bool {
        &&& entries_model(self.entries@) == st.entries
        &&& pairs_model(self.root_attributes@) == st.root_attributes
        &&& opt_model(self.error) == st.error
    }
}

/// The parser's state as values.
struct ContentParser {
    entries: Vec<TranslationEntry>,
    root_attributes: Vec<(String, String)>,
    pending: Option<(String, String)>,
    raw: Vec<char>,
    depth: usize,
    error: Option<String>,
    finished: bool,
}

impl ContentParser {
    spec fn model(&self) -> ParseState {
        ParseState {
            entries: entries_model(self.entries@),
            root_attributes: pairs_model(self.root_attributes@),
            pending: match self.pending {
                Some(p) => Some((p.0@, p.1@)),
                None => None,
            },
            raw: self.raw@,
            depth: self.depth as nat,
            error: opt_model(self.error),
            finished: self.finished,
        }
    }

    fn new() -> (r: Self)
        ensures
            r.model() == initial_state(),
    {
        let r = ContentParser {
            entries: Vec::new(),
            root_attributes: Vec::new(),
            pending: None,
            raw: Vec::new(),
            depth: 0,
            error: None,
            finished: false,
        };
        assert(r.model().entries =~= Seq::<EntryModel>::empty());
        assert(r.model().root_attributes =~= Seq::<(Seq<char>, Seq<char>)>::empty());
        r
    }
}

fn attribute_pairs_exec(attrs: &Vec<XmlAttribute>) -> (r: Vec<(String, String)>)
    ensures
        pairs_model(r@) == attribute_pairs(Seq::new(attrs@.len(), |i: int| attrs@[i]@)),
{
    let ghost a = Seq::new(attrs@.len(), |i: int| attrs@[i]@);
    let mut out: Vec<(String, String)> = Vec::new();
    let mut i: usize = 0;
    while i < attrs.len()
        invariant
            i <= attrs@.len(),
            a == Seq::new(attrs@.len(), |i: int| attrs@[i]@),
            out@.len() == i,
            forall|j: int| 0 <= j < i ==> (#[trigger] out@[j]).0@ == a[j].key && out@[j].1@ == a[j].value,
        decreases attrs@.len() - i,
    {
        out.push((attrs[i].key.clone(), attrs[i].value.clone()));
        i = i + 1;
    }
    proof {
        assert forall|j: int| 0 <= j < out@.len() implies
            #[trigger] pairs_model(out@)[j] == attribute_pairs(a)[j] by {
            assert(out@[j].0@ == a[j].key && out@[j].1@ == a[j].value);
        }
        assert(pairs_model(out@) =~= attribute_pairs(a));
    }
    out
}

fn identity_exec(attrs: &Vec<XmlAttribute>) -> (r: (String, String))
    ensures
        (r.0@, r.1@) == identity(Seq::new(attrs@.len(), |i: int| attrs@[i]@)),
{
    let ghost a = Seq::new(attrs@.len(), |i: int| attrs@[i]@);
    let mut u = String::new();
    let mut v = String::new();
    let uid_key = chars_of("contentuid");
    let version_key = chars_of("version");
    proof {
        assert(a.take(0) =~= Seq::<AttributeModel>::empty());
        assert(u@ =~= Seq::<char>::empty());
        assert(v@ =~= Seq::<char>::empty());
    }
    let mut i: usize = 0;
    while i < attrs.len()
        invariant
            i <= attrs@.len(),
            a == Seq::new(attrs@.len(), |i: int| attrs@[i]@),
            uid_key@ == "contentuid"@,
            version_key@ == "version"@,
            (u@, v@) == identity(a.take(i as int)),
        decreases attrs@.len() - i,
    {
        proof {
            assert(a.take(i + 1).drop_last() =~= a.take(i as int));
            assert(a.take(i + 1).last() == attrs@[i as int]@);
        }
        let k = chars_of(attrs[i].key.as_str());
        if chars_eq(k.as_slice(), uid_key.as_slice()) {
            u = attrs[i].value.clone();
        } else if chars_eq(k.as_slice(), version_key.as_slice()) {
            v = attrs[i].value.clone();
        }
        i = i + 1;
    }
    proof {
        assert(a.take(attrs@.len() as int) =~= a);
    }
    (u, v)
}

fn push_raw_attributes(out: &mut Vec<char>, attrs: &Vec<XmlAttribute>)
    ensures
        final(out)@ == old(out)@ + raw_attributes(Seq::new(attrs@.len(), |i: int| attrs@[i]@)),
{
    let ghost a = Seq::new(attrs@.len(), |i: int| attrs@[i]@);
    let ghost start = out@;
    proof {
        assert(a.take(0) =~= Seq::<AttributeModel>::empty());
        assert(start + raw_attributes(a.take(0)) =~= start);
    }
    let mut i: usize = 0;
    while i < attrs.len()
        invariant
            i <= attrs@.len(),
            a == Seq::new(attrs@.len(), |i: int| attrs@[i]@),
            out@ == start + raw_attributes(a.take(i as int)),
        decreases attrs@.len() - i,
    {
        proof {
            assert(a.take(i + 1).drop_last() =~= a.take(i as int));
            assert(a.take(i + 1).last() == attrs@[i as int]@);
        }
        extend_str(out, " ");
        extend_str(out, attrs[i].key.as_str());
        extend_str(out, "=\"");
        extend_str(out, attrs[i].raw.as_str());
        extend_str(out, "\"");
        proof {
            let x = attrs@[i as int]@;
            assert(out@ =~= start + (raw_attributes(a.take(i as int)) + " "@ + x.key + "=\""@ + x.raw + "\""@));
        }
        i = i + 1;
    }
    proof {
        assert(a.take(attrs@.len() as int) =~= a);
    }
}

fn push_reference(out: &mut Vec<char>, name: &str)
    ensures
        final(out)@ == old(out)@ + resolved_reference(name@),
{
    match decode_reference_body(name) {
        Some(t) => extend_str(out, t.as_str()),
        None => {
            extend_str(out, "&");
            extend_str(out, name);
            extend_str(out, ";");
            assert(out@ =~= old(out)@ + ("&"@ + name@ + ";"@));
        },
    }
}

proof fn lemma_pairs_model_len(v: Seq<(String, String)>)
    ensures
        pairs_model(v).len() == v.len(),
{
}

impl ContentParser {
    /// Applies one event (see [`parse_step`]).
    fn step(&mut self, ev: &XmlEvent, file_name: &str)
        requires
            ev is Start ==> old(self).depth < usize::MAX,
        ensures
            final(self).model() == parse_step(old(self).model(), ev@, file_name@),
            final(self).depth <= old(self).depth + 1,
    {
        if self.finished {
            return;
        }
        let ghost st = self.model();
        match ev {
            XmlEvent::Start(t) => {
                let is_root = chars_eq_str(chars_of(t.name.as_str()).as_slice(), "contentList");
                let is_content = chars_eq_str(chars_of(t.name.as_str()).as_slice(), "content");
                if self.pending.is_none() {
                    if is_root {
                        self.root_attributes = attribute_pairs_exec(&t.attributes);
                    } else if is_content {
                        let (u, v) = identity_exec(&t.attributes);
                        self.pending = Some((u, v));
                        self.raw = Vec::new();
                        self.depth = 0;
                        assert(self.model().raw =~= Seq::<char>::empty());
                    }
                } else {
                    if is_content {
                        self.depth = self.depth + 1;
                    }
                    extend_str(&mut self.raw, "<");
                    extend_str(&mut self.raw, t.name.as_str());
                    push_raw_attributes(&mut self.raw, &t.attributes);
                    extend_str(&mut self.raw, ">");
                    assert(self.raw@ =~= st.raw + raw_start_tag(t@));
                }
            },
            XmlEvent::Empty(t) => {
                let is_content = chars_eq_str(chars_of(t.name.as_str()).as_slice(), "content");
                if self.pending.is_none() {
                    if is_content {
                        let (u, v) = identity_exec(&t.attributes);
                        let e = TranslationEntry::new(file_name, u.as_str(), v.as_str(), "");
                        proof {
                            reveal_strlit("");
                            assert(""@ =~= Seq::<char>::empty());
                        }
                        let ghost before = self.entries@;
                        self.entries.push(e);
                        proof {
                            lemma_entries_model_push(before, e);
                        }
                    }
                } else {
                    extend_str(&mut self.raw, "<");
                    extend_str(&mut self.raw, t.name.as_str());
                    push_raw_attributes(&mut self.raw, &t.attributes);
                    extend_str(&mut self.raw, "/>");
                    assert(self.raw@ =~= st.raw + raw_empty_tag(t@));
                }
            },
            XmlEvent::End(name) => {
                let is_content = chars_eq_str(chars_of(name.as_str()).as_slice(), "content");
                if self.pending.is_some() {
                    if is_content && self.depth == 0 {
                        let (u, v) = match &self.pending {
                            Some(p) => (p.0.clone(), p.1.clone()),
                            None => (String::new(), String::new()),
                        };
                        let text = string_of(trim_chars(self.raw.as_slice()).as_slice());
                        let e = TranslationEntry::new(file_name, u.as_str(), v.as_str(), text.as_str());
                        let ghost before = self.entries@;
                        self.entries.push(e);
                        proof {
                            lemma_entries_model_push(before, e);
                        }
                        self.pending = None;
                        self.raw = Vec::new();
                        assert(self.model().raw =~= Seq::<char>::empty());
                    } else {
                        if is_content {
                            self.depth = self.depth - 1;
                        }
                        extend_str(&mut self.raw, "</");
                        extend_str(&mut self.raw, name.as_str());
                        extend_str(&mut self.raw, ">");
                        assert(self.raw@ =~= st.raw + raw_end_tag(name@));
                    }
                }
            },
            XmlEvent::Text(t) => {
                if self.pending.is_some() {
                    extend_str(&mut self.raw, t.as_str());
                }
            },
            XmlEvent::Reference(n) => {
                if self.pending.is_some() {
                    push_reference(&mut self.raw, n.as_str());
                }
            },
            XmlEvent::CData(t) => {
                if self.pending.is_some() {
                    extend_str(&mut self.raw, t.as_str());
                }
            },
            XmlEvent::Eof => {
                if self.pending.is_some() {
                    self.error = Some(String::from_str("文档在 <content> 元素内部意外结束（文件可能被截断）"));
                }
                self.finished = true;
            },
            XmlEvent::Failed(m) => {
                self.error = Some(m.clone());
                self.finished = true;
            },
            XmlEvent::Other => {},
        }
    }

    /// Ends reading as the end of the document does, and hands out the result.
    fn finish(self, file_name: &str) -> (r: ParsedContentList)
        ensures
            r.matches(parse_step(self.model(), XmlEventModel::Eof, file_name@)),
    {
        let mut p = self;
        let eof = XmlEvent::Eof;
        p.step(&eof, file_name);
        ParsedContentList { entries: p.entries, root_attributes: p.root_attributes, error: p.error }
    }
}

/// Parses a document given as its events (see [`parse_step`]); events after
/// the end of the document or a reader failure are ignored, and the end of
/// the list counts as the end of the document.
pub fn parse_events(events: &[XmlEvent], file_name: &str) -> (r: ParsedContentList)
    ensures
        r.matches(parse_outcome(events_model(events@), file_name@)),
{
    let ghost evs = events_model(events@);
    let mut p = ContentParser::new();
    let mut i: usize = 0;
    while i < events.len()
        invariant
            i <= events@.len(),
            evs == events_model(events@),
            p.model() == parse_run(evs.take(i as int), file_name@),
            p.depth <= i,
        decreases events@.len() - i,
    {
        proof {
            assert(evs.take(i + 1).drop_last() =~= evs.take(i as int));
            assert(evs.take(i + 1).last() == events@[i as int]@);
        }
        p.step(&events[i], file_name);
        i = i + 1;
    }
    proof {
        assert(evs.take(events@.len() as int) =~= evs);
    }
    p.finish(file_name)
}

/// Parses a `<contentList>` document: every `<content>` element becomes an
/// entry of the file `file_name` (its text trimmed, nested markup kept as
/// text, references resolved), in document order; the root's attributes are
/// kept; and a document that ends inside an entry, or that the reader rejects,
/// is reported in `error`. The result is what [`parse_events`] makes of the
/// document's events.
pub fn parse(xml: &str, file_name: &str) -> (r: ParsedContentList)
    ensures
        r.matches(parse_outcome(xml_events(xml@), file_name@)),
{
    let events = read_xml_events(xml);
    parse_events(events.as_slice(), file_name)
}


// ─────────────────────────────────────────────────────────────
// Writing a document
// ─────────────────────────────────────────────────────────────

/// What quick-xml's `escape` writes for one character of text.
pub open spec fn text_escape(c: char) -> Seq<char> {
    if c == '<' {
        "&lt;"@
    } else if c == '>' {
        "&gt;"@
    } else if c == '&' {
        "&amp;"@
    } else if c == '\'' {
        "&apos;"@
    } else if c == '"' {
        "&quot;"@
    } else if c == '\r' {
        "&#13;"@
    } else {
        seq![c]
    }
}

/// Text escaped character by character (see [`text_escape`]).
pub open spec fn escaped_text(s: Seq<char>) -> Seq<char>
    decreases s.len(),
{
    if s.len() == 0 {
        Seq::empty()
    } else {
        escaped_text(s.drop_last()) + text_escape(s.last())
    }
}

/// What quick-xml writes for one character of an attribute value: the text
/// escapes, and line feeds and tabs as character references.
pub open spec fn attribute_escape(c: char) -> Seq<char> {
    if c == '\n' {
        "&#10;"@
    } else if c == '\t' {
        "&#9;"@
    } else {
        text_escape(c)
    }
}

/// An attribute value escaped character by character (see [`attribute_escape`]).
pub open spec fn escaped_attribute(s: Seq<char>) -> Seq<char>
    decreases s.len(),
{
    if s.len() == 0 {
        Seq::empty()
    } else {
        escaped_attribute(s.drop_last()) + attribute_escape(s.last())
    }
}

/// `quick_xml::escape::escape`: replaces `<`, `>`, `&`, `'`, `"` and `\r` by
/// `&lt;`, `&gt;`, `&amp;`, `&apos;`, `&quot;` and `&#13;`, and keeps every
/// other character.
#[verifier::external_body]
fn xml_escape(text: &str) -> (r: String)
    ensures
        r@ == escaped_text(text@),
{
    quick_xml::escape::escape(text).into_owned()
}

/// The value quick-xml stores for an attribute built from text
/// (`Attribute::from((key, value))`): the text escapes, plus `\n` and `\t` as
/// `&#10;` and `&#9;`.
#[verifier::external_body]
fn xml_escape_attribute(value: &str) -> (r: String)
    ensures
        r@ == escaped_attribute(value@),
{
    quick_xml::events::attributes::Attribute::from(("", value)).value.into_owned()
}

/// The tag is one well-formed tag of a void element.
pub open spec fn is_void_tag(tag: Seq<char>) -> bool {
    match single_tag_name(tag) {
        Some(n) => is_void_tag_name(n),
        None => false,
    }
}

/// A void tag (`<br>`) that is not self-closing gets a `/` before its `>`;
/// any other tag is kept as it is.
pub open spec fn void_normalized(tag: Seq<char>) -> Seq<char> {
    if tag.len() > 0 && is_void_tag(tag) && !ends_with(trim_end(tag), "/>"@) {
        tag.drop_last() + "/"@ + seq![tag.last()]
    } else {
        tag
    }
}

/// The text of an entry from index `i`, with the plain text not yet written
/// starting at `plain`: whitelisted tags are written as markup (void ones
/// self-closing), everything else escaped.
pub open spec fn fragment_from(s: Seq<char>, plain: int, i: int) -> Seq<char>
    decreases s.len() - i,
{
    if i < 0 || i >= s.len() {
        escaped_text(s.subrange(plain, s.len() as int))
    } else if s[i] != '<' {
        fragment_from(s, plain, i + 1)
    } else {
        proof {
            lemma_tag_close_range(s, i + 1, None);
        }
        match tag_close(s, i + 1, None) {
            Some(g) => if allowed_inline_tag(s.subrange(i, g + 1)) {
                escaped_text(s.subrange(plain, i)) + void_normalized(s.subrange(i, g + 1))
                    + fragment_from(s, g + 1, g + 1)
            } else {
                fragment_from(s, plain, i + 1)
            },
            None => fragment_from(s, plain, i + 1),
        }
    }
}

/// The content written for an entry: its written-back text without
/// XML-illegal characters, with its tags as markup when they are balanced and
/// wholly escaped when they are not (so the document stays well-formed).
pub open spec fn entry_body(e: EntryModel) -> Seq<char> {
    let t = sanitized(effective_text_of(e));
    if tag_balanced(t) {
        fragment_from(t, 0, 0)
    } else {
        escaped_text(t)
    }
}

/// The `<content>` start tag of an entry; an empty version is left out.
pub open spec fn content_open(e: EntryModel) -> Seq<char> {
    "<content contentuid=\""@ + escaped_attribute(e.contentuid) + "\""@ + (if e.version.len() > 0 {
        " version=\""@ + escaped_attribute(e.version) + "\""@
    } else {
        Seq::empty()
    }) + ">"@
}

pub open spec fn entry_xml(e: EntryModel) -> Seq<char> {
    content_open(e) + entry_body(e) + "</content>"@
}

pub open spec fn entries_xml(es: Seq<EntryModel>) -> Seq<char>
    decreases es.len(),
{
    if es.len() == 0 {
        Seq::empty()
    } else {
        entries_xml(es.drop_last()) + entry_xml(es.last())
    }
}

/// ` key="value"` for each root attribute, values escaped.
pub open spec fn written_attributes(a: Seq<(Seq<char>, Seq<char>)>) -> Seq<char>
    decreases a.len(),
{
    if a.len() == 0 {
        Seq::empty()
    } else {
        written_attributes(a.drop_last()) + " "@ + a.last().0 + "=\""@ + escaped_attribute(a.last().1)
            + "\""@
    }
}

/// The whole document (without byte-order mark).
pub open spec fn rendered(es: Seq<EntryModel>, attrs: Seq<(Seq<char>, Seq<char>)>) -> Seq<char> {
    "<?xml version=\"1.0\" encoding=\"utf-8\"?>"@ + "<contentList"@ + written_attributes(attrs) + ">"@
        + entries_xml(es) + "</contentList>"@
}

/// No entry's handle holds an XML-illegal character.
pub open spec fn identities_legal(es: Seq<EntryModel>) -> bool {
    forall|i: int| 0 <= i < es.len() ==>
        !has_illegal_xml_char(#[trigger] es[i].contentuid) && !has_illegal_xml_char(es[i].version)
}

fn push_escaped_text(out: &mut Vec<char>, v: &[char])
    ensures
        final(out)@ == old(out)@ + escaped_text(v@),
{
    let s = string_of(v);
    let e = xml_escape(s.as_str());
    extend_str(out, e.as_str());
}

fn push_escaped_attribute(out: &mut Vec<char>, s: &str)
    ensures
        final(out)@ == old(out)@ + escaped_attribute(s@),
{
    let e = xml_escape_attribute(s);
    extend_str(out, e.as_str());
}

/// Makes a void tag self-closing (see [`void_normalized`]).
fn normalize_void_tag(tag: &[char]) -> (r: Vec<char>)
    ensures
        r@ == void_normalized(tag@),
{
    let n = tag.len();
    if n == 0 {
        return Vec::new();
    }
    assert(tag@.subrange(0, n as int) =~= tag@);
    let is_void = match parse_single_tag(tag) {
        Some(name) => chars_eq_str(name.as_slice(), "br"),
        None => false,
    };
    if !is_void {
        proof {
            match single_tag_name(tag@) {
                Some(nm) => assert(!is_void_tag_name(nm)),
                None => {},
            }
        }
        return copy_range(tag, 0, n);
    }
    let b = trim_end_bounds(tag, 0);
    proof {
        assert(tag@.skip(0) =~= tag@);
        reveal_strlit("/>");
        let t = trim_end(tag@);
        if b >= 2 {
            assert(t.skip(t.len() - 2) =~= seq![tag@[b - 2], tag@[b - 1]]);
        }
    }
    if b >= 2 && tag[b - 2] == '/' && tag[b - 1] == '>' {
        proof {
            reveal_strlit("/>");
            let t = trim_end(tag@);
            assert(t =~= tag@.subrange(0, b as int));
            assert(t.skip(t.len() - 2) =~= "/>"@);
            assert(ends_with(t, "/>"@));
        }
        return copy_range(tag, 0, n);
    }
    let mut out = copy_range(tag, 0, n - 1);
    out.push('/');
    out.push(tag[n - 1]);
    proof {
        reveal_strlit("/");
        assert(out@ =~= tag@.drop_last() + "/"@ + seq![tag@.last()]);
    }
    out
}

/// Writes an entry's text with its whitelisted tags as markup (see [`fragment_from`]).
fn push_fragment(out: &mut Vec<char>, s: &[char])
    ensures
        final(out)@ == old(out)@ + fragment_from(s@, 0, 0),
{
    let ghost start = out@;
    let mut plain: usize = 0;
    let mut i: usize = 0;
    while i < s.len()
        invariant
            plain <= i <= s@.len(),
            out@ + fragment_from(s@, plain as int, i as int) == start + fragment_from(s@, 0, 0),
        decreases s@.len() - i,
    {
        if s[i] != '<' {
            i = i + 1;
        } else {
            proof {
                lemma_tag_close_range(s@, i + 1, None);
            }
            match find_tag_close(s, i + 1) {
                Some(g) => {
                    let tag = copy_range(s, i, g + 1);
                    if is_allowed_inline_chars(tag.as_slice()) {
                        let ghost before = out@;
                        let text = copy_range(s, plain, i);
                        push_escaped_text(out, text.as_slice());
                        let norm = normalize_void_tag(tag.as_slice());
                        extend_chars(out, norm.as_slice());
                        assert(out@ + fragment_from(s@, g + 1, g + 1) =~= before + fragment_from(s@, plain as int, i as int));
                        plain = g + 1;
                        i = g + 1;
                    } else {
                        i = i + 1;
                    }
                },
                None => {
                    i = i + 1;
                },
            }
        }
    }
    let rest = copy_range(s, plain, s.len());
    push_escaped_text(out, rest.as_slice());
}

fn push_entry(out: &mut Vec<char>, e: &TranslationEntry)
    ensures
        final(out)@ == old(out)@ + entry_xml(e@),
{
    let ghost start = out@;
    extend_str(out, "<content contentuid=\"");
    push_escaped_attribute(out, e.contentuid.as_str());
    extend_str(out, "\"");
    let has_version = e.version.unicode_len() > 0;
    if has_version {
        extend_str(out, " version=\"");
        push_escaped_attribute(out, e.version.as_str());
        extend_str(out, "\"");
    }
    extend_str(out, ">");
    assert(out@ =~= start + content_open(e@));
    let text = sanitize_xml_chars(e.effective_text());
    let ghost mid = out@;
    if is_tag_balanced(text.as_str()) {
        let v = chars_of(text.as_str());
        push_fragment(out, v.as_slice());
    } else {
        let v = chars_of(text.as_str());
        push_escaped_text(out, v.as_slice());
    }
    assert(out@ =~= mid + entry_body(e@));
    extend_str(out, "</content>");
    assert(out@ =~= start + entry_xml(e@));
}

/// Renders a `<contentList>` document (without byte-order mark): the XML
/// declaration, the root with `root_attributes`, and one `<content>` element
/// per entry in order, holding the text written back (see [`entry_body`]).
/// An entry whose `contentuid` or `version` holds an XML-illegal character is
/// refused: handles are never rewritten.
pub fn render(entries: &[TranslationEntry], root_attributes: &[(String, String)]) -> (r: Result<String, AppError>)
    ensures
        match r {
            Ok(s) => identities_legal(entries_model(entries@))
                && s@ == rendered(entries_model(entries@), pairs_model(root_attributes@)),
            Err(e) => !identities_legal(entries_model(entries@)) && e is Xml,
        },
{
    let ghost em = entries_model(entries@);
    let ghost am = pairs_model(root_attributes@);
    let mut out: Vec<char> = Vec::new();
    extend_str(&mut out, "<?xml version=\"1.0\" encoding=\"utf-8\"?>");
    extend_str(&mut out, "<contentList");
    let ghost head = out@;
    let mut k: usize = 0;
    proof {
        assert(am.take(0) =~= Seq::<(Seq<char>, Seq<char>)>::empty());
    }
    while k < root_attributes.len()
        invariant
            k <= root_attributes@.len(),
            am == pairs_model(root_attributes@),
            out@ == head + written_attributes(am.take(k as int)),
        decreases root_attributes@.len() - k,
    {
        proof {
            assert(am.take(k + 1).drop_last() =~= am.take(k as int));
            assert(am.take(k + 1).last() == am[k as int]);
        }
        extend_str(&mut out, " ");
        extend_str(&mut out, root_attributes[k].0.as_str());
        extend_str(&mut out, "=\"");
        push_escaped_attribute(&mut out, root_attributes[k].1.as_str());
        extend_str(&mut out, "\"");
        assert(out@ =~= head + written_attributes(am.take(k + 1)));
        k = k + 1;
    }
    assert(am.take(root_attributes@.len() as int) =~= am);
    extend_str(&mut out, ">");
    let ghost body_start = out@;
    let mut i: usize = 0;
    proof {
        assert(em.take(0) =~= Seq::<EntryModel>::empty());
    }
    while i < entries.len()
        invariant
            i <= entries@.len(),
            em == entries_model(entries@),
            out@ == body_start + entries_xml(em.take(i as int)),
            forall|j: int| 0 <= j < i ==>
                !has_illegal_xml_char(#[trigger] em[j].contentuid) && !has_illegal_xml_char(em[j].version),
        decreases entries@.len() - i,
    {
        let e = &entries[i];
        proof {
            assert(em[i as int] == e@);
        }
        match reject_illegal_identity(e.contentuid.as_str(), "contentuid") {
            Err(err) => {
                assert(has_illegal_xml_char(em[i as int].contentuid));
                return Err(err);
            },
            Ok(()) => {},
        }
        match reject_illegal_identity(e.version.as_str(), "version") {
            Err(err) => {
                assert(has_illegal_xml_char(em[i as int].version));
                assert(!has_illegal_xml_char(em[i as int].contentuid) ==> !identities_legal(em));
                return Err(err);
            },
            Ok(()) => {},
        }
        proof {
            assert(em.take(i + 1).drop_last() =~= em.take(i as int));
            assert(em.take(i + 1).last() == e@);
            assert(!has_illegal_xml_char(em[i as int].contentuid) && !has_illegal_xml_char(em[i as int].version));
        }
        push_entry(&mut out, e);
        assert forall|j: int| 0 <= j < i + 1 implies
            !has_illegal_xml_char(#[trigger] em[j].contentuid) && !has_illegal_xml_char(em[j].version) by {
            if j == i {
                assert(!has_illegal_xml_char(em[i as int].contentuid));
            }
        }
        i = i + 1;
    }
    assert(em.take(entries@.len() as int) =~= em);
    extend_str(&mut out, "</contentList>");
    assert(out@ =~= rendered(em, am));
    Ok(string_of(out.as_slice()))
}


// ─────────────────────────────────────────────────────────────
// Keeping what is already on disk
// ─────────────────────────────────────────────────────────────

/// The entries of `on_disk` whose handle no submitted entry has, in order.
pub open spec fn missing_entries(on_disk: Seq<EntryModel>, submitted: Seq<EntryModel>) -> Seq<EntryModel>
    decreases on_disk.len(),
{
    if on_disk.len() == 0 {
        Seq::empty()
    } else {
        let prev = missing_entries(on_disk.drop_last(), submitted);
        if has_uid(submitted, on_disk.last().contentuid) {
            prev
        } else {
            prev.push(on_disk.last())
        }
    }
}

/// What is written over a file: the submitted entries, then the entries on
/// disk that none of them replaces (the document is rebuilt from the list,
/// so an entry left out would be lost).
pub open spec fn merged_list(submitted: Seq<EntryModel>, on_disk: Seq<EntryModel>) -> Seq<EntryModel> {
    submitted + missing_entries(on_disk, submitted)
}

/// The entries to write: `submitted`, then the entries of `on_disk` whose
/// handle none of them has, unchanged and in order.
pub fn merge_missing_entries(submitted: &[TranslationEntry], on_disk: &[TranslationEntry]) -> (r: Vec<TranslationEntry>)
    ensures
        entries_model(r@) == merged_list(entries_model(submitted@), entries_model(on_disk@)),
{
    let ghost sm = entries_model(submitted@);
    let ghost dm = entries_model(on_disk@);
    let mut out: Vec<TranslationEntry> = Vec::new();
    let mut i: usize = 0;
    while i < submitted.len()
        invariant
            i <= submitted@.len(),
            sm == entries_model(submitted@),
            entries_model(out@) =~= sm.subrange(0, i as int),
        decreases submitted@.len() - i,
    {
        let ghost before = out@;
        let e = submitted[i].duplicate();
        out.push(e);
        proof {
            lemma_entries_model_push(before, e);
            assert(sm.subrange(0, i as int).push(sm[i as int]) =~= sm.subrange(0, i + 1));
        }
        i = i + 1;
    }
    let mut k: usize = 0;
    while k < on_disk.len()
        invariant
            k <= on_disk@.len(),
            sm == entries_model(submitted@),
            dm == entries_model(on_disk@),
            entries_model(out@) =~= sm + missing_entries(dm.subrange(0, k as int), sm),
        decreases on_disk@.len() - k,
    {
        let d = &on_disk[k];
        proof {
            assert(dm.subrange(0, k + 1).drop_last() =~= dm.subrange(0, k as int));
            assert(dm.subrange(0, k + 1).last() == d@);
        }
        if !has_uid_entries(submitted, d.contentuid.as_str()) {
            let ghost before = out@;
            let e = d.duplicate();
            out.push(e);
            proof {
                lemma_entries_model_push(before, e);
            }
        }
        assert(entries_model(out@) =~= sm + missing_entries(dm.subrange(0, k + 1), sm));
        k = k + 1;
    }
    assert(dm.subrange(0, on_disk@.len() as int) =~= dm);
    out
}

/// Writing over a file loses no entry: every handle on disk is among the
/// entries written, and an entry that no submitted one replaces is written
/// unchanged.
pub proof fn law_write_keeps_entries_on_disk(submitted: Seq<EntryModel>, on_disk: Seq<EntryModel>)
    ensures
        forall|j: int| 0 <= j < on_disk.len() ==>
            has_uid(merged_list(submitted, on_disk), #[trigger] on_disk[j].contentuid),
        forall|j: int| 0 <= j < on_disk.len() && !has_uid(submitted, #[trigger] on_disk[j].contentuid) ==>
            merged_list(submitted, on_disk).contains(on_disk[j]),
        merged_list(submitted, on_disk).take(submitted.len() as int) == submitted,
{
    let m = merged_list(submitted, on_disk);
    assert forall|j: int| 0 <= j < on_disk.len() implies has_uid(m, #[trigger] on_disk[j].contentuid) && (
        !has_uid(submitted, on_disk[j].contentuid) ==> m.contains(on_disk[j])) by {
        if has_uid(submitted, on_disk[j].contentuid) {
            let i = choose|i: int| 0 <= i < submitted.len() && #[trigger] submitted[i].contentuid == on_disk[j].contentuid;
            assert(m[i] == submitted[i]);
            assert(m[i].contentuid == on_disk[j].contentuid);
        } else {
            lemma_missing_has(on_disk, submitted, j);
            let k = missing_entries(on_disk, submitted);
            let i = choose|i: int| 0 <= i < k.len() && #[trigger] k[i] == on_disk[j];
            assert(m[submitted.len() + i] == k[i]);
            assert(m[submitted.len() + i].contentuid == on_disk[j].contentuid);
        }
    }
    assert(m.take(submitted.len() as int) =~= submitted);
}

proof fn lemma_missing_has(on_disk: Seq<EntryModel>, submitted: Seq<EntryModel>, j: int)
    requires
        0 <= j < on_disk.len(),
        !has_uid(submitted, on_disk[j].contentuid),
    ensures
        exists|i: int| 0 <= i < missing_entries(on_disk, submitted).len()
            && #[trigger] missing_entries(on_disk, submitted)[i] == on_disk[j],
    decreases on_disk.len(),
{
    let prev = missing_entries(on_disk.drop_last(), submitted);
    if j < on_disk.len() - 1 {
        lemma_missing_has(on_disk.drop_last(), submitted, j);
        let i = choose|i: int| 0 <= i < prev.len() && #[trigger] prev[i] == on_disk.drop_last()[j];
        assert(missing_entries(on_disk, submitted)[i] == prev[i]);
    } else {
        let k = missing_entries(on_disk, submitted);
        assert(k[k.len() - 1] == on_disk[j]);
    }
}

/// The outcome of rendering a list (see [`render`]).
pub open spec fn render_outcome(r: Result<String, AppError>, es: Seq<EntryModel>, attrs: Seq<(Seq<char>, Seq<char>)>) -> bool {
    match r {
        Ok(s) => identities_legal(es) && s@ == rendered(es, attrs),
        Err(e) => !identities_legal(es) && e is Xml,
    }
}

/// The document written for `entries` over a file that holds `existing`
/// (its text, byte-order mark removed), or over no file: the existing
/// document's root attributes are kept and its entries that no submitted
/// entry replaces are written after them (see [`merge_missing_entries`]).
/// The existing document is read as far as the reader gets (see
/// [`parse`]).
pub fn document_for_write(existing: Option<&str>, entries: &[TranslationEntry]) -> (r: Result<String, AppError>)
    ensures
        existing is None ==> render_outcome(r, entries_model(entries@), Seq::empty()),
        existing matches Some(x) ==> render_outcome(
            r,
            merged_list(entries_model(entries@), parse_outcome(xml_events(x@), Seq::empty()).entries),
            parse_outcome(xml_events(x@), Seq::empty()).root_attributes,
        ),
{
    match existing {
        None => {
            let none: Vec<(String, String)> = Vec::new();
            assert(pairs_model(none@) =~= Seq::<(Seq<char>, Seq<char>)>::empty());
            render(entries, none.as_slice())
        },
        Some(xml) => {
            let parsed = parse(xml, "");
            proof {
                reveal_strlit("");
                assert(""@ =~= Seq::<char>::empty());
            }
            let merged = merge_missing_entries(entries, parsed.entries.as_slice());
            render(merged.as_slice(), parsed.root_attributes.as_slice())
        },
    }
}

fn has_uid_entries(entries: &[TranslationEntry], key: &str) -> (r: bool)
    ensures
        r == has_uid(entries_model(entries@), key@),
{
    let ghost m = entries_model(entries@);
    let k = chars_of(key);
    let mut i: usize = 0;
    while i < entries.len()
        invariant
            i <= entries@.len(),
            m == entries_model(entries@),
            k@ == key@,
            forall|j: int| 0 <= j < i ==> m[j].contentuid != key@,
        decreases entries@.len() - i,
    {
        let uid = chars_of(entries[i].contentuid.as_str());
        if chars_eq(uid.as_slice(), k.as_slice()) {
            proof {
                assert(m[i as int].contentuid == key@);
            }
            return true;
        }
        i = i + 1;
    }
    false
}


// ─────────────────────────────────────────────────────────────
// What a written document can hold
// ─────────────────────────────────────────────────────────────

/// No character of the text is XML-illegal.
pub open spec fn all_legal(s: Seq<char>) -> bool {
    forall|i: int| 0 <= i < s.len() ==> !illegal_xml_char(#[trigger] s[i])
}

/// The text holds none of the characters that delimit markup or attribute
/// values.
pub open spec fn markup_free(s: Seq<char>) -> bool {
    forall|i: int| 0 <= i < s.len() ==> #[trigger] s[i] != '<' && s[i] != '>' && s[i] != '"' && s[i] != '\''
}

proof fn lemma_text_escape_char(c: char)
    ensures
        markup_free(text_escape(c)),
        markup_free(attribute_escape(c)),
        !illegal_xml_char(c) ==> all_legal(text_escape(c)),
        forall|i: int| 0 <= i < attribute_escape(c).len() ==> #[trigger] attribute_escape(c)[i] != '\n'
            && attribute_escape(c)[i] != '\t' && attribute_escape(c)[i] != '\r',
{
    reveal_strlit("&lt;");
    reveal_strlit("&gt;");
    reveal_strlit("&amp;");
    reveal_strlit("&apos;");
    reveal_strlit("&quot;");
    reveal_strlit("&#13;");
    reveal_strlit("&#10;");
    reveal_strlit("&#9;");
}

proof fn lemma_concat_props(a: Seq<char>, b: Seq<char>)
    ensures
        markup_free(a) && markup_free(b) ==> markup_free(a + b),
        all_legal(a) && all_legal(b) ==> all_legal(a + b),
{
    assert forall|i: int| 0 <= i < (a + b).len() implies (a + b)[i] == if i < a.len() { a[i] } else { b[i - a.len()] } by {}
}

proof fn lemma_escaped_text_props(s: Seq<char>)
    ensures
        markup_free(escaped_text(s)),
        all_legal(s) ==> all_legal(escaped_text(s)),
    decreases s.len(),
{
    if s.len() > 0 {
        lemma_escaped_text_props(s.drop_last());
        lemma_text_escape_char(s.last());
        lemma_concat_props(escaped_text(s.drop_last()), text_escape(s.last()));
        if all_legal(s) {
            assert(all_legal(s.drop_last()));
            assert(!illegal_xml_char(s[s.len() - 1]));
        }
    }
}

proof fn lemma_escaped_attribute_props(s: Seq<char>)
    ensures
        markup_free(escaped_attribute(s)),
        forall|i: int| 0 <= i < escaped_attribute(s).len() ==> #[trigger] escaped_attribute(s)[i] != '\n'
            && escaped_attribute(s)[i] != '\t' && escaped_attribute(s)[i] != '\r',
    decreases s.len(),
{
    if s.len() > 0 {
        let a = escaped_attribute(s.drop_last());
        let b = attribute_escape(s.last());
        lemma_escaped_attribute_props(s.drop_last());
        lemma_text_escape_char(s.last());
        lemma_concat_props(a, b);
        assert forall|i: int| 0 <= i < (a + b).len() implies #[trigger] (a + b)[i] != '\n' && (a + b)[i] != '\t'
            && (a + b)[i] != '\r' by {
            if i < a.len() {
                assert((a + b)[i] == a[i]);
            } else {
                assert((a + b)[i] == b[i - a.len()]);
            }
        }
    }
}

/// Escaped text and escaped attribute values hold no `<`, `>`, `"` or `'`,
/// and escaped attribute values no line break or tab: escaped text can never
/// read as markup, and an escaped value can never end its quotes.
pub proof fn law_escaping_leaves_no_markup(s: Seq<char>)
    ensures
        markup_free(escaped_text(s)),
        markup_free(escaped_attribute(s)),
        forall|i: int| 0 <= i < escaped_attribute(s).len() ==> #[trigger] escaped_attribute(s)[i] != '\n'
            && escaped_attribute(s)[i] != '\t' && escaped_attribute(s)[i] != '\r',
{
    lemma_escaped_text_props(s);
    lemma_escaped_attribute_props(s);
}

proof fn lemma_sanitized_legal(s: Seq<char>)
    ensures
        all_legal(sanitized(s)),
    decreases s.len(),
{
    if s.len() > 0 {
        lemma_sanitized_legal(s.drop_last());
    }
}

proof fn lemma_subrange_legal(s: Seq<char>, a: int, b: int)
    requires
        all_legal(s),
        0 <= a <= b <= s.len(),
    ensures
        all_legal(s.subrange(a, b)),
{
    assert forall|i: int| 0 <= i < s.subrange(a, b).len() implies !illegal_xml_char(#[trigger] s.subrange(a, b)[i]) by {
        assert(s.subrange(a, b)[i] == s[a + i]);
    }
}

proof fn lemma_fragment_legal(s: Seq<char>, plain: int, i: int)
    requires
        all_legal(s),
        0 <= plain <= i,
        plain <= s.len(),
    ensures
        all_legal(fragment_from(s, plain, i)),
    decreases s.len() - i,
{
    if i < 0 || i >= s.len() {
        lemma_subrange_legal(s, plain, s.len() as int);
        lemma_escaped_text_props(s.subrange(plain, s.len() as int));
    } else if s[i] != '<' {
        lemma_fragment_legal(s, plain, i + 1);
    } else {
        lemma_tag_close_range(s, i + 1, None);
        match tag_close(s, i + 1, None) {
            Some(g) => if allowed_inline_tag(s.subrange(i, g + 1)) {
                let tag = s.subrange(i, g + 1);
                lemma_subrange_legal(s, plain, i);
                lemma_escaped_text_props(s.subrange(plain, i));
                lemma_subrange_legal(s, i, g + 1);
                let v = void_normalized(tag);
                assert(all_legal(v)) by {
                    if tag.len() > 0 && is_void_tag(tag) && !ends_with(trim_end(tag), "/>"@) {
                        reveal_strlit("/");
                        assert forall|k: int| 0 <= k < v.len() implies !illegal_xml_char(#[trigger] v[k]) by {
                            if k < tag.len() - 1 {
                                assert(v[k] == tag[k]);
                            } else if k == tag.len() - 1 {
                                assert(v[k] == '/');
                            } else {
                                assert(v[k] == tag[tag.len() - 1]);
                            }
                        }
                    }
                }
                lemma_fragment_legal(s, g + 1, g + 1);
                lemma_concat_props(escaped_text(s.subrange(plain, i)), v);
                lemma_concat_props(escaped_text(s.subrange(plain, i)) + v, fragment_from(s, g + 1, g + 1));
            } else {
                lemma_fragment_legal(s, plain, i + 1);
            },
            None => lemma_fragment_legal(s, plain, i + 1),
        }
    }
}

/// The text written for an entry never holds an XML-illegal character, and
/// text with unbalanced tags is written with no markup at all.
pub proof fn law_written_text_is_well_formed(e: EntryModel)
    ensures
        all_legal(entry_body(e)),
        !tag_balanced(sanitized(effective_text_of(e))) ==> markup_free(entry_body(e)),
{
    let t = sanitized(effective_text_of(e));
    lemma_sanitized_legal(effective_text_of(e));
    lemma_escaped_text_props(t);
    if tag_balanced(t) {
        lemma_fragment_legal(t, 0, 0);
    }
}

} // verus!
