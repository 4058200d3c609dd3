//! Structural fidelity of a translation: the placeholders (`{1}`, `{name}`)
//! and whitelisted rich-text tags (`<LSTag ...>`, `</LSTag>`, `<br/>`) of the
//! source must survive in the target.
//!
//! Placeholders are compared as a multiset (order is free). Tags are
//! compared as a multiset of tokens and then as a sequence, where an opening
//! token carries the sorted attribute *names* (values are player-visible text
//! and may be translated). A non-void `<x/>` counts as `<x>` + `</x>`.
//! Angle brackets that do not form a well-formed whitelisted tag are plain
//! text, and `&lt;` / `&gt;` are read as `<` / `>` on both sides first.

use vstd::prelude::*;
use crate::formats::content_list::{
    allowed_inline_tag, find_tag_close, is_allowed_inline_chars, is_void_tag_name,
    lemma_tag_close_range, tag_close,
};
use crate::text::{
    append_tokens, blank_from, blank_from_exec, char_find, char_find_exec, chars_eq, chars_eq_str,
    chars_of, copy_all, copy_range, decimal, extend_chars, is_ascii_alnum_spec, is_ascii_alpha_spec,
    is_ascii_alphabetic, is_ascii_alphanumeric, is_whitespace, is_ws, lemma_char_find_range,
    lex_less, lex_less_chars, push_token, replace_all, replace_chars, seqs_of, string_of,
    usize_to_string, join_with, ws_find, ws_find_exec, ws_skip, ws_skip_exec,
};

verus! {

// ─────────────────────────────────────────────────────────────
// Scanning positions
// ─────────────────────────────────────────────────────────────



/// First index `>= k` that is not an ASCII letter or digit (or the length).
pub open spec fn alnum_end(s: Seq<char>, k: int) -> int
    decreases s.len() - k,
{
    if 0 <= k < s.len() && is_ascii_alnum_spec(s[k]) {
        alnum_end(s, k + 1)
    } else {
        k
    }
}

/// Characters that end an attribute name.
pub open spec fn ends_attr_name(c: char) -> bool {
    is_ws(c) || c == '=' || c == '/' || c == '"' || c == '\''
}

/// First index `>= k` holding a character that ends an attribute name.
pub open spec fn attr_name_end(s: Seq<char>, k: int) -> int
    decreases s.len() - k,
{
    if 0 <= k < s.len() && !ends_attr_name(s[k]) {
        attr_name_end(s, k + 1)
    } else {
        k
    }
}






fn alnum_end_exec(s: &[char], k: usize) -> (r: usize)
    requires
        k <= s@.len(),
    ensures
        r == alnum_end(s@, k as int),
        k <= r <= s@.len(),
{
    let mut i = k;
    while i < s.len() && is_ascii_alphanumeric(s[i])
        invariant
            k <= i <= s@.len(),
            alnum_end(s@, k as int) == alnum_end(s@, i as int),
        decreases s@.len() - i,
    {
        i = i + 1;
    }
    i
}

fn attr_name_end_exec(s: &[char], k: usize) -> (r: usize)
    requires
        k <= s@.len(),
    ensures
        r == attr_name_end(s@, k as int),
        k <= r <= s@.len(),
{
    let mut i = k;
    while i < s.len() && !(is_whitespace(s[i]) || s[i] == '=' || s[i] == '/' || s[i] == '"'
        || s[i] == '\'')
        invariant
            k <= i <= s@.len(),
            attr_name_end(s@, k as int) == attr_name_end(s@, i as int),
        decreases s@.len() - i,
    {
        i = i + 1;
    }
    i
}



// ─────────────────────────────────────────────────────────────
// Tag shapes
// ─────────────────────────────────────────────────────────────

/// Where scanning continues after an attribute name ending at `ne`: past
/// a quoted or unquoted value when `=` follows, else at the next non-space.
pub open spec fn attr_value_end(s: Seq<char>, ne: int) -> Option<int> {
    let b = ws_skip(s, ne);
    if b < s.len() && s[b] == '=' {
        let v = ws_skip(s, b + 1);
        if v >= s.len() {
            None
        } else if s[v] == '"' || s[v] == '\'' {
            match char_find(s, s[v], v + 1) {
                Some(j) => Some(j + 1),
                None => None,
            }
        } else {
            Some(ws_find(s, v))
        }
    } else {
        Some(b)
    }
}

fn attr_value_end_exec(s: &[char], ne: usize) -> (r: Option<usize>)
    requires
        ne <= s@.len(),
    ensures
        match attr_value_end(s@, ne as int) {
            Some(e) => r == Some(e as usize) && ne <= e <= s@.len(),
            None => r is None,
        },
{
    let b = ws_skip_exec(s, ne);
    if b < s.len() && s[b] == '=' {
        let v = ws_skip_exec(s, b + 1);
        if v >= s.len() {
            None
        } else if s[v] == '"' || s[v] == '\'' {
            let q = s[v];
            match char_find_exec(s, q, v + 1) {
                Some(j) => {
                    assert(attr_value_end(s@, ne as int) == Some(j + 1));
                    Some(j + 1)
                },
                None => None,
            }
        } else {
            let e = ws_find_exec(s, v);
            assert(attr_value_end(s@, ne as int) == Some(e as int));
            Some(e)
        }
    } else {
        assert(attr_value_end(s@, ne as int) == Some(b as int));
        Some(b)
    }
}

/// The attribute names of an opening tag from position `pos` of its body
/// (`name="v"`, `name='v'`, `name=v` or a bare `name`), and whether it ends
/// with `/`. `None` when the attribute syntax is broken.
pub open spec fn scan_attrs(s: Seq<char>, pos: int) -> Option<(Seq<Seq<char>>, bool)>
    decreases s.len() - pos,
{
    let a = ws_skip(s, pos);
    if pos < 0 || a >= s.len() {
        Some((Seq::empty(), false))
    } else if s[a] == '/' {
        if blank_from(s, a + 1) {
            Some((Seq::empty(), true))
        } else {
            None
        }
    } else {
        let ne = attr_name_end(s, a);
        if ne == a {
            None
        } else {
            let next = attr_value_end(s, ne);
            match next {
                Some(r) => if pos < r <= s.len() {
                    match scan_attrs(s, r) {
                        Some((names, closing)) => Some((seq![s.subrange(a, ne)] + names, closing)),
                        None => None,
                    }
                } else {
                    None
                },
                None => None,
            }
        }
    }
}

/// A tag recognised in text: an opening (or self-closing) tag with its
/// attribute names in written order, or a closing tag.
pub enum TagShape {
    Open { name: Seq<char>, attrs: Seq<Seq<char>>, self_closing: bool },
    Close { name: Seq<char> },
}

/// The shape of the text between `<` and `>`: the name is an ASCII letter
/// followed by letters and digits; a closing tag allows only whitespace after
/// its name.
pub open spec fn parse_tag_inner(inner: Seq<char>) -> Option<TagShape> {
    if inner.len() > 0 && inner[0] == '/' {
        if inner.len() > 1 && is_ascii_alpha_spec(inner[1]) {
            let e = alnum_end(inner, 2);
            if blank_from(inner, e) {
                Some(TagShape::Close { name: inner.subrange(1, e) })
            } else {
                None
            }
        } else {
            None
        }
    } else if inner.len() > 0 && is_ascii_alpha_spec(inner[0]) {
        let e = alnum_end(inner, 1);
        match scan_attrs(inner, e) {
            Some((attrs, closing)) => Some(
                TagShape::Open { name: inner.take(e), attrs, self_closing: closing },
            ),
            None => None,
        }
    } else {
        None
    }
}

/// Exec result of [`parse_tag_inner`].
pub struct ParsedTag {
    pub closing_tag: bool,
    pub name: Vec<char>,
    pub attrs: Vec<Vec<char>>,
    pub self_closing: bool,
}

pub open spec fn parsed_tag_view(p: ParsedTag) -> TagShape {
    if p.closing_tag {
        TagShape::Close { name: p.name@ }
    } else {
        TagShape::Open { name: p.name@, attrs: seqs_of(p.attrs@), self_closing: p.self_closing }
    }
}

fn scan_attrs_exec(s: &[char], pos: usize) -> (r: Option<(Vec<Vec<char>>, bool)>)
    requires
        pos <= s@.len(),
    ensures
        match r {
            Some((names, closing)) => scan_attrs(s@, pos as int) == Some((seqs_of(names@), closing)),
            None => scan_attrs(s@, pos as int) is None,
        },
    decreases s@.len() - pos,
{
    let a = ws_skip_exec(s, pos);
    if a >= s.len() {
        let v: Vec<Vec<char>> = Vec::new();
        assert(seqs_of(v@) =~= Seq::<Seq<char>>::empty());
        return Some((v, false));
    }
    if s[a] == '/' {
        if blank_from_exec(s, a + 1) {
            let v: Vec<Vec<char>> = Vec::new();
            assert(seqs_of(v@) =~= Seq::<Seq<char>>::empty());
            return Some((v, true));
        }
        return None;
    }
    let ne = attr_name_end_exec(s, a);
    if ne == a {
        return None;
    }
    let next = attr_value_end_exec(s, ne);
    match next {
        Some(r) => {
            assert(pos < r <= s@.len());
            match scan_attrs_exec(s, r) {
                Some((names, closing)) => {
                    let mut out: Vec<Vec<char>> = Vec::new();
                    push_token(&mut out, copy_range(s, a, ne));
                    append_tokens(&mut out, &names);
                    assert(seqs_of(out@) =~= seq![s@.subrange(a as int, ne as int)] + seqs_of(names@));
                    assert(attr_value_end(s@, ne as int) == Some(r as int));
                    assert(scan_attrs(s@, pos as int) == Some((seq![s@.subrange(a as int, ne as int)] + seqs_of(names@), closing)));
                    Some((out, closing))
                },
                None => None,
            }
        },
        None => None,
    }
}

fn parse_tag_inner_exec(inner: &[char]) -> (r: Option<ParsedTag>)
    ensures
        match r {
            Some(p) => parse_tag_inner(inner@) == Some(parsed_tag_view(p)),
            None => parse_tag_inner(inner@) is None,
        },
{
    if inner.len() > 0 && inner[0] == '/' {
        if inner.len() > 1 && is_ascii_alphabetic(inner[1]) {
            let e = alnum_end_exec(inner, 2);
            if blank_from_exec(inner, e) {
                let name = copy_range(inner, 1, e);
                return Some(
                    ParsedTag { closing_tag: true, name, attrs: Vec::new(), self_closing: false },
                );
            }
        }
        None
    } else if inner.len() > 0 && is_ascii_alphabetic(inner[0]) {
        let e = alnum_end_exec(inner, 1);
        match scan_attrs_exec(inner, e) {
            Some((attrs, closing)) => {
                let name = copy_range(inner, 0, e);
                assert(name@ =~= inner@.take(e as int));
                Some(ParsedTag { closing_tag: false, name, attrs, self_closing: closing })
            },
            None => None,
        }
    } else {
        None
    }
}

// ─────────────────────────────────────────────────────────────
// Tag tokens
// ─────────────────────────────────────────────────────────────

/// `x` inserted before the first element that does not sort before it.
pub open spec fn insert_sorted(x: Seq<char>, s: Seq<Seq<char>>) -> Seq<Seq<char>>
    decreases s.len(),
{
    if s.len() == 0 {
        seq![x]
    } else if lex_less(s[0], x) {
        seq![s[0]] + insert_sorted(x, s.drop_first())
    } else {
        seq![x] + s
    }
}

/// The names in ascending lexicographic order.
pub open spec fn sort_names(s: Seq<Seq<char>>) -> Seq<Seq<char>>
    decreases s.len(),
{
    if s.len() == 0 {
        s
    } else {
        insert_sorted(s.last(), sort_names(s.drop_last()))
    }
}

/// The names separated by single spaces.
pub open spec fn join_names(a: Seq<Seq<char>>) -> Seq<char>
    decreases a.len(),
{
    if a.len() == 0 {
        Seq::empty()
    } else if a.len() == 1 {
        a[0]
    } else {
        join_names(a.drop_last()) + seq![' '] + a.last()
    }
}

/// `<name` followed by the sorted attribute names, space-separated.
pub open spec fn open_head(name: Seq<char>, attrs: Seq<Seq<char>>) -> Seq<char> {
    let sorted = sort_names(attrs);
    if sorted.len() == 0 {
        seq!['<'] + name
    } else {
        seq!['<'] + name + seq![' '] + join_names(sorted)
    }
}

pub open spec fn closing_token(name: Seq<char>) -> Seq<char> {
    seq!['<', '/'] + name + seq!['>']
}

/// The signature tokens of one tag: `</name>`; `<name attrs/>` for a void
/// element; `<name attrs>` + `</name>` for a self-closing non-void one; else
/// `<name attrs>`.
pub open spec fn shape_tokens(t: TagShape) -> Seq<Seq<char>> {
    match t {
        TagShape::Close { name } => seq![closing_token(name)],
        TagShape::Open { name, attrs, self_closing } => if is_void_tag_name(name) {
            seq![open_head(name, attrs) + seq!['/', '>']]
        } else if self_closing {
            seq![open_head(name, attrs) + seq!['>'], closing_token(name)]
        } else {
            seq![open_head(name, attrs) + seq!['>']]
        },
    }
}

proof fn lemma_insert_sorted_at(x: Seq<char>, s: Seq<Seq<char>>, p: int)
    requires
        0 <= p <= s.len(),
        forall|k: int| 0 <= k < p ==> lex_less(#[trigger] s[k], x),
        p == s.len() || !lex_less(s[p], x),
    ensures
        insert_sorted(x, s) == s.take(p) + seq![x] + s.skip(p),
    decreases p,
{
    if p == 0 {
        assert(s.take(0) + seq![x] + s.skip(0) =~= seq![x] + s);
    } else {
        let t = s.drop_first();
        assert forall|k: int| 0 <= k < p - 1 implies lex_less(#[trigger] t[k], x) by {
            assert(t[k] == s[k + 1]);
        }
        lemma_insert_sorted_at(x, t, p - 1);
        assert(seq![s[0]] + (t.take(p - 1) + seq![x] + t.skip(p - 1)) =~= s.take(p) + seq![x]
            + s.skip(p));
    }
}


fn insert_sorted_exec(sorted: &Vec<Vec<char>>, x: Vec<char>) -> (r: Vec<Vec<char>>)
    ensures
        seqs_of(r@) == insert_sorted(x@, seqs_of(sorted@)),
{
    let ghost s = seqs_of(sorted@);
    let mut out: Vec<Vec<char>> = Vec::new();
    let mut i: usize = 0;
    while i < sorted.len() && lex_less_chars(sorted[i].as_slice(), x.as_slice())
        invariant
            i <= sorted@.len(),
            s == seqs_of(sorted@),
            seqs_of(out@) == s.take(i as int),
            forall|k: int| 0 <= k < i ==> lex_less(#[trigger] s[k], x@),
        decreases sorted@.len() - i,
    {
        push_token(&mut out, copy_all(&sorted[i]));
        assert(s.take(i + 1) =~= s.take(i as int).push(s[i as int]));
        i = i + 1;
    }
    proof {
        lemma_insert_sorted_at(x@, s, i as int);
    }
    let ghost xv = x@;
    push_token(&mut out, x);
    let mut j = i;
    while j < sorted.len()
        invariant
            i <= j <= sorted@.len(),
            s == seqs_of(sorted@),
            seqs_of(out@) == s.take(i as int) + seq![xv] + s.subrange(i as int, j as int),
        decreases sorted@.len() - j,
    {
        push_token(&mut out, copy_all(&sorted[j]));
        assert(s.subrange(i as int, j + 1) =~= s.subrange(i as int, j as int).push(s[j as int]));
        j = j + 1;
    }
    assert(s.subrange(i as int, sorted@.len() as int) =~= s.skip(i as int));
    out
}

pub fn sort_names_exec(names: &Vec<Vec<char>>) -> (r: Vec<Vec<char>>)
    ensures
        seqs_of(r@) == sort_names(seqs_of(names@)),
{
    let ghost n = seqs_of(names@);
    let mut sorted: Vec<Vec<char>> = Vec::new();
    let mut i: usize = 0;
    assert(n.take(0) =~= Seq::<Seq<char>>::empty());
    assert(seqs_of(sorted@) =~= Seq::<Seq<char>>::empty());
    while i < names.len()
        invariant
            i <= names@.len(),
            n == seqs_of(names@),
            seqs_of(sorted@) == sort_names(n.take(i as int)),
        decreases names@.len() - i,
    {
        sorted = insert_sorted_exec(&sorted, copy_all(&names[i]));
        assert(n.take(i + 1).drop_last() =~= n.take(i as int));
        i = i + 1;
    }
    assert(n.take(names@.len() as int) =~= n);
    sorted
}

fn join_names_exec(names: &Vec<Vec<char>>, out: &mut Vec<char>)
    ensures
        final(out)@ == old(out)@ + join_names(seqs_of(names@)),
{
    let ghost n = seqs_of(names@);
    let mut i: usize = 0;
    assert(n.take(0) =~= Seq::<Seq<char>>::empty());
    assert(old(out)@ + join_names(n.take(0)) =~= old(out)@);
    while i < names.len()
        invariant
            i <= names@.len(),
            n == seqs_of(names@),
            out@ == old(out)@ + join_names(n.take(i as int)),
        decreases names@.len() - i,
    {
        let ghost before = out@;
        if i > 0 {
            out.push(' ');
        }
        extend_chars(out, names[i].as_slice());
        proof {
            let t = n.take(i + 1);
            assert(t.drop_last() =~= n.take(i as int));
            assert(t.last() == n[i as int]);
            if i == 0 {
                assert(t.len() == 1);
                assert(join_names(n.take(0)) =~= Seq::<char>::empty());
                assert(out@ =~= old(out)@ + t[0]);
            } else {
                assert(out@ =~= old(out)@ + (join_names(n.take(i as int)) + seq![' '] + t.last()));
            }
        }
        i = i + 1;
    }
    assert(n.take(names@.len() as int) =~= n);
}

fn shape_tokens_exec(p: &ParsedTag) -> (r: Vec<Vec<char>>)
    ensures
        seqs_of(r@) == shape_tokens(parsed_tag_view(*p)),
{
    let mut closing: Vec<char> = Vec::new();
    closing.push('<');
    closing.push('/');
    extend_chars(&mut closing, p.name.as_slice());
    closing.push('>');
    assert(closing@ =~= closing_token(p.name@));
    let mut out: Vec<Vec<char>> = Vec::new();
    if p.closing_tag {
        push_token(&mut out, closing);
        assert(seqs_of(out@) =~= seq![closing_token(p.name@)]);
        return out;
    }
    let sorted = sort_names_exec(&p.attrs);
    let mut head: Vec<char> = Vec::new();
    head.push('<');
    extend_chars(&mut head, p.name.as_slice());
    if sorted.len() > 0 {
        head.push(' ');
        join_names_exec(&sorted, &mut head);
    }
    assert(head@ =~= open_head(p.name@, seqs_of(p.attrs@)));
    let ghost hv = head@;
    if chars_eq_str(p.name.as_slice(), "br") {
        head.push('/');
        head.push('>');
        assert(head@ =~= hv + seq!['/', '>']);
        push_token(&mut out, head);
        assert(seqs_of(out@) =~= seq![hv + seq!['/', '>']]);
    } else if p.self_closing {
        head.push('>');
        assert(head@ =~= hv + seq!['>']);
        push_token(&mut out, head);
        push_token(&mut out, closing);
        assert(seqs_of(out@) =~= seq![hv + seq!['>'], closing_token(p.name@)]);
    } else {
        head.push('>');
        assert(head@ =~= hv + seq!['>']);
        push_token(&mut out, head);
        assert(seqs_of(out@) =~= seq![hv + seq!['>']]);
    }
    out
}

// ─────────────────────────────────────────────────────────────
// Signatures
// ─────────────────────────────────────────────────────────────

/// The tag at `s[i]` (a `<`): its signature tokens and the index just past
/// its `>`, when it is a well-formed whitelisted tag.
pub open spec fn tag_at(s: Seq<char>, i: int) -> Option<(Seq<Seq<char>>, int)> {
    match tag_close(s, i + 1, None) {
        Some(g) => if allowed_inline_tag(s.subrange(i, g + 1)) {
            match parse_tag_inner(s.subrange(i + 1, g)) {
                Some(shape) => Some((shape_tokens(shape), g + 1)),
                None => None,
            }
        } else {
            None
        },
        None => None,
    }
}

/// Signature tokens of the tags in `s` from index `i`, scanning left to right;
/// a `<` that does not start a tag is skipped on its own.
pub open spec fn tags_from(s: Seq<char>, i: int) -> Seq<Seq<char>>
    decreases s.len() - i,
{
    if i < 0 || i >= s.len() {
        Seq::empty()
    } else if s[i] != '<' {
        tags_from(s, i + 1)
    } else {
        proof {
            lemma_tag_close_range(s, i + 1, None);
        }
        match tag_at(s, i) {
            Some((toks, end)) => toks + tags_from(s, end),
            None => tags_from(s, i + 1),
        }
    }
}

/// A placeholder body: non-empty ASCII letters, digits and `_`.
pub open spec fn is_placeholder_body(t: Seq<char>) -> bool {
    t.len() > 0 && forall|k: int| 0 <= k < t.len() ==> (is_ascii_alnum_spec(#[trigger] t[k]) || t[k] == '_')
}

/// The placeholders of `s` from index `i`: at each `{`, the text up to the
/// nearest `}` is a placeholder when its body qualifies, otherwise scanning
/// resumes after the `{`; with no `}` left, scanning stops.
pub open spec fn placeholders_from(s: Seq<char>, i: int) -> Seq<Seq<char>>
    decreases s.len() - i,
{
    if i < 0 || i >= s.len() {
        Seq::empty()
    } else if s[i] != '{' {
        placeholders_from(s, i + 1)
    } else {
        proof {
            lemma_char_find_range(s, '}', i + 1);
        }
        match char_find(s, '}', i + 1) {
            None => Seq::empty(),
            Some(j) => if is_placeholder_body(s.subrange(i + 1, j)) {
                seq![s.subrange(i, j + 1)] + placeholders_from(s, j + 1)
            } else {
                placeholders_from(s, i + 1)
            },
        }
    }
}

/// `&lt;` and `&gt;` read as `<` and `>` (`&lt;` first, then `&gt;`).
pub open spec fn restore_entities(t: Seq<char>) -> Seq<char> {
    replace_all(
        replace_all(t, seq!['&', 'l', 't', ';'], seq!['<']),
        seq!['&', 'g', 't', ';'],
        seq!['>'],
    )
}

/// Placeholder tokens of a text, in order of appearance.
pub open spec fn placeholder_signature(t: Seq<char>) -> Seq<Seq<char>> {
    placeholders_from(restore_entities(t), 0)
}

/// Tag tokens of a text, in order of appearance.
pub open spec fn tag_signature(t: Seq<char>) -> Seq<Seq<char>> {
    tags_from(restore_entities(t), 0)
}

fn tag_at_exec(s: &[char], i: usize) -> (r: Option<(Vec<Vec<char>>, usize)>)
    requires
        i < s@.len(),
    ensures
        match r {
            Some((toks, end)) => tag_at(s@, i as int) == Some((seqs_of(toks@), end as int)),
            None => tag_at(s@, i as int) is None,
        },
{
    let n = s.len();
    assert(i < n);
    match find_tag_close(s, i + 1) {
        Some(g) => {
            let tag = copy_range(s, i, g + 1);
            if !is_allowed_inline_chars(tag.as_slice()) {
                return None;
            }
            let inner = copy_range(s, i + 1, g);
            match parse_tag_inner_exec(inner.as_slice()) {
                Some(p) => {
                    let toks = shape_tokens_exec(&p);
                    Some((toks, g + 1))
                },
                None => None,
            }
        },
        None => None,
    }
}

fn scan_tags(s: &[char]) -> (r: Vec<Vec<char>>)
    ensures
        seqs_of(r@) == tags_from(s@, 0),
{
    let mut out: Vec<Vec<char>> = Vec::new();
    let mut i: usize = 0;
    assert(seqs_of(out@) + tags_from(s@, 0) =~= tags_from(s@, 0));
    while i < s.len()
        invariant
            i <= s@.len(),
            seqs_of(out@) + tags_from(s@, i as int) == tags_from(s@, 0),
        decreases s@.len() - i,
    {
        if s[i] != '<' {
            i = i + 1;
        } else {
            proof {
                lemma_tag_close_range(s@, i + 1, None);
            }
            match tag_at_exec(s, i) {
                Some((toks, end)) => {
                    let ghost before = seqs_of(out@);
                    append_tokens(&mut out, &toks);
                    assert(seqs_of(out@) + tags_from(s@, end as int) =~= before + (seqs_of(toks@) + tags_from(s@, end as int)));
                    i = end;
                },
                None => {
                    i = i + 1;
                },
            }
        }
    }
    assert(seqs_of(out@) + Seq::<Seq<char>>::empty() =~= seqs_of(out@));
    out
}

fn is_placeholder_body_exec(s: &[char], from: usize, to: usize) -> (r: bool)
    requires
        from <= to <= s@.len(),
    ensures
        r == is_placeholder_body(s@.subrange(from as int, to as int)),
{
    if from == to {
        return false;
    }
    let mut k = from;
    while k < to
        invariant
            from <= k <= to <= s@.len(),
            forall|j: int| from <= j < k ==> (is_ascii_alnum_spec(#[trigger] s@[j]) || s@[j] == '_'),
        decreases to - k,
    {
        if !(is_ascii_alphanumeric(s[k]) || s[k] == '_') {
            assert(s@.subrange(from as int, to as int)[k - from] == s@[k as int]);
            return false;
        }
        k = k + 1;
    }
    proof {
        let t = s@.subrange(from as int, to as int);
        assert forall|j: int| 0 <= j < t.len() implies (is_ascii_alnum_spec(#[trigger] t[j]) || t[j] == '_') by {
            assert(t[j] == s@[from + j]);
        }
    }
    true
}

fn scan_placeholders(s: &[char]) -> (r: Vec<Vec<char>>)
    ensures
        seqs_of(r@) == placeholders_from(s@, 0),
{
    let mut out: Vec<Vec<char>> = Vec::new();
    let mut i: usize = 0;
    assert(seqs_of(out@) + placeholders_from(s@, 0) =~= placeholders_from(s@, 0));
    while i < s.len()
        invariant
            i <= s@.len(),
            seqs_of(out@) + placeholders_from(s@, i as int) == placeholders_from(s@, 0),
        decreases s@.len() - i,
    {
        if s[i] != '{' {
            i = i + 1;
        } else {
            match char_find_exec(s, '}', i + 1) {
                None => {
                    assert(seqs_of(out@) + placeholders_from(s@, s@.len() as int) =~= seqs_of(out@) + placeholders_from(s@, i as int));
                    i = s.len();
                },
                Some(j) => {
                    if is_placeholder_body_exec(s, i + 1, j) {
                        let ghost before = seqs_of(out@);
                        let tok = copy_range(s, i, j + 1);
                        push_token(&mut out, tok);
                        assert(seqs_of(out@) + placeholders_from(s@, j + 1) =~= before + (seq![s@.subrange(i as int, j + 1)] + placeholders_from(s@, j + 1)));
                        i = j + 1;
                    } else {
                        i = i + 1;
                    }
                },
            }
        }
    }
    assert(seqs_of(out@) + Seq::<Seq<char>>::empty() =~= seqs_of(out@));
    out
}

// ─────────────────────────────────────────────────────────────
// Issues
// ─────────────────────────────────────────────────────────────

/// How many times `x` occurs in `s`.
pub open spec fn count_in(s: Seq<Seq<char>>, x: Seq<char>) -> nat
    decreases s.len(),
{
    if s.len() == 0 {
        0
    } else {
        count_in(s.drop_last(), x) + (if s.last() == x {
            1nat
        } else {
            0nat
        })
    }
}

/// The distinct tokens of `s` in order of first appearance.
pub open spec fn first_occurrences(s: Seq<Seq<char>>) -> Seq<Seq<char>>
    decreases s.len(),
{
    if s.len() == 0 {
        s
    } else {
        let f = first_occurrences(s.drop_last());
        if f.contains(s.last()) {
            f
        } else {
            f.push(s.last())
        }
    }
}

/// For each key, in order, that occurs fewer times in `less` than in
/// `more`: the key and the difference.
pub open spec fn shortfalls(keys: Seq<Seq<char>>, more: Seq<Seq<char>>, less: Seq<Seq<char>>) -> Seq<(Seq<char>, nat)>
    decreases keys.len(),
{
    if keys.len() == 0 {
        Seq::empty()
    } else {
        let prev = shortfalls(keys.drop_last(), more, less);
        let k = keys.last();
        if count_in(less, k) < count_in(more, k) {
            prev.push((k, (count_in(more, k) - count_in(less, k)) as nat))
        } else {
            prev
        }
    }
}

/// One structural difference between a source text and its translation.
pub enum IssueModel {
    MissingPlaceholder { token: Seq<char>, count: nat },
    ExtraPlaceholder { token: Seq<char>, count: nat },
    MissingTag { tag: Seq<char>, count: nat },
    ExtraTag { tag: Seq<char>, count: nat },
    TagStructureChanged,
}

/// The four counted issue kinds.
#[derive(Clone, Copy)]
pub enum IssueKind {
    MissingPlaceholder,
    ExtraPlaceholder,
    MissingTag,
    ExtraTag,
}

pub open spec fn issue_of(kind: IssueKind, p: (Seq<char>, nat)) -> IssueModel {
    match kind {
        IssueKind::MissingPlaceholder => IssueModel::MissingPlaceholder { token: p.0, count: p.1 },
        IssueKind::ExtraPlaceholder => IssueModel::ExtraPlaceholder { token: p.0, count: p.1 },
        IssueKind::MissingTag => IssueModel::MissingTag { tag: p.0, count: p.1 },
        IssueKind::ExtraTag => IssueModel::ExtraTag { tag: p.0, count: p.1 },
    }
}

/// Issues of one kind: the shortfalls of `less` against `more`, keyed by the
/// distinct tokens of `more` in order of first appearance.
pub open spec fn issues_of_kind(kind: IssueKind, more: Seq<Seq<char>>, less: Seq<Seq<char>>) -> Seq<IssueModel> {
    shortfalls(first_occurrences(more), more, less).map_values(|p: (Seq<char>, nat)| issue_of(kind, p))
}

/// All structural issues of `target` against `source`, in this order:
/// missing placeholders, extra placeholders, missing tags, extra tags; when
/// there are none but the tag sequences still differ, the single issue
/// `TagStructureChanged`.
pub open spec fn fidelity_issues(source: Seq<char>, target: Seq<char>) -> Seq<IssueModel> {
    let sp = placeholder_signature(source);
    let tp = placeholder_signature(target);
    let st = tag_signature(source);
    let tt = tag_signature(target);
    let issues = issues_of_kind(IssueKind::MissingPlaceholder, sp, tp) + issues_of_kind(
        IssueKind::ExtraPlaceholder,
        tp,
        sp,
    ) + issues_of_kind(IssueKind::MissingTag, st, tt) + issues_of_kind(IssueKind::ExtraTag, tt, st);
    if issues.len() == 0 && st != tt {
        seq![IssueModel::TagStructureChanged]
    } else {
        issues
    }
}

/// A structural fidelity problem found in a translation.
#[derive(Debug, Clone, PartialEq, Eq, Hash)]
pub enum FidelityIssue {
    /// A placeholder of the source that is missing (or occurs too rarely).
    MissingPlaceholder { token: String, count: usize },
    /// A placeholder the translation adds (or repeats too often).
    ExtraPlaceholder { token: String, count: usize },
    /// A tag token of the source that is missing (`<LSTag>`, `</LSTag>`, `<br/>`).
    MissingTag { tag: String, count: usize },
    /// A tag token the translation adds.
    ExtraTag { tag: String, count: usize },
    /// Same tag multiset, different order or nesting.
    TagStructureChanged,
}

impl View for FidelityIssue {
    type V = IssueModel;

    open spec fn view(&self) -> IssueModel {
        match self {
            FidelityIssue::MissingPlaceholder { token, count } => IssueModel::MissingPlaceholder {
                token: token@,
                count: *count as nat,
            },
            FidelityIssue::ExtraPlaceholder { token, count } => IssueModel::ExtraPlaceholder {
                token: token@,
                count: *count as nat,
            },
            FidelityIssue::MissingTag { tag, count } => IssueModel::MissingTag {
                tag: tag@,
                count: *count as nat,
            },
            FidelityIssue::ExtraTag { tag, count } => IssueModel::ExtraTag {
                tag: tag@,
                count: *count as nat,
            },
            FidelityIssue::TagStructureChanged => IssueModel::TagStructureChanged,
        }
    }
}

pub open spec fn issues_view(v: Seq<FidelityIssue>) -> Seq<IssueModel> {
    v.map_values(|i: FidelityIssue| i@)
}

fn count_tokens(s: &Vec<Vec<char>>, x: &[char]) -> (r: usize)
    ensures
        r == count_in(seqs_of(s@), x@),
        r <= s@.len(),
{
    let ghost t = seqs_of(s@);
    let mut n: usize = 0;
    let mut i: usize = 0;
    assert(t.take(0) =~= Seq::<Seq<char>>::empty());
    while i < s.len()
        invariant
            i <= s@.len(),
            t == seqs_of(s@),
            n == count_in(t.take(i as int), x@),
            n <= i,
        decreases s@.len() - i,
    {
        assert(t.take(i + 1).drop_last() =~= t.take(i as int));
        if chars_eq(s[i].as_slice(), x) {
            n = n + 1;
        }
        i = i + 1;
    }
    assert(t.take(s@.len() as int) =~= t);
    n
}

pub fn contains_token(s: &Vec<Vec<char>>, x: &[char]) -> (r: bool)
    ensures
        r == seqs_of(s@).contains(x@),
{
    let mut i: usize = 0;
    while i < s.len()
        invariant
            i <= s@.len(),
            forall|k: int| 0 <= k < i ==> s@[k]@ != x@,
        decreases s@.len() - i,
    {
        if chars_eq(s[i].as_slice(), x) {
            assert(seqs_of(s@)[i as int] == x@);
            return true;
        }
        i = i + 1;
    }
    proof {
        if seqs_of(s@).contains(x@) {
            let k = choose|k: int| 0 <= k < seqs_of(s@).len() && seqs_of(s@)[k] == x@;
            assert(s@[k]@ == x@);
        }
    }
    false
}

fn distinct_tokens(s: &Vec<Vec<char>>) -> (r: Vec<Vec<char>>)
    ensures
        seqs_of(r@) == first_occurrences(seqs_of(s@)),
{
    let ghost t = seqs_of(s@);
    let mut out: Vec<Vec<char>> = Vec::new();
    let mut i: usize = 0;
    assert(t.take(0) =~= Seq::<Seq<char>>::empty());
    assert(seqs_of(out@) =~= Seq::<Seq<char>>::empty());
    while i < s.len()
        invariant
            i <= s@.len(),
            t == seqs_of(s@),
            seqs_of(out@) == first_occurrences(t.take(i as int)),
        decreases s@.len() - i,
    {
        assert(t.take(i + 1).drop_last() =~= t.take(i as int));
        if !contains_token(&out, s[i].as_slice()) {
            push_token(&mut out, copy_all(&s[i]));
        }
        i = i + 1;
    }
    assert(t.take(s@.len() as int) =~= t);
    out
}

fn issue_exec(kind: IssueKind, token: &[char], count: usize) -> (r: FidelityIssue)
    ensures
        r@ == issue_of(kind, (token@, count as nat)),
{
    let token = string_of(token);
    match kind {
        IssueKind::MissingPlaceholder => FidelityIssue::MissingPlaceholder { token, count },
        IssueKind::ExtraPlaceholder => FidelityIssue::ExtraPlaceholder { token, count },
        IssueKind::MissingTag => FidelityIssue::MissingTag { tag: token, count },
        IssueKind::ExtraTag => FidelityIssue::ExtraTag { tag: token, count },
    }
}

fn push_issues_of_kind(
    issues: &mut Vec<FidelityIssue>,
    kind: IssueKind,
    more: &Vec<Vec<char>>,
    less: &Vec<Vec<char>>,
)
    ensures
        issues_view(final(issues)@) == issues_view(old(issues)@) + issues_of_kind(
            kind,
            seqs_of(more@),
            seqs_of(less@),
        ),
{
    let keys = distinct_tokens(more);
    let ghost ks = seqs_of(keys@);
    let ghost m = seqs_of(more@);
    let ghost l = seqs_of(less@);
    let ghost f = |p: (Seq<char>, nat)| issue_of(kind, p);
    let mut i: usize = 0;
    assert(ks.take(0) =~= Seq::<Seq<char>>::empty());
    assert(issues_view(issues@) =~= issues_view(old(issues)@) + shortfalls(ks.take(0), m, l).map_values(f));
    while i < keys.len()
        invariant
            i <= keys@.len(),
            ks == seqs_of(keys@),
            m == seqs_of(more@),
            l == seqs_of(less@),
            f == (|p: (Seq<char>, nat)| issue_of(kind, p)),
            issues_view(issues@) == issues_view(old(issues)@) + shortfalls(ks.take(i as int), m, l).map_values(f),
        decreases keys@.len() - i,
    {
        let key = keys[i].as_slice();
        let a = count_tokens(more, key);
        let b = count_tokens(less, key);
        assert(ks.take(i + 1).drop_last() =~= ks.take(i as int));
        assert(ks.take(i + 1).last() == ks[i as int]);
        let ghost before = issues_view(issues@);
        if b < a {
            let issue = issue_exec(kind, key, a - b);
            issues.push(issue);
            assert(issues_view(issues@) =~= before.push(issue@));
            assert(shortfalls(ks.take(i + 1), m, l).map_values(f) =~= shortfalls(ks.take(i as int), m, l).map_values(f).push(f((ks[i as int], (a - b) as nat))));
        }
        i = i + 1;
    }
    assert(ks.take(keys@.len() as int) =~= ks);
}

fn tokens_eq(a: &Vec<Vec<char>>, b: &Vec<Vec<char>>) -> (r: bool)
    ensures
        r == (seqs_of(a@) == seqs_of(b@)),
{
    if a.len() != b.len() {
        assert(seqs_of(a@).len() != seqs_of(b@).len());
        return false;
    }
    let mut i: usize = 0;
    while i < a.len()
        invariant
            a@.len() == b@.len(),
            i <= a@.len(),
            forall|k: int| 0 <= k < i ==> a@[k]@ == b@[k]@,
        decreases a@.len() - i,
    {
        if !chars_eq(a[i].as_slice(), b[i].as_slice()) {
            assert(seqs_of(a@)[i as int] != seqs_of(b@)[i as int]);
            return false;
        }
        i = i + 1;
    }
    assert(seqs_of(a@) =~= seqs_of(b@));
    true
}

fn restore_entities_exec(t: &str) -> (r: Vec<char>)
    ensures
        r@ == restore_entities(t@),
{
    let v = chars_of(t);
    let lt: Vec<char> = vec!['&', 'l', 't', ';'];
    let gt: Vec<char> = vec!['&', 'g', 't', ';'];
    let open: Vec<char> = vec!['<'];
    let close: Vec<char> = vec!['>'];
    assert(lt@ =~= seq!['&', 'l', 't', ';']);
    assert(gt@ =~= seq!['&', 'g', 't', ';']);
    assert(open@ =~= seq!['<']);
    assert(close@ =~= seq!['>']);
    let a = replace_chars(v.as_slice(), lt.as_slice(), open.as_slice());
    replace_chars(a.as_slice(), gt.as_slice(), close.as_slice())
}

/// Compares the structural signatures of a source text and its translation;
/// an empty list means the translation is faithful.
pub fn check_fidelity(source: &str, target: &str) -> (r: Vec<FidelityIssue>)
    ensures
        issues_view(r@) == fidelity_issues(source@, target@),
{
    let s = restore_entities_exec(source);
    let t = restore_entities_exec(target);
    let sp = scan_placeholders(s.as_slice());
    let tp = scan_placeholders(t.as_slice());
    let st = scan_tags(s.as_slice());
    let tt = scan_tags(t.as_slice());
    let mut issues: Vec<FidelityIssue> = Vec::new();
    assert(issues_view(issues@) =~= Seq::<IssueModel>::empty());
    push_issues_of_kind(&mut issues, IssueKind::MissingPlaceholder, &sp, &tp);
    push_issues_of_kind(&mut issues, IssueKind::ExtraPlaceholder, &tp, &sp);
    push_issues_of_kind(&mut issues, IssueKind::MissingTag, &st, &tt);
    push_issues_of_kind(&mut issues, IssueKind::ExtraTag, &tt, &st);
    assert(issues_view(issues@) =~= Seq::<IssueModel>::empty() + issues_of_kind(IssueKind::MissingPlaceholder, seqs_of(sp@), seqs_of(tp@)) + issues_of_kind(IssueKind::ExtraPlaceholder, seqs_of(tp@), seqs_of(sp@)) + issues_of_kind(IssueKind::MissingTag, seqs_of(st@), seqs_of(tt@)) + issues_of_kind(IssueKind::ExtraTag, seqs_of(tt@), seqs_of(st@)));
    if issues.len() == 0 && !tokens_eq(&st, &tt) {
        issues.push(FidelityIssue::TagStructureChanged);
        assert(issues_view(issues@) =~= seq![IssueModel::TagStructureChanged]);
    }
    issues
}

/// Whether the translation keeps the structure of the source.
pub fn is_faithful(source: &str, target: &str) -> (r: bool)
    ensures
        r == (fidelity_issues(source@, target@).len() == 0),
{
    check_fidelity(source, target).len() == 0
}

// ─────────────────────────────────────────────────────────────
// Wording
// ─────────────────────────────────────────────────────────────

/// `" N 处"` for a count above one, nothing otherwise.
pub open spec fn count_text(count: nat) -> Seq<char> {
    if count > 1 {
        " "@ + decimal(count) + " 处"@
    } else {
        Seq::empty()
    }
}

/// How an issue is shown to the user.
pub open spec fn issue_message(m: IssueModel) -> Seq<char> {
    match m {
        IssueModel::MissingPlaceholder { token, count } => "占位符 "@ + token + " 缺失"@ + count_text(count),
        IssueModel::ExtraPlaceholder { token, count } => "占位符 "@ + token + " 多出"@ + count_text(count),
        IssueModel::MissingTag { tag, count } => "标签 "@ + tag + " 缺失"@ + count_text(count),
        IssueModel::ExtraTag { tag, count } => "标签 "@ + tag + " 多出"@ + count_text(count),
        IssueModel::TagStructureChanged => "标签顺序或嵌套与原文不一致"@,
    }
}

/// How an issue is phrased in a correction request to the model.
pub open spec fn issue_hint(m: IssueModel) -> Seq<char> {
    match m {
        IssueModel::MissingPlaceholder { token, count } => "缺少"@ + count_text(count) + "占位符 "@ + token,
        IssueModel::ExtraPlaceholder { token, count } => "多出"@ + count_text(count) + "占位符 "@ + token,
        IssueModel::MissingTag { tag, count } => "缺少"@ + count_text(count) + "标签 "@ + tag,
        IssueModel::ExtraTag { tag, count } => "多出"@ + count_text(count) + "标签 "@ + tag,
        IssueModel::TagStructureChanged => "标签顺序或嵌套与原文不一致"@,
    }
}

fn count_text_exec(count: usize) -> (r: String)
    ensures
        r@ == count_text(count as nat),
{
    if count > 1 {
        let mut r = String::from_str(" ");
        r.append(usize_to_string(count).as_str());
        r.append(" 处");
        r
    } else {
        String::new()
    }
}

impl FidelityIssue {
    /// The message shown for this issue, e.g. `占位符 {1} 缺失`.
    pub fn message(&self) -> (r: String)
        ensures
            r@ == issue_message(self@),
    {
        match self {
            FidelityIssue::MissingPlaceholder { token, count } => {
                let mut r = String::from_str("占位符 ");
                r.append(token.as_str());
                r.append(" 缺失");
                r.append(count_text_exec(*count).as_str());
                r
            },
            FidelityIssue::ExtraPlaceholder { token, count } => {
                let mut r = String::from_str("占位符 ");
                r.append(token.as_str());
                r.append(" 多出");
                r.append(count_text_exec(*count).as_str());
                r
            },
            FidelityIssue::MissingTag { tag, count } => {
                let mut r = String::from_str("标签 ");
                r.append(tag.as_str());
                r.append(" 缺失");
                r.append(count_text_exec(*count).as_str());
                r
            },
            FidelityIssue::ExtraTag { tag, count } => {
                let mut r = String::from_str("标签 ");
                r.append(tag.as_str());
                r.append(" 多出");
                r.append(count_text_exec(*count).as_str());
                r
            },
            FidelityIssue::TagStructureChanged => String::from_str("标签顺序或嵌套与原文不一致"),
        }
    }

    /// The phrasing used in a correction request, e.g. `缺少占位符 {1}`.
    pub fn hint(&self) -> (r: String)
        ensures
            r@ == issue_hint(self@),
    {
        match self {
            FidelityIssue::MissingPlaceholder { token, count } => {
                let mut r = String::from_str("缺少");
                r.append(count_text_exec(*count).as_str());
                r.append("占位符 ");
                r.append(token.as_str());
                r
            },
            FidelityIssue::ExtraPlaceholder { token, count } => {
                let mut r = String::from_str("多出");
                r.append(count_text_exec(*count).as_str());
                r.append("占位符 ");
                r.append(token.as_str());
                r
            },
            FidelityIssue::MissingTag { tag, count } => {
                let mut r = String::from_str("缺少");
                r.append(count_text_exec(*count).as_str());
                r.append("标签 ");
                r.append(tag.as_str());
                r
            },
            FidelityIssue::ExtraTag { tag, count } => {
                let mut r = String::from_str("多出");
                r.append(count_text_exec(*count).as_str());
                r.append("标签 ");
                r.append(tag.as_str());
                r
            },
            FidelityIssue::TagStructureChanged => String::from_str("标签顺序或嵌套与原文不一致"),
        }
    }
}


/// At most this many issues are listed in a summary or correction hint.
pub const MAX_LISTED_ISSUES: usize = 3;

/// The listed parts: the first three texts, then `more(n)` when there are
/// more than three issues.
pub open spec fn listed_parts(texts: Seq<Seq<char>>, more: Seq<char>) -> Seq<Seq<char>> {
    if texts.len() > MAX_LISTED_ISSUES {
        texts.take(MAX_LISTED_ISSUES as int).push(more)
    } else {
        texts
    }
}

/// One short line for an error message: up to three issue messages joined
/// by `；`, then `等 N 项` when there are more; a fixed sentence when empty.
pub open spec fn summary_text(issues: Seq<IssueModel>) -> Seq<char> {
    if issues.len() == 0 {
        "结构校验未通过"@
    } else {
        join_with(
            listed_parts(issues.map_values(|m: IssueModel| issue_message(m)), "等 "@ + decimal(issues.len()) + " 项"@),
            "；"@,
        )
    }
}

/// The correction request appended to a retry.
pub open spec fn correction_text(issues: Seq<IssueModel>) -> Seq<char> {
    "上一轮译文"@ + join_with(
        listed_parts(issues.map_values(|m: IssueModel| issue_hint(m)), "等 "@ + decimal(issues.len()) + " 项结构问题"@),
        "；"@,
    ) + "，请重新只输出译文，并原样保留原文中的全部占位符与富文本标签。"@
}

pub fn join_strings(parts: &Vec<String>, sep: &str) -> (r: String)
    ensures
        r@ == join_with(parts@.map_values(|p: String| p@), sep@),
{
    let ghost ps = parts@.map_values(|p: String| p@);
    let mut out = String::new();
    let mut i: usize = 0;
    assert(ps.take(0) =~= Seq::<Seq<char>>::empty());
    while i < parts.len()
        invariant
            i <= parts@.len(),
            ps == parts@.map_values(|p: String| p@),
            out@ == join_with(ps.take(i as int), sep@),
        decreases parts@.len() - i,
    {
        let ghost before = out@;
        if i > 0 {
            out.append(sep);
        }
        out.append(parts[i].as_str());
        proof {
            let t = ps.take(i + 1);
            assert(t.drop_last() =~= ps.take(i as int));
            assert(t.last() == parts@[i as int]@);
            if i == 0 {
                assert(out@ =~= t[0]);
            } else {
                assert(out@ =~= join_with(ps.take(i as int), sep@) + sep@ + t.last());
            }
        }
        i = i + 1;
    }
    assert(ps.take(parts@.len() as int) =~= ps);
    out
}

/// Summarises issues in one short line (the message of an error event).
pub fn summarize(issues: &[FidelityIssue]) -> (r: String)
    ensures
        r@ == summary_text(issues_view(issues@)),
{
    if issues.len() == 0 {
        return String::from_str("结构校验未通过");
    }
    let ghost ms = issues_view(issues@).map_values(|m: IssueModel| issue_message(m));
    let mut parts: Vec<String> = Vec::new();
    let mut i: usize = 0;
    while i < issues.len() && i < MAX_LISTED_ISSUES
        invariant
            i <= issues@.len(),
            i <= MAX_LISTED_ISSUES,
            ms == issues_view(issues@).map_values(|m: IssueModel| issue_message(m)),
            parts@.map_values(|p: String| p@) == ms.take(i as int),
        decreases issues@.len() - i,
    {
        let ghost before = parts@.map_values(|p: String| p@);
        parts.push(issues[i].message());
        assert(parts@.map_values(|p: String| p@) =~= before.push(ms[i as int]));
        assert(ms.take(i + 1) =~= ms.take(i as int).push(ms[i as int]));
        i = i + 1;
    }
    if issues.len() > MAX_LISTED_ISSUES {
        let mut more = String::from_str("等 ");
        more.append(usize_to_string(issues.len()).as_str());
        more.append(" 项");
        let ghost before = parts@.map_values(|p: String| p@);
        let ghost mv = more@;
        parts.push(more);
        assert(parts@.map_values(|p: String| p@) =~= before.push(mv));
    } else {
        assert(ms.take(i as int) =~= ms);
    }
    join_strings(&parts, "；")
}

/// The correction request appended to a retry after a fidelity failure.
pub fn correction_hint(issues: &[FidelityIssue]) -> (r: String)
    ensures
        r@ == correction_text(issues_view(issues@)),
{
    let ghost hs = issues_view(issues@).map_values(|m: IssueModel| issue_hint(m));
    let mut parts: Vec<String> = Vec::new();
    let mut i: usize = 0;
    assert(parts@.map_values(|p: String| p@) =~= hs.take(0));
    while i < issues.len() && i < MAX_LISTED_ISSUES
        invariant
            i <= issues@.len(),
            i <= MAX_LISTED_ISSUES,
            hs == issues_view(issues@).map_values(|m: IssueModel| issue_hint(m)),
            parts@.map_values(|p: String| p@) == hs.take(i as int),
        decreases issues@.len() - i,
    {
        let ghost before = parts@.map_values(|p: String| p@);
        parts.push(issues[i].hint());
        assert(parts@.map_values(|p: String| p@) =~= before.push(hs[i as int]));
        assert(hs.take(i + 1) =~= hs.take(i as int).push(hs[i as int]));
        i = i + 1;
    }
    if issues.len() > MAX_LISTED_ISSUES {
        let mut more = String::from_str("等 ");
        more.append(usize_to_string(issues.len()).as_str());
        more.append(" 项结构问题");
        let ghost before = parts@.map_values(|p: String| p@);
        let ghost mv = more@;
        parts.push(more);
        assert(parts@.map_values(|p: String| p@) =~= before.push(mv));
    } else {
        assert(hs.take(i as int) =~= hs);
    }
    let mut r = String::from_str("上一轮译文");
    r.append(join_strings(&parts, "；").as_str());
    r.append("，请重新只输出译文，并原样保留原文中的全部占位符与富文本标签。");
    r
}


proof fn lemma_no_shortfall_against_itself(keys: Seq<Seq<char>>, x: Seq<Seq<char>>)
    ensures
        shortfalls(keys, x, x).len() == 0,
    decreases keys.len(),
{
    if keys.len() > 0 {
        lemma_no_shortfall_against_itself(keys.drop_last(), x);
    }
}

/// A translation that keeps the source text unchanged is faithful: no
/// placeholder or tag is missing, added or moved.
pub proof fn law_identical_translation_is_faithful(source: Seq<char>)
    ensures
        fidelity_issues(source, source).len() == 0,
{
    let sp = placeholder_signature(source);
    let st = tag_signature(source);
    lemma_no_shortfall_against_itself(first_occurrences(sp), sp);
    lemma_no_shortfall_against_itself(first_occurrences(st), st);
}

} // verus!
