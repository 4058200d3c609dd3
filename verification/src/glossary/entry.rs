//! Glossary terms and the noise filter applied when a glossary is imported.

use vstd::prelude::*;
use crate::glossary::pattern::{regex_hit, regex_is_match};
use crate::text::{
    chars_eq_str, chars_of, contains_chars, contains_seq, copy_range, is_blank, string_of, trim,
    trim_chars, unicode_lowercase, utf8_len,
};
use crate::translation::series::words_from;

verus! {

/// Term category (kept for older imports only).
pub type Category = String;

/// One glossary term, with the field names of the glossary JSON.
#[derive(Debug, Clone, PartialEq, Eq)]
pub struct GlossaryEntry {
    /// The English term.
    pub source: String,
    /// The Chinese rendering.
    pub target: String,
    /// Only kept for older imported data; never saved.
    pub category: Category,
    /// `official` or `user`.
    pub source_kind: String,
    pub enabled: bool,
    /// Ambiguous terms are not matched, to avoid wrong replacements.
    pub ambiguous: bool,
    pub whole_word: bool,
    pub case_sensitive: bool,
    /// Occurrences in the game text (a sorting hint).
    pub count: u32,
}

/// The plain-value model of a term.
pub struct TermModel {
    pub source: Seq<char>,
    pub target: Seq<char>,
    pub category: Seq<char>,
    pub source_kind: Seq<char>,
    pub enabled: bool,
    pub ambiguous: bool,
    pub whole_word: bool,
    pub case_sensitive: bool,
    pub count: u32,
}

impl View for GlossaryEntry {
    type V = TermModel;

    open spec fn view(&self) -> TermModel {
        TermModel {
            source: self.source@,
            target: self.target@,
            category: self.category@,
            source_kind: self.source_kind@,
            enabled: self.enabled,
            ambiguous: self.ambiguous,
            whole_word: self.whole_word,
            case_sensitive: self.case_sensitive,
            count: self.count,
        }
    }
}

impl Default for GlossaryEntry {
    /// A new user term: enabled, unambiguous, whole-word, case-insensitive.
    fn default() -> (r: Self)
        ensures
            r@ == (TermModel {
                source: Seq::empty(),
                target: Seq::empty(),
                category: "name_or_title"@,
                source_kind: "user"@,
                enabled: true,
                ambiguous: false,
                whole_word: true,
                case_sensitive: false,
                count: 0,
            }),
    {
        GlossaryEntry {
            source: String::new(),
            target: String::new(),
            category: String::from_str("name_or_title"),
            source_kind: String::from_str("user"),
            enabled: true,
            ambiguous: false,
            whole_word: true,
            case_sensitive: false,
            count: 0,
        }
    }
}

impl GlossaryEntry {
    /// A field-by-field copy.
    pub fn duplicate(&self) -> (r: Self)
        ensures
            r@ == self@,
    {
        GlossaryEntry {
            source: self.source.clone(),
            target: self.target.clone(),
            category: self.category.clone(),
            source_kind: self.source_kind.clone(),
            enabled: self.enabled,
            ambiguous: self.ambiguous,
            whole_word: self.whole_word,
            case_sensitive: self.case_sensitive,
            count: self.count,
        }
    }
}

// ─────────────────────────────────────────────────────────────
// Noise filter
// ─────────────────────────────────────────────────────────────

/// Sentence templates with numbered placeholders (`[1] from [2]`).
pub const PLACEHOLDER_PATTERN: &'static str = r"\[\d+\]";

/// UI key markers: all-caps internal ids in brackets (`[DRUID]`).
pub const UI_MARKER_PATTERN: &'static str = r"^\[[A-Z_]{2,}\]";

/// Text without any letter, digit or CJK character.
pub const SYMBOL_ONLY_PATTERN: &'static str = r"^[\W_]+$";

/// Common short English words that would match ordinary text.
pub open spec fn common_short_word(w: Seq<char>) -> bool {
    ||| w == "of"@ || w == "and"@ || w == "the"@ || w == "or"@ || w == "for"@ || w == "to"@
    ||| w == "in"@ || w == "on"@ || w == "at"@ || w == "by"@ || w == "is"@ || w == "it"@
    ||| w == "as"@ || w == "be"@ || w == "do"@ || w == "no"@ || w == "if"@ || w == "an"@
    ||| w == "my"@ || w == "we"@ || w == "he"@ || w == "up"@ || w == "so"@ || w == "tag"@
    ||| w == "end"@ || w == "yes"@ || w == "die"@ || w == "one"@ || w == "two"@ || w == "from"@
    ||| w == "upon"@ || w == "with"@ || w == "that"@ || w == "this"@ || w == "then"@ || w == "than"@
    ||| w == "but"@ || w == "not"@ || w == "all"@ || w == "any"@ || w == "can"@ || w == "may"@
    ||| w == "has"@ || w == "had"@ || w == "was"@ || w == "are"@ || w == "were"@ || w == "let"@
    ||| w == "set"@ || w == "get"@ || w == "put"@ || w == "out"@ || w == "off"@ || w == "own"@
    ||| w == "new"@ || w == "old"@ || w == "big"@ || w == "low"@
}

fn is_common_short_word(w: &[char]) -> (r: bool)
    ensures
        r == common_short_word(w@),
{
    chars_eq_str(w, "of") || chars_eq_str(w, "and") || chars_eq_str(w, "the") || chars_eq_str(w, "or")
        || chars_eq_str(w, "for") || chars_eq_str(w, "to") || chars_eq_str(w, "in") || chars_eq_str(w, "on")
        || chars_eq_str(w, "at") || chars_eq_str(w, "by") || chars_eq_str(w, "is") || chars_eq_str(w, "it")
        || chars_eq_str(w, "as") || chars_eq_str(w, "be") || chars_eq_str(w, "do") || chars_eq_str(w, "no")
        || chars_eq_str(w, "if") || chars_eq_str(w, "an") || chars_eq_str(w, "my") || chars_eq_str(w, "we")
        || chars_eq_str(w, "he") || chars_eq_str(w, "up") || chars_eq_str(w, "so") || chars_eq_str(w, "tag")
        || chars_eq_str(w, "end") || chars_eq_str(w, "yes") || chars_eq_str(w, "die") || chars_eq_str(w, "one")
        || chars_eq_str(w, "two") || chars_eq_str(w, "from") || chars_eq_str(w, "upon") || chars_eq_str(w, "with")
        || chars_eq_str(w, "that") || chars_eq_str(w, "this") || chars_eq_str(w, "then") || chars_eq_str(w, "than")
        || chars_eq_str(w, "but") || chars_eq_str(w, "not") || chars_eq_str(w, "all") || chars_eq_str(w, "any")
        || chars_eq_str(w, "can") || chars_eq_str(w, "may") || chars_eq_str(w, "has") || chars_eq_str(w, "had")
        || chars_eq_str(w, "was") || chars_eq_str(w, "are") || chars_eq_str(w, "were") || chars_eq_str(w, "let")
        || chars_eq_str(w, "set") || chars_eq_str(w, "get") || chars_eq_str(w, "put") || chars_eq_str(w, "out")
        || chars_eq_str(w, "off") || chars_eq_str(w, "own") || chars_eq_str(w, "new") || chars_eq_str(w, "old")
        || chars_eq_str(w, "big") || chars_eq_str(w, "low")
}

/// Number of `c` in `s`.
pub open spec fn count_char(s: Seq<char>, c: char) -> nat
    decreases s.len(),
{
    if s.len() == 0 {
        0
    } else {
        count_char(s.drop_last(), c) + if s.last() == c {
            1nat
        } else {
            0nat
        }
    }
}

/// The word consists of dashes only.
pub open spec fn all_dashes(w: Seq<char>) -> bool {
    forall|i: int| 0 <= i < w.len() ==> w[i] == '-'
}

/// Number of words that are not dashes only.
pub open spec fn non_dash_words(ws: Seq<Seq<char>>) -> nat
    decreases ws.len(),
{
    if ws.len() == 0 {
        0
    } else {
        non_dash_words(ws.drop_last()) + if all_dashes(ws.last()) {
            0nat
        } else {
            1nat
        }
    }
}

/// Whether a trimmed, non-empty source is noise rather than a term:
/// a placeholder template, a UI marker, a dash fragment, symbols only, or a
/// common short word (at most four bytes, compared lowercased).
pub open spec fn noise_source(s: Seq<char>) -> bool {
    ||| regex_hit(PLACEHOLDER_PATTERN@, s)
    ||| contains_seq(s, "[IE_"@)
    ||| regex_hit(UI_MARKER_PATTERN@, s)
    ||| (count_char(s, '-') >= 2 && non_dash_words(words_from(s, 0)) <= 2)
    ||| regex_hit(SYMBOL_ONLY_PATTERN@, s)
    ||| (utf8_len(s) <= 4 && common_short_word(unicode_lowercase(s)))
}

/// A term whose trimmed source is at most four bytes long and, lowercased,
/// one of the common short English words (of, and, the, or, for, to, in,
/// on, at, by, is, it, as, be, do, no, if, an, my, we, he, up, so, tag, end,
/// yes, die, one, two, from, upon, with, that, this, then, than, but, not,
/// all, any, can, may, has, had, was, are, were, let, set, get, put, out,
/// off, own, new, old, big, low) is dropped by cleaning: it would match
/// ordinary text.
pub proof fn law_common_short_words_are_dropped(m: TermModel)
    requires
        utf8_len(trim(m.source)) <= 4,
        ({
            let w = unicode_lowercase(trim(m.source));
            w == "of"@ || w == "and"@ || w == "the"@ || w == "or"@ || w == "for"@ || w == "to"@
                || w == "in"@ || w == "on"@ || w == "at"@ || w == "by"@ || w == "is"@ || w == "it"@
                || w == "as"@ || w == "be"@ || w == "do"@ || w == "no"@ || w == "if"@ || w == "an"@
                || w == "my"@ || w == "we"@ || w == "he"@ || w == "up"@ || w == "so"@ || w == "tag"@
                || w == "end"@ || w == "yes"@ || w == "die"@ || w == "one"@ || w == "two"@
                || w == "from"@ || w == "upon"@ || w == "with"@ || w == "that"@ || w == "this"@
                || w == "then"@ || w == "than"@ || w == "but"@ || w == "not"@ || w == "all"@
                || w == "any"@ || w == "can"@ || w == "may"@ || w == "has"@ || w == "had"@
                || w == "was"@ || w == "are"@ || w == "were"@ || w == "let"@ || w == "set"@
                || w == "get"@ || w == "put"@ || w == "out"@ || w == "off"@ || w == "own"@
                || w == "new"@ || w == "old"@ || w == "big"@ || w == "low"@
        }),
    ensures
        cleaned(m) is None,
{
    let s = trim(m.source);
    if s.len() > 0 && trim(m.target).len() > 0 {
        assert(common_short_word(unicode_lowercase(s)));
        assert(noise_source(s));
    }
}

/// The closing quote for an opening one.
pub open spec fn closing_quote(c: char) -> Option<char> {
    if c == '\'' {
        Some('\'')
    } else if c == '"' {
        Some('"')
    } else if c == '“' {
        Some('”')
    } else if c == '‘' {
        Some('’')
    } else if c == '「' {
        Some('」')
    } else if c == '『' {
        Some('』')
    } else {
        None
    }
}

/// The trimmed text without a pair of quotes that wraps all of it; the
/// quotes stay when they wrap nothing but whitespace or do not pair up.
pub open spec fn stripped_quotes(text: Seq<char>) -> Seq<char> {
    let s = trim(text);
    if s.len() == 0 {
        s
    } else {
        match closing_quote(s[0]) {
            None => s,
            Some(q) => if s.last() != q || s.len() <= 2 {
                s
            } else {
                let inner = trim(s.subrange(1, s.len() - 1));
                if inner.len() == 0 {
                    s
                } else {
                    inner
                }
            },
        }
    }
}

/// The cleaned term, or `None` when it is filtered out: blank source or
/// target, or a noise source; else both sides lose a wrapping quote pair.
pub open spec fn cleaned(m: TermModel) -> Option<TermModel> {
    let s = trim(m.source);
    let t = trim(m.target);
    if s.len() == 0 || t.len() == 0 || noise_source(s) {
        None
    } else {
        Some(TermModel { source: stripped_quotes(s), target: stripped_quotes(t), ..m })
    }
}

fn matching_quote(c: char) -> (r: Option<char>)
    ensures
        r == closing_quote(c),
{
    if c == '\'' {
        Some('\'')
    } else if c == '"' {
        Some('"')
    } else if c == '“' {
        Some('”')
    } else if c == '‘' {
        Some('’')
    } else if c == '「' {
        Some('」')
    } else if c == '『' {
        Some('』')
    } else {
        None
    }
}

/// Removes a pair of quotes that wraps the whole trimmed text (see
/// [`stripped_quotes`]).
pub fn strip_full_wrapping_quotes(s: &str) -> (r: String)
    ensures
        r@ == stripped_quotes(s@),
{
    let v = chars_of(s);
    let t = trim_chars(v.as_slice());
    let n = t.len();
    if n == 0 {
        return string_of(t.as_slice());
    }
    match matching_quote(t[0]) {
        None => string_of(t.as_slice()),
        Some(q) => {
            if t[n - 1] != q || n <= 2 {
                return string_of(t.as_slice());
            }
            let mid = copy_range(t.as_slice(), 1, n - 1);
            let inner = trim_chars(mid.as_slice());
            if inner.len() == 0 {
                string_of(t.as_slice())
            } else {
                string_of(inner.as_slice())
            }
        },
    }
}

fn count_dashes(s: &[char]) -> (r: usize)
    ensures
        r == count_char(s@, '-'),
{
    let mut n: usize = 0;
    let mut i: usize = 0;
    assert(s@.take(0) =~= Seq::<char>::empty());
    while i < s.len()
        invariant
            i <= s@.len(),
            n <= i,
            n == count_char(s@.take(i as int), '-'),
        decreases s@.len() - i,
    {
        assert(s@.take(i + 1).drop_last() =~= s@.take(i as int));
        if s[i] == '-' {
            n = n + 1;
        }
        i = i + 1;
    }
    assert(s@.take(i as int) =~= s@);
    n
}

fn dashes_only(w: &[char]) -> (r: bool)
    ensures
        r == all_dashes(w@),
{
    let mut i: usize = 0;
    while i < w.len()
        invariant
            i <= w@.len(),
            forall|k: int| 0 <= k < i ==> w@[k] == '-',
        decreases w@.len() - i,
    {
        if w[i] != '-' {
            return false;
        }
        i = i + 1;
    }
    true
}

fn count_non_dash_words(ws: &Vec<Vec<char>>) -> (r: usize)
    ensures
        r == non_dash_words(crate::text::seqs_of(ws@)),
{
    let ghost all = crate::text::seqs_of(ws@);
    let mut n: usize = 0;
    let mut i: usize = 0;
    assert(all.take(0) =~= Seq::<Seq<char>>::empty());
    while i < ws.len()
        invariant
            i <= ws@.len(),
            all == crate::text::seqs_of(ws@),
            n <= i,
            n == non_dash_words(all.take(i as int)),
        decreases ws@.len() - i,
    {
        assert(all.take(i + 1).drop_last() =~= all.take(i as int));
        assert(all.take(i + 1).last() == ws@[i as int]@);
        if !dashes_only(ws[i].as_slice()) {
            n = n + 1;
        }
        i = i + 1;
    }
    assert(all.take(i as int) =~= all);
    n
}

fn hit(pattern: &str, s: &str) -> (r: bool)
    ensures
        r == regex_hit(pattern@, s@),
{
    match regex_is_match(pattern, s) {
        Some(b) => b,
        None => false,
    }
}

fn is_noise(s: &str) -> (r: bool)
    ensures
        r == noise_source(s@),
{
    if hit(PLACEHOLDER_PATTERN, s) {
        return true;
    }
    let v = chars_of(s);
    let ie = chars_of("[IE_");
    if contains_chars(v.as_slice(), ie.as_slice()) || hit(UI_MARKER_PATTERN, s) {
        return true;
    }
    if count_dashes(v.as_slice()) >= 2 {
        let words = crate::translation::series::words_exec(v.as_slice());
        if count_non_dash_words(&words) <= 2 {
            return true;
        }
    }
    if hit(SYMBOL_ONLY_PATTERN, s) {
        return true;
    }
    if crate::text::str_utf8_len(s) <= 4 {
        let lower = crate::text::to_lowercase(s);
        let lv = chars_of(lower.as_str());
        if is_common_short_word(lv.as_slice()) {
            return true;
        }
    }
    false
}

/// Cleans one term (see [`cleaned`]): `None` filters it out; otherwise the
/// entry is updated in place with the stripped texts and a copy is returned.
pub fn clean_entry(entry: &mut GlossaryEntry) -> (r: Option<GlossaryEntry>)
    ensures
        cleaned(old(entry)@) == (match r {
            Some(e) => Some(e@),
            None => None::<TermModel>,
        }),
        r is Some ==> final(entry)@ == r->0@,
        r is None ==> final(entry)@ == old(entry)@,
{
    let sv = chars_of(entry.source.as_str());
    let tv = chars_of(entry.target.as_str());
    let s = string_of(trim_chars(sv.as_slice()).as_slice());
    let t = string_of(trim_chars(tv.as_slice()).as_slice());
    if s.as_str().unicode_len() == 0 || t.as_str().unicode_len() == 0 {
        return None;
    }
    if is_noise(s.as_str()) {
        return None;
    }
    entry.source = strip_full_wrapping_quotes(s.as_str());
    entry.target = strip_full_wrapping_quotes(t.as_str());
    Some(entry.duplicate())
}

} // verus!
