//! `.loca` binary localisation: the mapping between its resource (a table of
//! `contentuid -> text` records, each with a version) and translation entries.
//! The binary layout itself is read and written outside this library; here a
//! resource is the list of its records.

use vstd::prelude::*;
use crate::text::{chars_eq, chars_of, decimal, digit_char, is_ascii_digit_spec, u64_to_string};
use crate::types::{effective_text_of, EntryModel, TranslationEntry, TranslationStatus};

verus! {

/// One record of a LOCA resource.
#[derive(Debug, Clone, PartialEq, Eq)]
pub struct LocaText {
    /// The content UID.
    pub key: String,
    pub version: u16,
    pub text: String,
}

/// The plain-value model of a record.
pub struct LocaTextModel {
    pub key: Seq<char>,
    pub version: u16,
    pub text: Seq<char>,
}

impl View for LocaText {
    type V = LocaTextModel;

    open spec fn view(&self) -> LocaTextModel {
        LocaTextModel { key: self.key@, version: self.version, text: self.text@ }
    }
}

/// A LOCA resource: its records in file order.
#[derive(Debug, Clone, PartialEq, Eq)]
pub struct LocaResource {
    pub entries: Vec<LocaText>,
}

/// The models of a list of records.
pub open spec fn texts_model(v: Seq<LocaText>) -> Seq<LocaTextModel> {
    Seq::new(v.len(), |i: int| v[i]@)
}

/// The models of a list of entries.
pub open spec fn entries_model(v: Seq<TranslationEntry>) -> Seq<EntryModel> {
    Seq::new(v.len(), |i: int| v[i]@)
}

impl LocaResource {
    /// A resource holding `entries` in order.
    pub fn with_entries(entries: Vec<LocaText>) -> (r: Self)
        ensures
            r.entries@ == entries@,
    {
        LocaResource { entries }
    }

    /// The number of records.
    pub fn len(&self) -> (r: usize)
        ensures
            r == self.entries@.len(),
    {
        self.entries.len()
    }

    /// Whether the resource has no record.
    pub fn is_empty(&self) -> (r: bool)
        ensures
            r == (self.entries@.len() == 0),
    {
        self.entries.len() == 0
    }
}

// ─────────────────────────────────────────────────────────────
// Versions
// ─────────────────────────────────────────────────────────────

/// The value of a string of decimal digits.
pub open spec fn digits_value(s: Seq<char>) -> nat
    decreases s.len(),
{
    if s.len() == 0 {
        0
    } else {
        digits_value(s.drop_last()) * 10 + ((s.last() as nat) - ('0' as nat)) as nat
    }
}

/// Every character is an ASCII digit.
pub open spec fn all_digits(s: Seq<char>) -> bool {
    forall|i: int| 0 <= i < s.len() ==> #[trigger] is_ascii_digit_spec(s[i])
}

/// The digits of an unsigned number: the text without one leading `+`.
pub open spec fn unsigned_digits(s: Seq<char>) -> Seq<char> {
    if s.len() > 0 && s[0] == '+' {
        s.subrange(1, s.len() as int)
    } else {
        s
    }
}

/// What parsing the text as a `u16` gives: an optional `+`, then at least one
/// ASCII digit and nothing else, with a value that fits.
pub open spec fn parsed_u16(s: Seq<char>) -> Option<u16> {
    let d = unsigned_digits(s);
    if d.len() > 0 && all_digits(d) && digits_value(d) <= 0xffff {
        Some(digits_value(d) as u16)
    } else {
        None
    }
}

/// The version written for an entry: its version string parsed, or 1 (the
/// game's default) where it does not parse.
pub open spec fn version_of(s: Seq<char>) -> u16 {
    match parsed_u16(s) {
        Some(v) => v,
        None => 1,
    }
}

proof fn lemma_digits_value_prefix(s: Seq<char>, k: int)
    requires
        0 <= k <= s.len(),
        all_digits(s),
    ensures
        digits_value(s.subrange(0, k)) <= digits_value(s),
    decreases s.len() - k,
{
    if k < s.len() {
        let p = s.subrange(0, k + 1);
        assert(p.drop_last() =~= s.subrange(0, k));
        assert(is_ascii_digit_spec(s[k]));
        lemma_digits_value_prefix(s, k + 1);
        assert(s.subrange(0, s.len() as int) =~= s);
    } else {
        assert(s.subrange(0, k) =~= s);
    }
}

/// Parses a version string as `str::parse::<u16>` does.
pub fn parse_u16(s: &str) -> (r: Option<u16>)
    ensures
        r == parsed_u16(s@),
{
    let n = s.unicode_len();
    let mut start: usize = 0;
    if n > 0 && s.get_char(0) == '+' {
        start = 1;
    }
    let ghost d = unsigned_digits(s@);
    proof {
        assert(d =~= s@.subrange(start as int, n as int));
    }
    if start >= n {
        return None;
    }
    let mut acc: u32 = 0;
    let mut i: usize = start;
    while i < n
        invariant
            start <= i <= n,
            n == s@.len(),
            d =~= s@.subrange(start as int, n as int),
            d == unsigned_digits(s@),
            acc as nat == digits_value(d.subrange(0, i - start)),
            acc <= 0xffff,
            all_digits(d.subrange(0, i - start)),
        decreases n - i,
    {
        let c = s.get_char(i);
        proof {
            assert(d.subrange(0, i + 1 - start).drop_last() =~= d.subrange(0, i - start));
            assert(d[i - start] == c);
        }
        if !('0' <= c && c <= '9') {
            proof {
                assert(!is_ascii_digit_spec(d[i - start]));
                assert(!all_digits(d));
            }
            return None;
        }
        let digit = (c as u32) - ('0' as u32);
        let next = acc * 10 + digit;
        proof {
            assert(d.subrange(0, i + 1 - start).last() == c);
            assert(next as nat == digits_value(d.subrange(0, i + 1 - start)));
            assert forall|j: int| 0 <= j < i + 1 - start implies
                #[trigger] is_ascii_digit_spec(d.subrange(0, i + 1 - start)[j]) by {
                if j < i - start {
                    assert(d.subrange(0, i + 1 - start)[j] == d.subrange(0, i - start)[j]);
                }
            }
        }
        if next > 0xffff {
            proof {
                if all_digits(d) {
                    lemma_digits_value_prefix(d, i + 1 - start);
                    assert(digits_value(d) > 0xffff);
                }
            }
            return None;
        }
        acc = next;
        i = i + 1;
    }
    proof {
        assert(d.subrange(0, n - start) =~= d);
    }
    Some(acc as u16)
}

proof fn lemma_digit_char(d: nat)
    requires
        d < 10,
    ensures
        is_ascii_digit_spec(digit_char(d)),
        (digit_char(d) as nat) - ('0' as nat) == d,
{
}

/// The digits of `decimal(n)` are digits, its value is `n`, and it does not
/// begin with `+`.
proof fn lemma_decimal_value(n: nat)
    ensures
        all_digits(decimal(n)),
        digits_value(decimal(n)) == n,
        decimal(n).len() > 0,
        decimal(n)[0] != '+',
    decreases n,
{
    if n < 10 {
        lemma_digit_char(n);
        assert(decimal(n) =~= seq![digit_char(n)]);
        assert(decimal(n).drop_last() =~= Seq::<char>::empty());
        assert(digits_value(Seq::<char>::empty()) == 0);
        assert(digits_value(decimal(n)) == n);
    } else {
        lemma_decimal_value(n / 10);
        lemma_digit_char(n % 10);
        let s = decimal(n);
        assert(s.drop_last() =~= decimal(n / 10));
        assert(s.last() == digit_char(n % 10));
        assert(digits_value(s) == (n / 10) * 10 + n % 10);
        assert((n / 10) * 10 + n % 10 == n);
        assert forall|i: int| 0 <= i < s.len() implies #[trigger] is_ascii_digit_spec(s[i]) by {
            if i < s.len() - 1 {
                assert(s[i] == decimal(n / 10)[i]);
            }
        }
        assert(s[0] == decimal(n / 10)[0]);
    }
}

/// A version written as text by `resource_to_entries` parses back to itself.
pub proof fn lemma_version_text_roundtrip(v: u16)
    ensures
        version_of(decimal(v as nat)) == v,
{
    lemma_decimal_value(v as nat);
    assert(unsigned_digits(decimal(v as nat)) == decimal(v as nat));
}

// ─────────────────────────────────────────────────────────────
// Resource <-> entries
// ─────────────────────────────────────────────────────────────

/// The entry read from a record of the file `file_name`.
pub open spec fn entry_of_text(file_name: Seq<char>, t: LocaTextModel) -> EntryModel {
    EntryModel {
        id: file_name + "#"@ + t.key,
        source_file: file_name,
        source: t.text,
        target: Seq::empty(),
        contentuid: t.key,
        version: decimal(t.version as nat),
        status: TranslationStatus::Pending,
        error: None,
    }
}

/// The record written for an entry: its handle, its version (or 1), and the
/// text that is written back.
pub open spec fn text_of_entry(e: EntryModel) -> LocaTextModel {
    LocaTextModel {
        key: e.contentuid,
        version: version_of(e.version),
        text: effective_text_of(e),
    }
}

fn entry_from_text(file_name: &str, t: &LocaText) -> (r: TranslationEntry)
    ensures
        r@ == entry_of_text(file_name@, t@),
{
    let version = u64_to_string(t.version as u64);
    let r = TranslationEntry::new(file_name, t.key.as_str(), version.as_str(), t.text.as_str());
    proof {
        assert(r@.target =~= Seq::<char>::empty());
        assert((t.version as u64) as nat == t.version as nat);
    }
    r
}

/// The entries of a resource read from the file `file_name`, one per record
/// and in the same order.
pub fn resource_to_entries(resource: &LocaResource, file_name: &str) -> (r: Vec<TranslationEntry>)
    ensures
        r@.len() == resource.entries@.len(),
        forall|i: int| 0 <= i < r@.len() ==>
            #[trigger] r@[i]@ == entry_of_text(file_name@, resource.entries@[i]@),
{
    let mut out: Vec<TranslationEntry> = Vec::new();
    let mut i: usize = 0;
    while i < resource.entries.len()
        invariant
            i <= resource.entries@.len(),
            out@.len() == i,
            forall|j: int| 0 <= j < i ==>
                #[trigger] out@[j]@ == entry_of_text(file_name@, resource.entries@[j]@),
        decreases resource.entries@.len() - i,
    {
        let e = entry_from_text(file_name, &resource.entries[i]);
        out.push(e);
        i = i + 1;
    }
    out
}

/// The resource written for a list of entries: one record per entry, in the
/// same order, holding the text that is written back (the source where the
/// translation is blank or was rejected).
pub fn entries_to_resource(entries: &[TranslationEntry]) -> (r: LocaResource)
    ensures
        r.entries@.len() == entries@.len(),
        forall|i: int| 0 <= i < entries@.len() ==>
            #[trigger] r.entries@[i]@ == text_of_entry(entries@[i]@),
{
    let mut out: Vec<LocaText> = Vec::new();
    let mut i: usize = 0;
    while i < entries.len()
        invariant
            i <= entries@.len(),
            out@.len() == i,
            forall|j: int| 0 <= j < i ==> #[trigger] out@[j]@ == text_of_entry(entries@[j]@),
        decreases entries@.len() - i,
    {
        let e = &entries[i];
        let version = match parse_u16(e.version.as_str()) {
            Some(v) => v,
            None => 1,
        };
        let text = e.effective_text();
        out.push(LocaText { key: e.contentuid.clone(), version, text: String::from_str(text) });
        i = i + 1;
    }
    LocaResource { entries: out }
}

// ─────────────────────────────────────────────────────────────
// Keeping what is already on disk
// ─────────────────────────────────────────────────────────────

/// Some entry has the handle `key`.
pub open spec fn has_uid(entries: Seq<EntryModel>, key: Seq<char>) -> bool {
    exists|i: int| 0 <= i < entries.len() && #[trigger] entries[i].contentuid == key
}

/// The records of `existing` whose handle no entry has, as entries of no
/// file, in file order.
pub open spec fn kept_records(existing: Seq<LocaTextModel>, entries: Seq<EntryModel>) -> Seq<EntryModel>
    decreases existing.len(),
{
    if existing.len() == 0 {
        Seq::empty()
    } else {
        let prev = kept_records(existing.drop_last(), entries);
        if has_uid(entries, existing.last().key) {
            prev
        } else {
            prev.push(entry_of_text(Seq::empty(), existing.last()))
        }
    }
}

/// What is written back over an existing resource: the entries, then every
/// record of the existing resource whose handle none of them has (a rewrite
/// rebuilds the whole table, so a record left out would be lost).
pub open spec fn merged_entries(entries: Seq<EntryModel>, existing: Seq<LocaTextModel>) -> Seq<EntryModel> {
    entries + kept_records(existing, entries)
}

pub proof fn lemma_entries_model_push(v: Seq<TranslationEntry>, x: TranslationEntry)
    ensures
        entries_model(v.push(x)) =~= entries_model(v).push(x@),
{
    assert forall|j: int| 0 <= j < v.len() + 1 implies
        #[trigger] entries_model(v.push(x))[j] == entries_model(v).push(x@)[j] by {
        if j < v.len() {
            assert(v.push(x)[j] == v[j]);
        }
    }
}

fn has_uid_exec(entries: &[TranslationEntry], key: &str) -> (r: bool)
    ensures
        r == has_uid(entries_model(entries@), key@),
{
    let ghost m = entries_model(entries@);
    let k = chars_of(key);
    let mut i: usize = 0;
    while i < entries.len()
        invariant
            i <= entries@.len(),
            m == entries_model(entries@),
            k@ == key@,
            forall|j: int| 0 <= j < i ==> m[j].contentuid != key@,
        decreases entries@.len() - i,
    {
        let uid = chars_of(entries[i].contentuid.as_str());
        if chars_eq(uid.as_slice(), k.as_slice()) {
            proof {
                assert(m[i as int].contentuid == key@);
            }
            return true;
        }
        i = i + 1;
    }
    false
}

/// The entries to write over an existing resource: the given entries, then
/// the records on disk whose handle none of them has.
pub fn merge_with_existing(entries: &[TranslationEntry], existing: &LocaResource) -> (r: Vec<TranslationEntry>)
    ensures
        entries_model(r@) == merged_entries(entries_model(entries@), texts_model(existing.entries@)),
{
    let ghost em = entries_model(entries@);
    let ghost xm = texts_model(existing.entries@);
    let mut out: Vec<TranslationEntry> = Vec::new();
    let mut i: usize = 0;
    while i < entries.len()
        invariant
            i <= entries@.len(),
            em == entries_model(entries@),
            entries_model(out@) =~= em.subrange(0, i as int),
        decreases entries@.len() - i,
    {
        let ghost before = out@;
        let e = entries[i].duplicate();
        out.push(e);
        proof {
            lemma_entries_model_push(before, e);
            assert(em.subrange(0, i as int).push(em[i as int]) =~= em.subrange(0, i + 1));
        }
        i = i + 1;
    }
    let mut k: usize = 0;
    while k < existing.entries.len()
        invariant
            k <= existing.entries@.len(),
            em == entries_model(entries@),
            xm == texts_model(existing.entries@),
            entries_model(out@) =~= em + kept_records(xm.subrange(0, k as int), em),
        decreases existing.entries@.len() - k,
    {
        let t = &existing.entries[k];
        proof {
            assert(xm.subrange(0, k + 1).drop_last() =~= xm.subrange(0, k as int));
            assert(xm.subrange(0, k + 1).last() == t@);
        }
        if !has_uid_exec(entries, t.key.as_str()) {
            let ghost before = out@;
            let e = entry_from_text("", t);
            out.push(e);
            proof {
                lemma_entries_model_push(before, e);
                assert(""@ =~= Seq::<char>::empty()) by {
                    reveal_strlit("");
                }
                assert(entries_model(out@) =~= em + kept_records(xm.subrange(0, k + 1), em));
            }
        } else {
            proof {
                assert(entries_model(out@) =~= em + kept_records(xm.subrange(0, k + 1), em));
            }
        }
        k = k + 1;
    }
    proof {
        assert(xm.subrange(0, existing.entries@.len() as int) =~= xm);
    }
    out
}

// ─────────────────────────────────────────────────────────────
// Laws
// ─────────────────────────────────────────────────────────────

proof fn lemma_kept_has_every_missing_key(existing: Seq<LocaTextModel>, entries: Seq<EntryModel>, j: int)
    requires
        0 <= j < existing.len(),
        !has_uid(entries, existing[j].key),
    ensures
        exists|i: int| 0 <= i < kept_records(existing, entries).len()
            && #[trigger] kept_records(existing, entries)[i] == entry_of_text(Seq::empty(), existing[j]),
    decreases existing.len(),
{
    let prev = kept_records(existing.drop_last(), entries);
    if j < existing.len() - 1 {
        lemma_kept_has_every_missing_key(existing.drop_last(), entries, j);
        let i = choose|i: int| 0 <= i < prev.len()
            && #[trigger] prev[i] == entry_of_text(Seq::empty(), existing.drop_last()[j]);
        assert(kept_records(existing, entries)[i] == prev[i]);
    } else {
        let k = kept_records(existing, entries);
        assert(k[k.len() - 1] == entry_of_text(Seq::empty(), existing[j]));
    }
}

/// Writing over an existing resource loses no handle: every record on disk
/// has its handle among the entries written, and a record that no given entry
/// replaces is written back with its version and text unchanged.
pub proof fn law_write_keeps_existing_keys(entries: Seq<EntryModel>, existing: Seq<LocaTextModel>)
    ensures
        forall|j: int| 0 <= j < existing.len() ==>
            has_uid(merged_entries(entries, existing), #[trigger] existing[j].key),
        forall|j: int| 0 <= j < existing.len() && !has_uid(entries, #[trigger] existing[j].key) ==>
            exists|i: int| 0 <= i < merged_entries(entries, existing).len()
                && #[trigger] merged_entries(entries, existing)[i]
                    == entry_of_text(Seq::empty(), existing[j]),
{
    let m = merged_entries(entries, existing);
    assert forall|j: int| 0 <= j < existing.len() implies has_uid(m, #[trigger] existing[j].key) by {
        if has_uid(entries, existing[j].key) {
            let i = choose|i: int| 0 <= i < entries.len() && #[trigger] entries[i].contentuid == existing[j].key;
            assert(m[i] == entries[i]);
            assert(m[i].contentuid == existing[j].key);
        } else {
            lemma_kept_has_every_missing_key(existing, entries, j);
            let k = kept_records(existing, entries);
            let i = choose|i: int| 0 <= i < k.len()
                && #[trigger] k[i] == entry_of_text(Seq::empty(), existing[j]);
            assert(m[entries.len() + i] == k[i]);
            assert(m[entries.len() + i].contentuid == existing[j].key);
        }
    }
    assert forall|j: int| 0 <= j < existing.len() && !has_uid(entries, #[trigger] existing[j].key) implies
        exists|i: int| 0 <= i < m.len() && #[trigger] m[i] == entry_of_text(Seq::empty(), existing[j]) by {
        lemma_kept_has_every_missing_key(existing, entries, j);
        let k = kept_records(existing, entries);
        let i = choose|i: int| 0 <= i < k.len()
            && #[trigger] k[i] == entry_of_text(Seq::empty(), existing[j]);
        assert(m[entries.len() + i] == k[i]);
    }
}

/// A resource that is read and written back without translating anything is
/// unchanged: same handles, versions and texts, in the same order.
pub proof fn law_untouched_resource_roundtrip(file_name: Seq<char>, t: LocaTextModel)
    ensures
        text_of_entry(entry_of_text(file_name, t)) == t,
{
    lemma_version_text_roundtrip(t.version);
    let e = entry_of_text(file_name, t);
    assert(!crate::types::writable_target(e)) by {
        assert(e.target.len() == 0);
        assert(crate::text::is_blank(e.target));
    }
}

} // verus!
