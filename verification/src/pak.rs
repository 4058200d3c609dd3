//! Decisions around PAK / ZIP archives: what kind of file an archive entry
//! is, which archive paths are safe to write, which `.pak` of a zip is the
//! mod, and the limits that stop a zip bomb while it is being extracted.
//! Reading and writing the archives happens around this module.

use vstd::prelude::*;
use crate::error::{error_message, AppError};
use crate::text::{
    char_find, char_find_exec, chars_eq_str, chars_of, contains_seq, copy_range, decimal,
    ends_with, eq_ignore_ascii_case, lex_less, lemma_char_find_range, replace_all, seqs_of,
    split_on, starts_with, string_of, unicode_lowercase,
};
use crate::types::{PakFile, PakFileKind};
use crate::config::{
    join_path, joined, joined_parts, lemma_joined_prefix, lemma_not_verbatim_extends, may_turn_verbatim,
    relative_name, verbatim_path,
};

verus! {

/// Directory of the unpacked file tree inside a work directory.
pub const UNPACKED_DIR: &'static str = "unpacked";

/// File in a work directory that records the archive's metadata.
pub const META_FILE: &'static str = "pak_meta.json";

// ─────────────────────────────────────────────────────────────
// Kinds and names
// ─────────────────────────────────────────────────────────────

/// The kind of an archive entry, decided on its lowercased path, most
/// translatable first.
pub open spec fn kind_of_path(name: Seq<char>) -> PakFileKind {
    let lower = unicode_lowercase(name);
    if ends_with(lower, ".xml"@) && contains_seq(lower, "localization"@) {
        PakFileKind::LocalizationXml
    } else if ends_with(lower, ".loca"@) {
        PakFileKind::LocalizationLoca
    } else if ends_with(lower, ".lsx"@) {
        PakFileKind::MetadataLsx
    } else if ends_with(lower, ".lua"@) {
        PakFileKind::ScriptLua
    } else if ends_with(lower, ".txt"@) {
        PakFileKind::DataTxt
    } else {
        PakFileKind::Other
    }
}

/// Classifies an archive entry by its path (see [`kind_of_path`]).
pub fn classify_file(name: &str) -> (r: PakFileKind)
    ensures
        r == kind_of_path(name@),
{
    let lower = crate::text::to_lowercase(name);
    let l = chars_of(lower.as_str());
    let xml = chars_of(".xml");
    let loc = chars_of("localization");
    if crate::text::ends_with_chars(l.as_slice(), xml.as_slice()) && crate::text::contains_chars(l.as_slice(), loc.as_slice()) {
        PakFileKind::LocalizationXml
    } else if crate::text::ends_with_chars(l.as_slice(), chars_of(".loca").as_slice()) {
        PakFileKind::LocalizationLoca
    } else if crate::text::ends_with_chars(l.as_slice(), chars_of(".lsx").as_slice()) {
        PakFileKind::MetadataLsx
    } else if crate::text::ends_with_chars(l.as_slice(), chars_of(".lua").as_slice()) {
        PakFileKind::ScriptLua
    } else if crate::text::ends_with_chars(l.as_slice(), chars_of(".txt").as_slice()) {
        PakFileKind::DataTxt
    } else {
        PakFileKind::Other
    }
}

/// An archive path with `/` as its only separator.
pub open spec fn normalized_name(name: Seq<char>) -> Seq<char> {
    replace_all(name, seq!['\\'], seq!['/'])
}

/// Archive paths use `/` (archives packed on Windows may use `\`).
pub fn normalize_entry_name(name: &str) -> (r: String)
    ensures
        r@ == normalized_name(name@),
{
    let v = chars_of(name);
    let mut bs: Vec<char> = Vec::new();
    bs.push('\\');
    let mut sl: Vec<char> = Vec::new();
    sl.push('/');
    assert(bs@ =~= seq!['\\']);
    assert(sl@ =~= seq!['/']);
    string_of(crate::text::replace_chars(v.as_slice(), bs.as_slice(), sl.as_slice()).as_slice())
}

// ─────────────────────────────────────────────────────────────
// Safe output paths
// ─────────────────────────────────────────────────────────────

/// `c` occurs in `s`.
pub open spec fn has_char(s: Seq<char>, c: char) -> bool {
    exists|i: int| 0 <= i < s.len() && s[i] == c
}

fn has_char_exec(s: &[char], c: char) -> (r: bool)
    ensures
        r == has_char(s@, c),
{
    let mut i: usize = 0;
    while i < s.len()
        invariant
            i <= s@.len(),
            forall|k: int| 0 <= k < i ==> s@[k] != c,
        decreases s@.len() - i,
    {
        if s[i] == c {
            return true;
        }
        i = i + 1;
    }
    false
}

/// A path part's name before its first `.`.
pub open spec fn stem_of(part: Seq<char>) -> Seq<char> {
    match char_find(part, '.', 0) {
        Some(k) => part.take(k),
        None => part,
    }
}

/// Windows device names, which cannot be file names there.
pub open spec fn reserved_name(s: Seq<char>) -> bool {
    ||| eq_ignore_ascii_case(s, "CON"@) || eq_ignore_ascii_case(s, "PRN"@) || eq_ignore_ascii_case(s, "AUX"@)
    ||| eq_ignore_ascii_case(s, "NUL"@) || eq_ignore_ascii_case(s, "COM1"@) || eq_ignore_ascii_case(s, "COM2"@)
    ||| eq_ignore_ascii_case(s, "COM3"@) || eq_ignore_ascii_case(s, "COM4"@) || eq_ignore_ascii_case(s, "COM5"@)
    ||| eq_ignore_ascii_case(s, "COM6"@) || eq_ignore_ascii_case(s, "COM7"@) || eq_ignore_ascii_case(s, "COM8"@)
    ||| eq_ignore_ascii_case(s, "COM9"@) || eq_ignore_ascii_case(s, "LPT1"@) || eq_ignore_ascii_case(s, "LPT2"@)
    ||| eq_ignore_ascii_case(s, "LPT3"@) || eq_ignore_ascii_case(s, "LPT4"@) || eq_ignore_ascii_case(s, "LPT5"@)
    ||| eq_ignore_ascii_case(s, "LPT6"@) || eq_ignore_ascii_case(s, "LPT7"@) || eq_ignore_ascii_case(s, "LPT8"@)
    ||| eq_ignore_ascii_case(s, "LPT9"@)
}

fn reserved_name_exec(s: &[char]) -> (r: bool)
    ensures
        r == reserved_name(s@),
{
    crate::text::eq_ignore_ascii_case_str(s, "CON") || crate::text::eq_ignore_ascii_case_str(s, "PRN")
        || crate::text::eq_ignore_ascii_case_str(s, "AUX") || crate::text::eq_ignore_ascii_case_str(s, "NUL")
        || crate::text::eq_ignore_ascii_case_str(s, "COM1") || crate::text::eq_ignore_ascii_case_str(s, "COM2")
        || crate::text::eq_ignore_ascii_case_str(s, "COM3") || crate::text::eq_ignore_ascii_case_str(s, "COM4")
        || crate::text::eq_ignore_ascii_case_str(s, "COM5") || crate::text::eq_ignore_ascii_case_str(s, "COM6")
        || crate::text::eq_ignore_ascii_case_str(s, "COM7") || crate::text::eq_ignore_ascii_case_str(s, "COM8")
        || crate::text::eq_ignore_ascii_case_str(s, "COM9") || crate::text::eq_ignore_ascii_case_str(s, "LPT1")
        || crate::text::eq_ignore_ascii_case_str(s, "LPT2") || crate::text::eq_ignore_ascii_case_str(s, "LPT3")
        || crate::text::eq_ignore_ascii_case_str(s, "LPT4") || crate::text::eq_ignore_ascii_case_str(s, "LPT5")
        || crate::text::eq_ignore_ascii_case_str(s, "LPT6") || crate::text::eq_ignore_ascii_case_str(s, "LPT7")
        || crate::text::eq_ignore_ascii_case_str(s, "LPT8") || crate::text::eq_ignore_ascii_case_str(s, "LPT9")
}


/// Whether a path part is a Windows device name (`NUL.txt` is one too:
/// only the name before the first `.` counts).
pub open spec fn reserved_component(part: Seq<char>) -> bool {
    reserved_name(stem_of(part))
}

/// A path part whose name before the first `.` is, ignoring ASCII case, a
/// Windows device name (CON, PRN, AUX, NUL, COM1 to COM9, LPT1 to LPT9) is
/// refused as an archive path part, and no other name counts as a device.
pub proof fn law_device_names_are_refused(part: Seq<char>)
    ensures
        (eq_ignore_ascii_case(stem_of(part), "CON"@) || eq_ignore_ascii_case(stem_of(part), "PRN"@)
            || eq_ignore_ascii_case(stem_of(part), "AUX"@)
            || eq_ignore_ascii_case(stem_of(part), "NUL"@)
            || eq_ignore_ascii_case(stem_of(part), "COM1"@)
            || eq_ignore_ascii_case(stem_of(part), "COM2"@)
            || eq_ignore_ascii_case(stem_of(part), "COM3"@)
            || eq_ignore_ascii_case(stem_of(part), "COM4"@)
            || eq_ignore_ascii_case(stem_of(part), "COM5"@)
            || eq_ignore_ascii_case(stem_of(part), "COM6"@)
            || eq_ignore_ascii_case(stem_of(part), "COM7"@)
            || eq_ignore_ascii_case(stem_of(part), "COM8"@)
            || eq_ignore_ascii_case(stem_of(part), "COM9"@)
            || eq_ignore_ascii_case(stem_of(part), "LPT1"@)
            || eq_ignore_ascii_case(stem_of(part), "LPT2"@)
            || eq_ignore_ascii_case(stem_of(part), "LPT3"@)
            || eq_ignore_ascii_case(stem_of(part), "LPT4"@)
            || eq_ignore_ascii_case(stem_of(part), "LPT5"@)
            || eq_ignore_ascii_case(stem_of(part), "LPT6"@)
            || eq_ignore_ascii_case(stem_of(part), "LPT7"@)
            || eq_ignore_ascii_case(stem_of(part), "LPT8"@)
            || eq_ignore_ascii_case(stem_of(part), "LPT9"@)) ==> reserved_component(part) && part_problem(part) is Some,
        reserved_component(part) ==> (eq_ignore_ascii_case(stem_of(part), "CON"@) || eq_ignore_ascii_case(stem_of(part), "PRN"@)
            || eq_ignore_ascii_case(stem_of(part), "AUX"@)
            || eq_ignore_ascii_case(stem_of(part), "NUL"@)
            || eq_ignore_ascii_case(stem_of(part), "COM1"@)
            || eq_ignore_ascii_case(stem_of(part), "COM2"@)
            || eq_ignore_ascii_case(stem_of(part), "COM3"@)
            || eq_ignore_ascii_case(stem_of(part), "COM4"@)
            || eq_ignore_ascii_case(stem_of(part), "COM5"@)
            || eq_ignore_ascii_case(stem_of(part), "COM6"@)
            || eq_ignore_ascii_case(stem_of(part), "COM7"@)
            || eq_ignore_ascii_case(stem_of(part), "COM8"@)
            || eq_ignore_ascii_case(stem_of(part), "COM9"@)
            || eq_ignore_ascii_case(stem_of(part), "LPT1"@)
            || eq_ignore_ascii_case(stem_of(part), "LPT2"@)
            || eq_ignore_ascii_case(stem_of(part), "LPT3"@)
            || eq_ignore_ascii_case(stem_of(part), "LPT4"@)
            || eq_ignore_ascii_case(stem_of(part), "LPT5"@)
            || eq_ignore_ascii_case(stem_of(part), "LPT6"@)
            || eq_ignore_ascii_case(stem_of(part), "LPT7"@)
            || eq_ignore_ascii_case(stem_of(part), "LPT8"@)
            || eq_ignore_ascii_case(stem_of(part), "LPT9"@)),
{
}

/// Whether a path part is a Windows device name (see [`reserved_component`]).
pub fn is_reserved_windows_component(part: &str) -> (r: bool)
    ensures
        r == reserved_component(part@),
{
    let v = chars_of(part);
    proof {
        lemma_char_find_range(v@, '.', 0);
    }
    match char_find_exec(v.as_slice(), '.', 0) {
        Some(k) => {
            let stem = copy_range(v.as_slice(), 0, k);
            assert(stem@ =~= v@.take(k as int));
            reserved_name_exec(stem.as_slice())
        },
        None => reserved_name_exec(v.as_slice()),
    }
}

/// Parts that path parsing drops: empty ones (repeated `/`) and `.`.
pub open spec fn skipped_part(part: Seq<char>) -> bool {
    part.len() == 0 || part == "."@
}

/// What is wrong with a path part, as the start of the error message:
/// `..` (leaving the root), a `:` (an NTFS stream), a NUL, a Windows
/// device name, or a trailing `.` or space (which Windows strips, so that
/// `.. ` becomes `..`).
pub open spec fn part_problem(part: Seq<char>) -> Option<Seq<char>> {
    if part == ".."@ {
        Some("非法归档路径: "@)
    } else if has_char(part, ':') {
        Some("非法归档路径（含冒号）: "@)
    } else if has_char(part, '\0') {
        Some("非法归档路径（含 NUL 字节）: "@)
    } else if reserved_component(part) {
        Some("非法归档路径（Windows 保留设备名）: "@)
    } else if part.len() > 0 && (part.last() == '.' || part.last() == ' ') {
        Some("非法归档路径（片段以点或空格结尾，Windows 上会被规整掉）: "@)
    } else {
        None
    }
}

/// The problem of the first bad part.
pub open spec fn parts_problem(parts: Seq<Seq<char>>) -> Option<Seq<char>>
    decreases parts.len(),
{
    if parts.len() == 0 {
        None
    } else {
        match parts_problem(parts.drop_last()) {
            Some(m) => Some(m),
            None => if skipped_part(parts.last()) {
                None
            } else {
                part_problem(parts.last())
            },
        }
    }
}

/// The parts that are kept, in order.
pub open spec fn kept_parts(parts: Seq<Seq<char>>) -> Seq<Seq<char>>
    decreases parts.len(),
{
    if parts.len() == 0 {
        Seq::empty()
    } else if skipped_part(parts.last()) {
        kept_parts(parts.drop_last())
    } else {
        kept_parts(parts.drop_last()).push(parts.last())
    }
}

/// The problem of an archive path: an absolute path, or its first bad part.
pub open spec fn path_problem(name: Seq<char>) -> Option<Seq<char>> {
    let n = normalized_name(name);
    if n.len() > 0 && n[0] == '/' {
        Some("非法归档路径: "@)
    } else {
        parts_problem(split_on(n, '/'))
    }
}

proof fn lemma_parts_problem_extend(ps: Seq<Seq<char>>, k: int)
    requires
        0 <= k <= ps.len(),
        parts_problem(ps.take(k)) is Some,
    ensures
        parts_problem(ps) == parts_problem(ps.take(k)),
    decreases ps.len(),
{
    if k == ps.len() {
        assert(ps.take(k) =~= ps);
    } else {
        assert(ps.drop_last().take(k) =~= ps.take(k));
        lemma_parts_problem_extend(ps.drop_last(), k);
    }
}

fn part_problem_exec(part: &[char]) -> (r: Option<&'static str>)
    ensures
        match part_problem(part@) {
            Some(m) => r matches Some(x) && x@ == m,
            None => r is None,
        },
{
    if chars_eq_str(part, "..") {
        Some("非法归档路径: ")
    } else if has_char_exec(part, ':') {
        Some("非法归档路径（含冒号）: ")
    } else if has_char_exec(part, '\0') {
        Some("非法归档路径（含 NUL 字节）: ")
    } else if is_reserved_windows_component(string_of(part).as_str()) {
        Some("非法归档路径（Windows 保留设备名）: ")
    } else if part.len() > 0 && (part[part.len() - 1] == '.' || part[part.len() - 1] == ' ') {
        Some("非法归档路径（片段以点或空格结尾，Windows 上会被规整掉）: ")
    } else {
        None
    }
}

/// The parts of an archive path that may be written under a root: the
/// `/`-separated parts of the normalized path without empty and `.` parts,
/// or a `Pak` error naming the path when [`path_problem`] finds one.
pub fn safe_parts(file_name: &str) -> (r: Result<Vec<String>, AppError>)
    ensures
        match path_problem(file_name@) {
            Some(m) => r matches Err(AppError::Pak(msg)) && msg@ == m + file_name@,
            None => r matches Ok(v) && v@.map_values(|p: String| p@) == kept_parts(split_on(normalized_name(file_name@), '/')),
        },
{
    let n = normalize_entry_name(file_name);
    let nv = chars_of(n.as_str());
    if nv.len() > 0 && nv[0] == '/' {
        let mut msg = String::from_str("非法归档路径: ");
        msg.append(file_name);
        return Err(AppError::Pak(msg));
    }
    let parts = crate::text::split_chars(nv.as_slice(), '/');
    let ghost ps = seqs_of(parts@);
    let mut out: Vec<String> = Vec::new();
    let mut i: usize = 0;
    assert(ps.take(0) =~= Seq::<Seq<char>>::empty());
    assert(out@.map_values(|p: String| p@) =~= Seq::<Seq<char>>::empty());
    while i < parts.len()
        invariant
            i <= parts@.len(),
            ps == seqs_of(parts@),
            ps == split_on(normalized_name(file_name@), '/'),
            !(normalized_name(file_name@).len() > 0 && normalized_name(file_name@)[0] == '/'),
            parts_problem(ps.take(i as int)) is None,
            out@.map_values(|p: String| p@) == kept_parts(ps.take(i as int)),
        decreases parts@.len() - i,
    {
        assert(ps.take(i + 1).drop_last() =~= ps.take(i as int));
        assert(ps.take(i + 1).last() == parts@[i as int]@);
        let p = &parts[i];
        let skip = p.len() == 0 || chars_eq_str(p.as_slice(), ".");
        if !skip {
            match part_problem_exec(p.as_slice()) {
                Some(prefix) => {
                    proof {
                        lemma_parts_problem_extend(ps, i + 1);
                    }
                    let mut msg = String::from_str(prefix);
                    msg.append(file_name);
                    return Err(AppError::Pak(msg));
                },
                None => {
                    let ghost before = out@.map_values(|p: String| p@);
                    out.push(string_of(p.as_slice()));
                    assert(out@.map_values(|p: String| p@) =~= before.push(ps[i as int]));
                },
            }
        }
        i = i + 1;
    }
    assert(ps.take(ps.len() as int) =~= ps);
    Ok(out)
}


proof fn lemma_char_find_first(s: Seq<char>, c: char, k: int)
    requires
        0 <= k,
    ensures
        match char_find(s, c, k) {
            Some(j) => forall|i: int| k <= i < j ==> s[i] != c,
            None => forall|i: int| k <= i < s.len() ==> s[i] != c,
        },
    decreases s.len() - k,
{
    if k < s.len() && s[k] != c {
        lemma_char_find_first(s, c, k + 1);
    }
}

/// The parts of `split_on(s, c)` never hold `c`, and hold no character
/// that `s` does not.
proof fn lemma_split_parts_chars(s: Seq<char>, c: char, d: char)
    ensures
        forall|j: int, k: int| 0 <= j < split_on(s, c).len() && 0 <= k < split_on(s, c)[j].len()
            ==> #[trigger] split_on(s, c)[j][k] != c && (split_on(s, c)[j][k] == d ==> has_char(s, d)),
    decreases s.len(),
{
    lemma_char_find_range(s, c, 0);
    lemma_char_find_first(s, c, 0);
    match char_find(s, c, 0) {
        None => {
            assert forall|j: int, k: int| 0 <= j < split_on(s, c).len() && 0 <= k < split_on(s, c)[j].len()
                implies #[trigger] split_on(s, c)[j][k] != c && (split_on(s, c)[j][k] == d ==> has_char(s, d)) by {
                assert(split_on(s, c)[j] == s);
            }
        },
        Some(m) => {
            let rest = s.skip(m + 1);
            lemma_split_parts_chars(rest, c, d);
            let ps = split_on(s, c);
            assert(ps == seq![s.take(m)] + split_on(rest, c));
            assert forall|j: int, k: int| 0 <= j < ps.len() && 0 <= k < ps[j].len()
                implies #[trigger] ps[j][k] != c && (ps[j][k] == d ==> has_char(s, d)) by {
                if j == 0 {
                    assert(ps[0] == s.take(m));
                    assert(ps[0][k] == s[k]);
                } else {
                    assert(ps[j] == split_on(rest, c)[j - 1]);
                    if ps[j][k] == d {
                        let w = choose|w: int| 0 <= w < rest.len() && rest[w] == d;
                        assert(s[m + 1 + w] == d);
                    }
                }
            }
        },
    }
}

/// `replace_all` of one character by another leaves none of the first.
proof fn lemma_replace_removes_char(s: Seq<char>, a: char, b: char)
    requires
        a != b,
    ensures
        !has_char(replace_all(s, seq![a], seq![b]), a),
    decreases s.len(),
{
    if s.len() > 0 {
        lemma_replace_removes_char(s.skip(1), a, b);
        let rest = replace_all(s.skip(1), seq![a], seq![b]);
        let out = replace_all(s, seq![a], seq![b]);
        if starts_with(s, seq![a]) {
            assert(out == seq![b] + rest);
        } else {
            if s[0] == a {
                assert(s.take(1) =~= seq![a]);
            }
            assert(out == seq![s[0]] + rest);
        }
        if has_char(out, a) {
            let w = choose|w: int| 0 <= w < out.len() && out[w] == a;
            if w > 0 {
                assert(rest[w - 1] == a);
            }
        }
    }
}

/// The parts that are kept from parts without a problem, none of which
/// holds `/` or `\`, are all relative names.
proof fn lemma_kept_parts_relative(ps: Seq<Seq<char>>)
    requires
        parts_problem(ps) is None,
        forall|j: int, k: int| 0 <= j < ps.len() && 0 <= k < ps[j].len() ==> #[trigger] ps[j][k] != '/' && ps[j][k] != '\\',
    ensures
        forall|i: int| 0 <= i < kept_parts(ps).len() ==> relative_name(#[trigger] kept_parts(ps)[i]),
    decreases ps.len(),
{
    if ps.len() > 0 {
        let init = ps.drop_last();
        assert forall|j: int, k: int| 0 <= j < init.len() && 0 <= k < init[j].len() implies #[trigger] init[j][k] != '/' && init[j][k] != '\\' by {
            assert(init[j] == ps[j]);
        }
        lemma_kept_parts_relative(init);
        if !skipped_part(ps.last()) {
            let last = ps.last();
            assert(part_problem(last) is None);
            assert(!has_char(last, ':'));
            assert forall|k: int| 0 <= k < last.len() implies #[trigger] last[k] != ':' by {
                if last[k] == ':' {
                    assert(has_char(last, ':'));
                }
            }
            if last.len() > 0 {
                assert(last[0] == ps[ps.len() - 1][0]);
            }
            assert(relative_name(last));
            let kp = kept_parts(ps);
            assert(kp == kept_parts(init).push(last));
            assert forall|i: int| 0 <= i < kp.len() implies relative_name(#[trigger] kp[i]) by {
                if i < kept_parts(init).len() {
                    assert(kp[i] == kept_parts(init)[i]);
                }
            }
        }
    }
}

/// Every part that [`safe_parts`] keeps is a relative name.
proof fn lemma_safe_parts_relative(file_name: Seq<char>)
    requires
        path_problem(file_name) is None,
    ensures
        forall|i: int| 0 <= i < kept_parts(split_on(normalized_name(file_name), '/')).len()
            ==> relative_name(#[trigger] kept_parts(split_on(normalized_name(file_name), '/'))[i]),
{
    let n = normalized_name(file_name);
    let ps = split_on(n, '/');
    lemma_replace_removes_char(file_name, '\\', '/');
    lemma_split_parts_chars(n, '/', '\\');
    lemma_kept_parts_relative(ps);
}

proof fn lemma_starts_with_trans(a: Seq<char>, b: Seq<char>, c: Seq<char>)
    requires
        starts_with(a, b),
        starts_with(b, c),
    ensures
        starts_with(a, c),
{
    assert(a.take(c.len() as int) =~= b.take(c.len() as int));
}

/// Where an archive path is written under `root`: the root joined with the
/// parts of [`safe_parts`] in order, or the same error. (The separator
/// `Path::join` puts between them is the platform's; under a verbatim root
/// `Path::join` normalizes the path, and the result is not stated.)
pub fn safe_output_path(root: &str, file_name: &str) -> (r: Result<String, AppError>)
    ensures
        match path_problem(file_name@) {
            Some(m) => r matches Err(AppError::Pak(msg)) && msg@ == m + file_name@,
            None => r matches Ok(p) && (!may_turn_verbatim(root@) ==> starts_with(p@, root@)
                && joined_parts(p@, root@, kept_parts(split_on(normalized_name(file_name@), '/')))),
        },
{
    let parts = match safe_parts(file_name) {
        Ok(parts) => parts,
        Err(e) => return Err(e),
    };
    let ghost ps = parts@.map_values(|p: String| p@);
    proof {
        lemma_safe_parts_relative(file_name@);
        assert forall|i: int| 0 <= i < parts@.len() implies relative_name(#[trigger] parts@[i]@) by {
            assert(ps[i] == parts@[i]@);
        }
    }
    let ghost stable = !may_turn_verbatim(root@);
    let mut out = String::from_str(root);
    assert(ps.take(0) =~= Seq::<Seq<char>>::empty());
    assert(out@.take(root@.len() as int) =~= root@);
    let mut i: usize = 0;
    while i < parts.len()
        invariant
            i <= parts@.len(),
            ps == parts@.map_values(|p: String| p@),
            stable == !may_turn_verbatim(root@),
            forall|k: int| 0 <= k < parts@.len() ==> relative_name(#[trigger] parts@[k]@),
            stable ==> starts_with(out@, root@) && joined_parts(out@, root@, ps.take(i as int)),
        decreases parts@.len() - i,
    {
        proof {
            if stable {
                lemma_not_verbatim_extends(out@, root@);
            }
        }
        let next = join_path(out.as_str(), parts[i].as_str());
        proof {
            if stable {
                lemma_joined_prefix(next@, out@, parts@[i as int]@);
                lemma_starts_with_trans(next@, out@, root@);
                let t = ps.take(i + 1);
                assert(t.drop_last() =~= ps.take(i as int));
                assert(t.last() == parts@[i as int]@);
                assert(joined(next@, out@, t.last()));
                assert(joined_parts(next@, root@, t));
            }
        }
        out = next;
        i = i + 1;
    }
    assert(ps.take(parts@.len() as int) =~= ps);
    Ok(out)
}

/// The unpacked tree of a work directory: `work_dir` joined with
/// [`UNPACKED_DIR`].
pub fn unpacked_dir(work_dir: &str) -> (r: String)
    ensures
        !verbatim_path(work_dir@) ==> joined(r@, work_dir@, UNPACKED_DIR@),
{
    proof {
        reveal_strlit("unpacked");
    }
    join_path(work_dir, UNPACKED_DIR)
}

/// Where an archive entry lies on disk: its normalized name joined under
/// the unpacked tree. A name with a root or a drive takes the place of the
/// tree, as `Path::join` has it, and is not stated; nor is the result
/// under a verbatim work directory.
pub fn resolve_disk_path(work_dir: &str, file_name: &str) -> (r: String)
    ensures
        relative_name(normalized_name(file_name@)) && !may_turn_verbatim(work_dir@)
            ==> joined_parts(r@, work_dir@, seq![UNPACKED_DIR@, normalized_name(file_name@)]),
{
    let dir = unpacked_dir(work_dir);
    let name = normalize_entry_name(file_name);
    proof {
        if !may_turn_verbatim(work_dir@) {
            lemma_joined_prefix(dir@, work_dir@, UNPACKED_DIR@);
            lemma_not_verbatim_extends(dir@, work_dir@);
        }
    }
    let r = join_path(dir.as_str(), name.as_str());
    proof {
        if relative_name(name@) && !may_turn_verbatim(work_dir@) {
            let ps = seq![UNPACKED_DIR@, name@];
            assert(ps.drop_last() =~= seq![UNPACKED_DIR@]);
            assert(seq![UNPACKED_DIR@].drop_last() =~= Seq::<Seq<char>>::empty());
            assert(joined_parts(work_dir@, work_dir@, Seq::<Seq<char>>::empty()));
            assert(joined(dir@, work_dir@, seq![UNPACKED_DIR@].last()));
            assert(joined_parts(dir@, work_dir@, seq![UNPACKED_DIR@]));
            assert(joined(r@, dir@, ps.last()));
        }
    }
    r
}

// ─────────────────────────────────────────────────────────────
// File names and extensions
// ─────────────────────────────────────────────────────────────

/// The last name among path parts: trailing empty and `.` parts are
/// skipped, and a trailing `..` names nothing.
pub open spec fn last_name(parts: Seq<Seq<char>>) -> Option<Seq<char>>
    decreases parts.len(),
{
    if parts.len() == 0 {
        None
    } else {
        let p = parts.last();
        if skipped_part(p) {
            last_name(parts.drop_last())
        } else if p == ".."@ {
            None
        } else {
            Some(p)
        }
    }
}

/// `Path::file_name` of a path with Windows separators (`/` and `\`): the
/// final part, ignoring trailing separators and `.`; none for a path that
/// ends in `..` or has no named part.
pub open spec fn file_name_of(path: Seq<char>) -> Option<Seq<char>> {
    last_name(split_on(normalized_name(path), '/'))
}

/// Position of the last `.` in `s` before `k`.
pub open spec fn last_dot_before(s: Seq<char>, k: int) -> Option<int>
    decreases k,
{
    if k <= 0 || k > s.len() {
        None
    } else if s[k - 1] == '.' {
        Some(k - 1)
    } else {
        last_dot_before(s, k - 1)
    }
}

/// The extension of a file name, as `Path::extension` documents it: the
/// part after the last `.`, unless there is no `.` or the only one starts
/// the name; `..` has none.
pub open spec fn extension_of(name: Seq<char>) -> Option<Seq<char>> {
    if name == ".."@ {
        None
    } else {
        match last_dot_before(name, name.len() as int) {
            None => None,
            Some(k) => if k == 0 {
                None
            } else {
                Some(name.skip(k + 1))
            },
        }
    }
}

fn file_name_exec(path: &str) -> (r: Option<Vec<char>>)
    ensures
        match file_name_of(path@) {
            Some(n) => r matches Some(x) && x@ == n,
            None => r is None,
        },
{
    let n = normalize_entry_name(path);
    let v = chars_of(n.as_str());
    let parts = crate::text::split_chars(v.as_slice(), '/');
    let ghost ps = seqs_of(parts@);
    let mut k = parts.len();
    assert(ps.take(k as int) =~= ps);
    while k > 0 && (parts[k - 1].len() == 0 || chars_eq_str(parts[k - 1].as_slice(), "."))
        invariant
            k <= parts@.len(),
            ps == seqs_of(parts@),
            last_name(ps) == last_name(ps.take(k as int)),
        decreases k,
    {
        assert(ps[k - 1] == parts@[k - 1]@);
        assert(ps.take(k as int).drop_last() =~= ps.take(k - 1));
        assert(ps.take(k as int).last() == ps[k - 1]);
        k = k - 1;
    }
    if k == 0 {
        return None;
    }
    assert(ps[k - 1] == parts@[k - 1]@);
    assert(ps.take(k as int).last() == ps[k - 1]);
    if chars_eq_str(parts[k - 1].as_slice(), "..") {
        return None;
    }
    Some(crate::text::copy_all(&parts[k - 1]))
}

fn extension_exec(name: &[char]) -> (r: Option<Vec<char>>)
    ensures
        match extension_of(name@) {
            Some(e) => r matches Some(x) && x@ == e,
            None => r is None,
        },
{
    if chars_eq_str(name, "..") {
        return None;
    }
    let n = name.len();
    let mut k = n;
    while k > 0 && name[k - 1] != '.'
        invariant
            k <= n,
            n == name@.len(),
            last_dot_before(name@, n as int) == last_dot_before(name@, k as int),
        decreases k,
    {
        k = k - 1;
    }
    if k <= 1 {
        return None;
    }
    let e = copy_range(name, k, n);
    assert(e@ =~= name@.skip(k as int));
    Some(e)
}

/// The path's file name has the extension `ext`, ignoring ASCII case.
pub open spec fn has_extension(path: Seq<char>, ext: Seq<char>) -> bool {
    file_name_of(path) matches Some(n) && extension_of(n) matches Some(e) && eq_ignore_ascii_case(e, ext)
}

/// Whether the path's extension is `ext` up to ASCII case.
pub fn path_has_extension(path: &str, ext: &str) -> (r: bool)
    ensures
        r == has_extension(path@, ext@),
{
    match file_name_exec(path) {
        Some(name) => match extension_exec(name.as_slice()) {
            Some(e) => crate::text::eq_ignore_ascii_case_str(e.as_slice(), ext),
            None => false,
        },
        None => false,
    }
}

/// Work directories created for opened archives are named
/// `bg3-translate-…`.
pub fn is_work_dir(path: &str) -> (r: bool)
    ensures
        r == (file_name_of(path@) matches Some(n) && starts_with(n, "bg3-translate-"@)),
{
    match file_name_exec(path) {
        Some(name) => crate::text::starts_with_chars(name.as_slice(), chars_of("bg3-translate-").as_slice()),
        None => false,
    }
}

// ─────────────────────────────────────────────────────────────
// Choosing the mod's `.pak` in a zip
// ─────────────────────────────────────────────────────────────

// ─────────────────────────────────────────────────────────────
// Copies of one archive path
// ─────────────────────────────────────────────────────────────

/// `i` filed under the path `k` among groups kept in ascending path order:
/// appended to the group of `k`, or a new group at its place in the order.
pub open spec fn group_insert(gs: Seq<(Seq<char>, Seq<int>)>, k: Seq<char>, i: int) -> Seq<(Seq<char>, Seq<int>)>
    decreases gs.len(),
{
    if gs.len() == 0 {
        seq![(k, seq![i])]
    } else if gs[0].0 == k {
        seq![(k, gs[0].1.push(i))] + gs.drop_first()
    } else if lex_less(gs[0].0, k) {
        seq![gs[0]] + group_insert(gs.drop_first(), k, i)
    } else {
        seq![(k, seq![i])] + gs
    }
}

/// The archive's members grouped by normalized path, in ascending path
/// order, each group holding the members' indices in archive order.
pub open spec fn grouped(names: Seq<Seq<char>>) -> Seq<(Seq<char>, Seq<int>)>
    decreases names.len(),
{
    if names.len() == 0 {
        Seq::empty()
    } else {
        group_insert(grouped(names.drop_last()), normalized_name(names.last()), names.len() - 1)
    }
}

pub open spec fn groups_view(v: Seq<(String, Vec<usize>)>) -> Seq<(Seq<char>, Seq<int>)> {
    v.map_values(|g: (String, Vec<usize>)| (g.0@, g.1@.map_values(|x: usize| x as int)))
}

proof fn lemma_group_insert_at(gs: Seq<(Seq<char>, Seq<int>)>, k: Seq<char>, i: int, p: int)
    requires
        0 <= p <= gs.len(),
        forall|q: int| 0 <= q < p ==> gs[q].0 != k && lex_less(#[trigger] gs[q].0, k),
        p == gs.len() || gs[p].0 == k || !lex_less(gs[p].0, k),
    ensures
        group_insert(gs, k, i) == if p < gs.len() && gs[p].0 == k {
            gs.take(p) + seq![(k, gs[p].1.push(i))] + gs.skip(p + 1)
        } else {
            gs.take(p) + seq![(k, seq![i])] + gs.skip(p)
        },
    decreases p,
{
    if p == 0 {
        assert(gs.take(0) + seq![(k, seq![i])] + gs.skip(0) =~= seq![(k, seq![i])] + gs);
        if gs.len() > 0 {
            assert(gs.take(0) + seq![(k, gs[0].1.push(i))] + gs.skip(1) =~= seq![(k, gs[0].1.push(i))] + gs.drop_first());
        }
    } else {
        let t = gs.drop_first();
        assert forall|q: int| 0 <= q < p - 1 implies t[q].0 != k && lex_less(#[trigger] t[q].0, k) by {
            assert(t[q] == gs[q + 1]);
        }
        assert(gs[0].0 != k && lex_less(gs[0].0, k));
        lemma_group_insert_at(t, k, i, p - 1);
        if p < gs.len() && gs[p].0 == k {
            assert(seq![gs[0]] + (t.take(p - 1) + seq![(k, t[p - 1].1.push(i))] + t.skip(p)) =~= gs.take(p)
                + seq![(k, gs[p].1.push(i))] + gs.skip(p + 1));
        } else {
            assert(seq![gs[0]] + (t.take(p - 1) + seq![(k, seq![i])] + t.skip(p - 1)) =~= gs.take(p)
                + seq![(k, seq![i])] + gs.skip(p));
        }
    }
}

fn copy_group(g: &(String, Vec<usize>)) -> (r: (String, Vec<usize>))
    ensures
        r.0@ == g.0@,
        r.1@ == g.1@,
{
    let mut v: Vec<usize> = Vec::new();
    let mut j: usize = 0;
    while j < g.1.len()
        invariant
            j <= g.1@.len(),
            v@ == g.1@.take(j as int),
        decreases g.1@.len() - j,
    {
        v.push(g.1[j]);
        assert(g.1@.take(j + 1) =~= g.1@.take(j as int).push(g.1@[j as int]));
        j = j + 1;
    }
    assert(g.1@.take(j as int) =~= g.1@);
    (g.0.clone(), v)
}

/// Groups the members of an archive by normalized path (see [`grouped`]).
pub fn group_by_path(raw_names: &[String]) -> (r: Vec<(String, Vec<usize>)>)
    ensures
        groups_view(r@) == grouped(raw_names@.map_values(|n: String| n@)),
{
    let ghost ns = raw_names@.map_values(|n: String| n@);
    let mut gs: Vec<(String, Vec<usize>)> = Vec::new();
    let mut i: usize = 0;
    assert(ns.take(0) =~= Seq::<Seq<char>>::empty());
    assert(groups_view(gs@) =~= Seq::<(Seq<char>, Seq<int>)>::empty());
    while i < raw_names.len()
        invariant
            i <= raw_names@.len(),
            ns == raw_names@.map_values(|n: String| n@),
            groups_view(gs@) == grouped(ns.take(i as int)),
        decreases raw_names@.len() - i,
    {
        let ghost g0 = groups_view(gs@);
        assert(ns.take(i + 1).drop_last() =~= ns.take(i as int));
        assert(ns.take(i + 1).last() == raw_names@[i as int]@);
        let key = normalize_entry_name(raw_names[i].as_str());
        let kc = chars_of(key.as_str());
        let mut p: usize = 0;
        while p < gs.len() && !chars_eq_str(kc.as_slice(), gs[p].0.as_str())
            && crate::text::lex_less_chars(chars_of(gs[p].0.as_str()).as_slice(), kc.as_slice())
            invariant
                p <= gs@.len(),
                g0 == groups_view(gs@),
                kc@ == key@,
                forall|q: int| 0 <= q < p ==> g0[q].0 != key@ && lex_less(#[trigger] g0[q].0, key@),
            decreases gs@.len() - p,
        {
            assert(g0[p as int].0 == gs@[p as int].0@);
            p = p + 1;
        }
        let found = p < gs.len() && chars_eq_str(kc.as_slice(), gs[p].0.as_str());
        proof {
            if p < gs@.len() {
                assert(g0[p as int].0 == gs@[p as int].0@);
            }
            lemma_group_insert_at(g0, key@, i as int, p as int);
        }
        let mut next: Vec<(String, Vec<usize>)> = Vec::new();
        let mut q: usize = 0;
        while q < p
            invariant
                q <= p <= gs@.len(),
                g0 == groups_view(gs@),
                groups_view(next@) == g0.take(q as int),
            decreases p - q,
        {
            let ghost before = groups_view(next@);
            next.push(copy_group(&gs[q]));
            assert(groups_view(next@) =~= before.push(g0[q as int]));
            assert(g0.take(q + 1) =~= g0.take(q as int).push(g0[q as int]));
            q = q + 1;
        }
        let ghost before = groups_view(next@);
        let mut rest = p;
        if found {
            let (name, mut idx) = copy_group(&gs[p]);
            let ghost old_idx = idx@;
            idx.push(i);
            assert(idx@.map_values(|x: usize| x as int) =~= old_idx.map_values(|x: usize| x as int).push(i as int));
            next.push((name, idx));
            assert(groups_view(next@) =~= before.push((key@, g0[p as int].1.push(i as int))));
            rest = p + 1;
        } else {
            let mut idx: Vec<usize> = Vec::new();
            idx.push(i);
            assert(idx@.map_values(|x: usize| x as int) =~= seq![i as int]);
            next.push((key, idx));
            assert(groups_view(next@) =~= before.push((kc@, seq![i as int])));
        }
        let ghost mid = groups_view(next@);
        let mut q = rest;
        while q < gs.len()
            invariant
                rest <= q <= gs@.len(),
                g0 == groups_view(gs@),
                groups_view(next@) == mid + g0.subrange(rest as int, q as int),
            decreases gs@.len() - q,
        {
            let ghost b = groups_view(next@);
            next.push(copy_group(&gs[q]));
            assert(groups_view(next@) =~= b.push(g0[q as int]));
            assert(g0.subrange(rest as int, q + 1) =~= g0.subrange(rest as int, q as int).push(g0[q as int]));
            q = q + 1;
        }
        assert(g0.subrange(rest as int, gs@.len() as int) =~= g0.skip(rest as int));
        gs = next;
        i = i + 1;
    }
    assert(ns.take(raw_names@.len() as int) =~= ns);
    gs
}

/// Index of the last copy that could be read (`None` marks a readable copy,
/// `Some` the error of one that could not be read).
pub open spec fn last_readable(read_errors: Seq<Option<Seq<char>>>) -> Option<int>
    decreases read_errors.len(),
{
    if read_errors.len() == 0 {
        None
    } else if read_errors.last() is None {
        Some(read_errors.len() - 1)
    } else {
        last_readable(read_errors.drop_last())
    }
}

/// The read errors, in order.
pub open spec fn error_texts(read_errors: Seq<Option<Seq<char>>>) -> Seq<Seq<char>>
    decreases read_errors.len(),
{
    if read_errors.len() == 0 {
        Seq::empty()
    } else {
        match read_errors.last() {
            Some(e) => error_texts(read_errors.drop_last()).push(e),
            None => error_texts(read_errors.drop_last()),
        }
    }
}

pub open spec fn read_errors_model(v: Seq<Option<String>>) -> Seq<Option<Seq<char>>> {
    v.map_values(|o: Option<String>| match o {
        Some(e) => Some(e@),
        None => None,
    })
}

/// Which of several copies of the archive path `name` is written, given
/// the outcome of reading each in archive order: the last readable one; when
/// none is, a `Pak` error that names the path and lists the read errors.
pub fn select_copy(name: &str, read_errors: &[Option<String>]) -> (r: Result<usize, AppError>)
    ensures
        match last_readable(read_errors_model(read_errors@)) {
            Some(i) => r == Ok::<usize, AppError>(i as usize),
            None => r matches Err(AppError::Pak(m))
                && m@ == "解包失败 "@ + name@ + ": "@ + crate::text::join_with(error_texts(read_errors_model(read_errors@)), "; "@),
        },
{
    let ghost es = read_errors_model(read_errors@);
    let mut k = read_errors.len();
    assert(es.take(k as int) =~= es);
    while k > 0 && read_errors[k - 1].is_some()
        invariant
            k <= read_errors@.len(),
            es == read_errors_model(read_errors@),
            last_readable(es) == last_readable(es.take(k as int)),
        decreases k,
    {
        assert(es.take(k as int).drop_last() =~= es.take(k - 1));
        assert(es.take(k as int).last() == es[k - 1]);
        k = k - 1;
    }
    if k > 0 {
        assert(es.take(k as int).last() == es[k - 1]);
        return Ok(k - 1);
    }
    assert(es.take(0) =~= Seq::<Option<Seq<char>>>::empty());
    let mut texts: Vec<String> = Vec::new();
    let mut i: usize = 0;
    while i < read_errors.len()
        invariant
            i <= read_errors@.len(),
            es == read_errors_model(read_errors@),
            texts@.map_values(|t: String| t@) == error_texts(es.take(i as int)),
        decreases read_errors@.len() - i,
    {
        assert(es.take(i + 1).drop_last() =~= es.take(i as int));
        assert(es.take(i + 1).last() == es[i as int]);
        match &read_errors[i] {
            Some(e) => {
                let ghost before = texts@.map_values(|t: String| t@);
                texts.push(e.clone());
                assert(texts@.map_values(|t: String| t@) =~= before.push(e@));
            },
            None => {},
        }
        i = i + 1;
    }
    assert(es.take(read_errors@.len() as int) =~= es);
    let mut m = String::from_str("解包失败 ");
    m.append(name);
    m.append(": ");
    let joined = crate::translation::fidelity::join_strings(&texts, "; ");
    m.append(joined.as_str());
    Err(AppError::Pak(m))
}

/// The sort key of one path component, as `std::path::Component` orders
/// them: the root (1), `.` (2), `..` (3), then named parts (4) by their
/// text.
pub open spec fn part_keys(parts: Seq<Seq<char>>) -> Seq<(nat, Seq<char>)>
    decreases parts.len(),
{
    if parts.len() == 0 {
        Seq::empty()
    } else {
        let prev = part_keys(parts.drop_last());
        let p = parts.last();
        if p.len() == 0 || (p == "."@ && parts.len() > 1) {
            prev
        } else if p == "."@ {
            prev.push((2nat, Seq::empty()))
        } else if p == ".."@ {
            prev.push((3nat, Seq::empty()))
        } else {
            prev.push((4nat, p))
        }
    }
}

/// The components of a path with Windows separators, as sort keys: the
/// root when it starts with a separator, then its parts without empty ones
/// and without `.` except a leading one.
pub open spec fn path_keys(path: Seq<char>) -> Seq<(nat, Seq<char>)> {
    let n = normalized_name(path);
    (if n.len() > 0 && n[0] == '/' {
        seq![(1nat, Seq::<char>::empty())]
    } else {
        Seq::empty()
    }) + part_keys(split_on(n, '/'))
}

pub open spec fn key_less(x: (nat, Seq<char>), y: (nat, Seq<char>)) -> bool {
    x.0 < y.0 || (x.0 == y.0 && lex_less(x.1, y.1))
}

/// Lexicographic order of key sequences (a proper prefix comes first).
pub open spec fn keys_less(a: Seq<(nat, Seq<char>)>, b: Seq<(nat, Seq<char>)>) -> bool
    decreases a.len(),
{
    if a.len() == 0 {
        b.len() > 0
    } else if b.len() == 0 {
        false
    } else if a[0] != b[0] {
        key_less(a[0], b[0])
    } else {
        keys_less(a.drop_first(), b.drop_first())
    }
}

/// `Path` order: component by component.
pub open spec fn path_less(a: Seq<char>, b: Seq<char>) -> bool {
    keys_less(path_keys(a), path_keys(b))
}

spec fn keys_view(v: Seq<(u8, Vec<char>)>) -> Seq<(nat, Seq<char>)> {
    v.map_values(|k: (u8, Vec<char>)| (k.0 as nat, k.1@))
}

fn path_keys_exec(path: &str) -> (r: Vec<(u8, Vec<char>)>)
    ensures
        keys_view(r@) == path_keys(path@),
{
    let n = normalize_entry_name(path);
    let v = chars_of(n.as_str());
    let parts = crate::text::split_chars(v.as_slice(), '/');
    let ghost ps = seqs_of(parts@);
    let mut out: Vec<(u8, Vec<char>)> = Vec::new();
    if v.len() > 0 && v[0] == '/' {
        out.push((1u8, Vec::new()));
    }
    let ghost head = keys_view(out@);
    assert(head == (if v@.len() > 0 && v@[0] == '/' {
        seq![(1nat, Seq::<char>::empty())]
    } else {
        Seq::empty()
    }));
    let mut i: usize = 0;
    assert(ps.take(0) =~= Seq::<Seq<char>>::empty());
    assert(keys_view(out@) =~= head + part_keys(ps.take(0)));
    while i < parts.len()
        invariant
            i <= parts@.len(),
            ps == seqs_of(parts@),
            keys_view(out@) == head + part_keys(ps.take(i as int)),
        decreases parts@.len() - i,
    {
        let ghost t = ps.take(i + 1);
        assert(t.drop_last() =~= ps.take(i as int));
        assert(t.last() == parts@[i as int]@);
        let ghost before = keys_view(out@);
        let p = &parts[i];
        if p.len() == 0 || (chars_eq_str(p.as_slice(), ".") && i > 0) {
        } else if chars_eq_str(p.as_slice(), ".") {
            out.push((2u8, Vec::new()));
            assert(keys_view(out@) =~= before.push((2nat, Seq::<char>::empty())));
        } else if chars_eq_str(p.as_slice(), "..") {
            out.push((3u8, Vec::new()));
            assert(keys_view(out@) =~= before.push((3nat, Seq::<char>::empty())));
        } else {
            out.push((4u8, crate::text::copy_all(p)));
            assert(keys_view(out@) =~= before.push((4nat, p@)));
        }
        i = i + 1;
    }
    assert(ps.take(parts@.len() as int) =~= ps);
    out
}

fn keys_less_exec(a: &Vec<(u8, Vec<char>)>, b: &Vec<(u8, Vec<char>)>) -> (r: bool)
    ensures
        r == keys_less(keys_view(a@), keys_view(b@)),
{
    let ghost av = keys_view(a@);
    let ghost bv = keys_view(b@);
    let mut i: usize = 0;
    assert(av.skip(0) =~= av);
    assert(bv.skip(0) =~= bv);
    loop
        invariant
            i <= a@.len(),
            i <= b@.len(),
            av == keys_view(a@),
            bv == keys_view(b@),
            keys_less(av, bv) == keys_less(av.skip(i as int), bv.skip(i as int)),
        decreases a@.len() - i,
    {
        if i == a.len() {
            return i < b.len();
        }
        if i == b.len() {
            return false;
        }
        let x = &a[i];
        let y = &b[i];
        assert(av.skip(i as int)[0] == (x.0 as nat, x.1@));
        assert(bv.skip(i as int)[0] == (y.0 as nat, y.1@));
        if x.0 != y.0 || !crate::text::chars_eq(x.1.as_slice(), y.1.as_slice()) {
            return x.0 < y.0 || (x.0 == y.0 && crate::text::lex_less_chars(x.1.as_slice(), y.1.as_slice()));
        }
        proof {
            assert(av.skip(i as int).drop_first() =~= av.skip(i + 1));
            assert(bv.skip(i as int).drop_first() =~= bv.skip(i + 1));
        }
        i = i + 1;
    }
}

/// Whether `a` sorts before `b` as paths (see [`path_less`]).
fn path_less_exec(a: &str, b: &str) -> (r: bool)
    ensures
        r == path_less(a@, b@),
{
    let ka = path_keys_exec(a);
    let kb = path_keys_exec(b);
    keys_less_exec(&ka, &kb)
}

/// The best `.pak` among `(path, size)` candidates in order: the largest,
/// and among equal sizes the smallest path, component by component.
pub open spec fn best_pak(cs: Seq<(Seq<char>, u64)>) -> Option<(Seq<char>, u64)>
    decreases cs.len(),
{
    if cs.len() == 0 {
        None
    } else {
        let prev = best_pak(cs.drop_last());
        let c = cs.last();
        if !has_extension(c.0, "pak"@) {
            prev
        } else {
            match prev {
                None => Some(c),
                Some(b) => if c.1 > b.1 || (c.1 == b.1 && path_less(c.0, b.0)) {
                    Some(c)
                } else {
                    Some(b)
                },
            }
        }
    }
}

/// Picks the mod's `.pak` among the files of an extracted zip, given as
/// `(path, size)` in walking order (see [`best_pak`]).
pub fn pick_largest_pak_among(candidates: &[(String, u64)]) -> (r: Option<String>)
    ensures
        match best_pak(candidates@.map_values(|c: (String, u64)| (c.0@, c.1))) {
            Some(b) => r matches Some(p) && p@ == b.0,
            None => r is None,
        },
{
    let ghost cs = candidates@.map_values(|c: (String, u64)| (c.0@, c.1));
    let mut best: Option<usize> = None;
    let mut i: usize = 0;
    assert(cs.take(0) =~= Seq::<(Seq<char>, u64)>::empty());
    while i < candidates.len()
        invariant
            i <= candidates@.len(),
            cs == candidates@.map_values(|c: (String, u64)| (c.0@, c.1)),
            match best_pak(cs.take(i as int)) {
                Some(b) => best matches Some(k) && k < i && cs[k as int] == b,
                None => best is None,
            },
        decreases candidates@.len() - i,
    {
        assert(cs.take(i + 1).drop_last() =~= cs.take(i as int));
        assert(cs.take(i + 1).last() == cs[i as int]);
        assert(cs[i as int] == (candidates@[i as int].0@, candidates@[i as int].1));
        if path_has_extension(candidates[i].0.as_str(), "pak") {
            match best {
                None => {
                    best = Some(i);
                },
                Some(k) => {
                    assert(cs[k as int] == (candidates@[k as int].0@, candidates@[k as int].1));
                    if candidates[i].1 > candidates[k].1 || (candidates[i].1 == candidates[k].1
                        && path_less_exec(candidates[i].0.as_str(), candidates[k].0.as_str())) {
                        best = Some(i);
                    }
                },
            }
        }
        i = i + 1;
    }
    assert(cs.take(cs.len() as int) =~= cs);
    match best {
        Some(k) => {
            assert(cs[k as int] == (candidates@[k as int].0@, candidates@[k as int].1));
            Some(candidates[k].0.clone())
        },
        None => None,
    }
}

/// The priority recorded for repacking, clamped to `u8` (0 when missing).
pub fn priority_from(value: Option<u64>) -> (r: u8)
    ensures
        r == match value {
            Some(p) => if p > 255 {
                255
            } else {
                p
            },
            None => 0,
        },
{
    match value {
        Some(p) => if p > 255 {
            255
        } else {
            p as u8
        },
        None => 0,
    }
}


// ─────────────────────────────────────────────────────────────
// Zip extraction limits
// ─────────────────────────────────────────────────────────────

/// Limits that stop a zip bomb while it is extracted. They are generous
/// (a mod with 4K textures unpacks to several GB) but a thousandfold
/// compression ratio has to be stopped during extraction, before the disk
/// fills up.
#[derive(Debug, Clone, Copy)]
pub struct ZipLimits {
    /// Declared uncompressed size allowed for one entry.
    pub max_entry_bytes: u64,
    /// Uncompressed bytes allowed for all entries together.
    pub max_total_bytes: u64,
    /// Number of entries allowed (many tiny files exhaust inodes and time).
    pub max_entries: usize,
}

impl Default for ZipLimits {
    /// 6 GiB per entry, 16 GiB in all, 200 000 entries.
    fn default() -> (r: Self)
        ensures
            r.max_entry_bytes == 6 * 1024 * 1024 * 1024,
            r.max_total_bytes == 16 * 1024 * 1024 * 1024,
            r.max_entries == 200_000,
    {
        ZipLimits { max_entry_bytes: 6442450944, max_total_bytes: 17179869184, max_entries: 200000 }
    }
}

/// The bookkeeping of one zip extraction: the limits and the bytes written
/// so far, which never exceed the total limit.
pub struct ZipGuard {
    limits: ZipLimits,
    written_total: u64,
}

impl ZipGuard {
    /// The limits in force.
    pub closed spec fn lim(&self) -> ZipLimits {
        self.limits
    }

    /// Bytes written so far.
    pub closed spec fn written(&self) -> u64 {
        self.written_total
    }

    /// The written bytes stay within the total limit.
    pub closed spec fn wf(&self) -> bool {
        self.written_total <= self.limits.max_total_bytes
    }

    /// A guard with nothing written yet.
    pub fn new(limits: ZipLimits) -> (r: Self)
        ensures
            r.wf(),
            r.lim() == limits,
            r.written() == 0,
    {
        ZipGuard { limits, written_total: 0 }
    }

    /// The limits in force.
    pub fn limits(&self) -> (r: ZipLimits)
        ensures
            r == self.lim(),
    {
        self.limits
    }

    /// Bytes written so far.
    pub fn written_total(&self) -> (r: u64)
        ensures
            r == self.written(),
    {
        self.written_total
    }

    /// Refuses an archive with more entries than allowed.
    pub fn check_entry_count(&self, count: usize) -> (r: Result<(), AppError>)
        ensures
            count > self.lim().max_entries ==> (r matches Err(AppError::Pak(m)) && m@ == "zip 条目数 "@
                + decimal(count as nat) + " 超过上限 "@ + decimal(self.lim().max_entries as nat)
                + "，已中止解压（疑似恶意压缩包，真实 MOD 不会有这么多文件）"@),
            count <= self.lim().max_entries ==> r is Ok,
    {
        if count > self.limits.max_entries {
            let mut m = String::from_str("zip 条目数 ");
            m.append(crate::text::usize_to_string(count).as_str());
            m.append(" 超过上限 ");
            m.append(crate::text::usize_to_string(self.limits.max_entries).as_str());
            m.append("，已中止解压（疑似恶意压缩包，真实 MOD 不会有这么多文件）");
            return Err(AppError::Pak(m));
        }
        Ok(())
    }

    /// Checks an entry by its declared size: refused when the declaration
    /// alone exceeds the entry limit, or would take the total past its
    /// limit; else the number of bytes still allowed is returned.
    pub fn allow_entry(&self, name: &str, declared: u64) -> (r: Result<u64, AppError>)
        requires
            self.wf(),
        ensures
            declared > self.lim().max_entry_bytes ==> (r matches Err(AppError::Pak(m)) && m@ == "zip 条目 "@
                + name@ + " 声明解压后 "@ + decimal(declared as nat) + " 字节，超过单文件上限 "@
                + decimal(self.lim().max_entry_bytes as nat) + "，已中止解压"@),
            declared <= self.lim().max_entry_bytes && self.written() + declared > self.lim().max_total_bytes
                ==> (r matches Err(AppError::Pak(m)) && m@ == "zip 解压总量将超过上限 "@
                + decimal(self.lim().max_total_bytes as nat) + " 字节（已解压 "@
                + decimal(self.written() as nat) + " 字节），已中止解压"@),
            declared <= self.lim().max_entry_bytes && self.written() + declared <= self.lim().max_total_bytes
                ==> r == Ok::<u64, AppError>((self.lim().max_total_bytes - self.written()) as u64),
    {
        if declared > self.limits.max_entry_bytes {
            let mut m = String::from_str("zip 条目 ");
            m.append(name);
            m.append(" 声明解压后 ");
            m.append(crate::text::u64_to_string(declared).as_str());
            m.append(" 字节，超过单文件上限 ");
            m.append(crate::text::u64_to_string(self.limits.max_entry_bytes).as_str());
            m.append("，已中止解压");
            return Err(AppError::Pak(m));
        }
        if declared > self.limits.max_total_bytes - self.written_total {
            let mut m = String::from_str("zip 解压总量将超过上限 ");
            m.append(crate::text::u64_to_string(self.limits.max_total_bytes).as_str());
            m.append(" 字节（已解压 ");
            m.append(crate::text::u64_to_string(self.written_total).as_str());
            m.append(" 字节），已中止解压");
            return Err(AppError::Pak(m));
        }
        Ok(self.limits.max_total_bytes - self.written_total)
    }

    /// Records what an allowed entry actually wrote: refused when it went
    /// past the remaining allowance (a declared size can lie), else added
    /// to the total.
    pub fn record(&mut self, name: &str, copied: u64) -> (r: Result<(), AppError>)
        requires
            old(self).wf(),
        ensures
            final(self).wf(),
            final(self).lim() == old(self).lim(),
            copied > old(self).lim().max_total_bytes - old(self).written() ==> (r matches Err(AppError::Pak(m))
                && m@ == "zip 条目 "@ + name@ + " 解压超过总量上限 "@
                + decimal(old(self).lim().max_total_bytes as nat) + " 字节，已中止解压（疑似压缩炸弹）"@
                && final(self).written() == old(self).written()),
            copied <= old(self).lim().max_total_bytes - old(self).written() ==> r is Ok
                && final(self).written() == old(self).written() + copied,
    {
        let budget = self.limits.max_total_bytes - self.written_total;
        if copied > budget {
            let mut m = String::from_str("zip 条目 ");
            m.append(name);
            m.append(" 解压超过总量上限 ");
            m.append(crate::text::u64_to_string(self.limits.max_total_bytes).as_str());
            m.append(" 字节，已中止解压（疑似压缩炸弹）");
            return Err(AppError::Pak(m));
        }
        self.written_total = self.written_total + copied;
        Ok(())
    }
}

/// The error when an extracted zip holds no `.pak`.
pub fn no_pak_in_zip() -> (r: AppError)
    ensures
        r matches AppError::Pak(m) && m@ == "zip 内未找到 .pak 文件，请确认这是 BG3 MOD。"@,
{
    AppError::pak("zip 内未找到 .pak 文件，请确认这是 BG3 MOD。")
}


/// The file-list entry for an archive member: its name normalized, its kind
/// decided on that name, its size and its game language (which the archive
/// library detects from the path) as given.
pub fn pak_file_of(raw_name: &str, size: u64, language: Option<String>) -> (r: PakFile)
    ensures
        r.name@ == normalized_name(raw_name@),
        r.kind == kind_of_path(normalized_name(raw_name@)),
        r.size == size,
        r.language == language,
{
    let name = normalize_entry_name(raw_name);
    let kind = classify_file(name.as_str());
    PakFile { name, size, kind, language }
}

} // verus!
