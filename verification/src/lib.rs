//! Core logic of a Baldur's Gate 3 mod translation tool: localisation formats,
//! translation fidelity checks, series handling, prompt construction, SSE
//! decoding and archive-path safety, with contracts proved by Verus.

pub mod config;
pub mod error;
pub mod formats;
pub mod glossary;
pub mod pak;
pub mod text;
pub mod translation;
pub mod types;

pub use error::AppError;

use vstd::prelude::*;
use crate::text::{
    char_find, chars_of, eq_ignore_ascii_case, eq_ignore_ascii_case_str, join_chars, join_with,
    replace_all, replace_chars, seqs_of, split_chars, split_on,
};

verus! {

/// The version of this library.
pub const VERSION: &'static str = "0.1.0";

/// Directory name of the target language inside a mod archive.
pub const TARGET_LANGUAGE: &'static str = "Chinese";

/// Whether a language directory name is one of the target language's aliases
/// (`Chinese`, `ChineseSimplified`, `zh-CN`), ignoring ASCII case.
pub open spec fn target_language(language: Seq<char>) -> bool {
    ||| eq_ignore_ascii_case("Chinese"@, language)
    ||| eq_ignore_ascii_case("ChineseSimplified"@, language)
    ||| eq_ignore_ascii_case("zh-CN"@, language)
}

/// Whether a language directory name denotes the target language.
pub fn is_target_language(language: &str) -> (r: bool)
    ensures
        r == target_language(language@),
{
    let l = chars_of(language);
    let a = chars_of("Chinese");
    let b = chars_of("ChineseSimplified");
    let c = chars_of("zh-CN");
    crate::text::eq_ignore_ascii_case_chars(a.as_slice(), l.as_slice())
        || crate::text::eq_ignore_ascii_case_chars(b.as_slice(), l.as_slice())
        || crate::text::eq_ignore_ascii_case_chars(c.as_slice(), l.as_slice())
}

/// Index of the first path segment equal to `Localization` up to ASCII case.
pub open spec fn localization_index(parts: Seq<Seq<char>>, k: int) -> Option<int>
    decreases parts.len() - k,
{
    if k < 0 || k >= parts.len() {
        None
    } else if eq_ignore_ascii_case(parts[k], "Localization"@) {
        Some(k)
    } else {
        localization_index(parts, k + 1)
    }
}

/// The path with `\` read as `/`, and the segment after `Localization/`
/// replaced by the target language when at least two segments follow
/// `Localization`; otherwise only the separators change.
pub open spec fn target_localization_path(file_name: Seq<char>) -> Seq<char> {
    let normalized = replace_all(file_name, seq!['\\'], seq!['/']);
    let parts = split_on(normalized, '/');
    match localization_index(parts, 0) {
        Some(i) => if parts.len() <= i + 2 {
            normalized
        } else {
            join_with(parts.update(i + 1, "Chinese"@), seq!['/'])
        },
        None => normalized,
    }
}

/// Rewrites a localisation file path to the target-language directory:
/// `Localization/English/foo.xml` → `Localization/Chinese/foo.xml`.
pub fn to_target_localization_path(file_name: &str) -> (r: String)
    ensures
        r@ == target_localization_path(file_name@),
{
    let v = chars_of(file_name);
    let back: Vec<char> = vec!['\\'];
    let slash: Vec<char> = vec!['/'];
    assert(back@ =~= seq!['\\']);
    assert(slash@ =~= seq!['/']);
    let normalized = replace_chars(v.as_slice(), back.as_slice(), slash.as_slice());
    let mut parts = split_chars(normalized.as_slice(), '/');
    let ghost ps = seqs_of(parts@);
    let mut k: usize = 0;
    while k < parts.len() && !eq_ignore_ascii_case_str(parts[k].as_slice(), "Localization")
        invariant
            k <= parts@.len(),
            ps == seqs_of(parts@),
            localization_index(ps, 0) == localization_index(ps, k as int),
        decreases parts@.len() - k,
    {
        k = k + 1;
    }
    if k == parts.len() || parts.len() - k <= 2 {
        return crate::text::string_of(normalized.as_slice());
    }
    let target = chars_of("Chinese");
    let ghost tv = target@;
    parts.set(k + 1, target);
    assert(seqs_of(parts@) =~= ps.update(k + 1, tv));
    let joined = join_chars(&parts, '/');
    crate::text::string_of(joined.as_slice())
}

/// Write-back priority of a source file's language for the same target file:
/// English 3, any other language 1, none 0.
pub open spec fn write_priority(language: Option<Seq<char>>) -> u8 {
    match language {
        Some(l) => if eq_ignore_ascii_case(l, "English"@) {
            3
        } else {
            1
        },
        None => 0,
    }
}

/// Priority of a source language when several files write the same target:
/// English sources win over others.
pub fn localization_write_priority(language: Option<&str>) -> (r: u8)
    ensures
        r == write_priority(match language {
            Some(l) => Some(l@),
            None => None,
        }),
{
    match language {
        Some(lang) => {
            let l = chars_of(lang);
            if eq_ignore_ascii_case_str(l.as_slice(), "English") {
                3
            } else {
                1
            }
        },
        None => 0,
    }
}

} // verus!
