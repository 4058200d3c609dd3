//! The data directory policy. In order of priority: the directory named by
//! the environment override; the `config/` directory next to the executable
//! when it is writable (portable mode); the platform configuration directory.
//! Paths are handled as text; the filesystem probing is done by the caller.

use vstd::prelude::*;

verus! {

/// Environment variable that names the data directory directly.
pub const ENV_HOME: &'static str = "BG3_TRANSLATE_HOME";

/// Name of the data directory next to the executable in portable mode.
pub const PORTABLE_DIR_NAME: &'static str = "config";

/// Where the data directory came from.
#[derive(Debug, Clone, Copy, PartialEq, Eq, Structural)]
pub enum DataDirSource {
    /// the environment override
    EnvOverride,
    /// next to the executable (portable)
    Portable,
    /// the platform configuration directory
    System,
}

pub open spec fn source_name(s: DataDirSource) -> Seq<char> {
    match s {
        DataDirSource::EnvOverride => "环境变量"@,
        DataDirSource::Portable => "便携目录"@,
        DataDirSource::System => "系统配置目录"@,
    }
}

impl DataDirSource {
    /// The label shown to the user.
    pub fn as_str(self) -> (r: &'static str)
        ensures
            r@ == source_name(self),
    {
        match self {
            DataDirSource::EnvOverride => "环境变量",
            DataDirSource::Portable => "便携目录",
            DataDirSource::System => "系统配置目录",
        }
    }
}

/// The resolved data directory.
#[derive(Debug, Clone, PartialEq, Eq)]
pub struct DataDir {
    pub path: String,
    pub source: DataDirSource,
}

/// A name that `Path::join` appends to a directory that is not verbatim,
/// rather than putting it in place of the directory, on any platform: it starts with no `/` or `\` (a root) and
/// holds no `:` (a Windows drive or device prefix).
pub open spec fn relative_name(name: Seq<char>) -> bool {
    &&& !(name.len() > 0 && (name[0] == '/' || name[0] == '\\'))
    &&& forall|i: int| 0 <= i < name.len() ==> #[trigger] name[i] != ':'
}

/// `\\?\`, the start of a Windows verbatim path.
pub open spec fn verbatim_lead() -> Seq<char> {
    seq!['\\', '\\', '?', '\\']
}

/// A Windows verbatim path (`\\?\C:\...`), under which `Path::join`
/// normalizes the whole path rather than appending.
pub open spec fn verbatim_path(dir: Seq<char>) -> bool {
    crate::text::starts_with(dir, verbatim_lead())
}

/// A directory that is, or may become by appending, a verbatim path.
pub open spec fn may_turn_verbatim(dir: Seq<char>) -> bool {
    verbatim_path(dir) || crate::text::starts_with(verbatim_lead(), dir)
}

/// `dir` then `name`, as a Unix `Path::join` appends: with a `/` between
/// them unless `dir` is empty or already ends with `/`.
pub open spec fn unix_join(dir: Seq<char>, name: Seq<char>) -> Seq<char> {
    if dir.len() > 0 && dir.last() != '/' {
        dir + seq!['/'] + name
    } else {
        dir + name
    }
}

/// A bare Windows drive such as `C:`.
pub open spec fn bare_drive(dir: Seq<char>) -> bool {
    dir.len() == 2 && crate::text::is_ascii_alpha_spec(dir[0]) && dir[1] == ':'
}

/// `r` is `dir` then `name` as a Windows `Path::join` appends: with a `\`
/// between them unless `dir` is empty or already ends with `/` or `\`; a
/// bare drive (`C:`) may take the name with or without one.
pub open spec fn windows_joined(r: Seq<char>, dir: Seq<char>, name: Seq<char>) -> bool {
    if dir.len() == 0 || dir.last() == '/' || dir.last() == '\\' {
        r == dir + name
    } else if bare_drive(dir) {
        r == dir + name || r == dir + seq!['\\'] + name
    } else {
        r == dir + seq!['\\'] + name
    }
}

/// `r` is `name` appended to `dir` by `Path::join`, on Unix or on Windows:
/// with the platform's separator between them wherever `dir` does not end
/// with one.
pub open spec fn joined(r: Seq<char>, dir: Seq<char>, name: Seq<char>) -> bool {
    r == unix_join(dir, name) || windows_joined(r, dir, name)
}

/// `r` is `root` with each of `parts` appended in turn (see [`joined`]).
pub open spec fn joined_parts(r: Seq<char>, root: Seq<char>, parts: Seq<Seq<char>>) -> bool
    decreases parts.len(),
{
    if parts.len() == 0 {
        r == root
    } else {
        exists|d: Seq<char>| #[trigger] joined(r, d, parts.last()) && joined_parts(d, root, parts.drop_last())
    }
}

/// A joined path starts with its directory.
pub proof fn lemma_joined_prefix(r: Seq<char>, dir: Seq<char>, name: Seq<char>)
    requires
        joined(r, dir, name),
    ensures
        crate::text::starts_with(r, dir),
        crate::text::ends_with(r, name),
        r.len() >= dir.len() + name.len(),
{
    assert(r.take(dir.len() as int) =~= dir);
    assert(r.skip(r.len() - name.len()) =~= name);
}

/// A path built on a directory that cannot turn verbatim is not verbatim.
pub proof fn lemma_not_verbatim_extends(r: Seq<char>, dir: Seq<char>)
    requires
        !may_turn_verbatim(dir),
        crate::text::starts_with(r, dir),
    ensures
        !may_turn_verbatim(r),
        !verbatim_path(r),
{
    let v = verbatim_lead();
    if dir.len() >= 4 {
        if crate::text::starts_with(r, v) || crate::text::starts_with(v, r) {
            if crate::text::starts_with(v, r) {
                assert(v.take(r.len() as int) =~= v);
            }
            assert(r.take(4) =~= v);
            assert(dir.take(4) =~= r.take(4));
        }
    } else {
        if crate::text::starts_with(r, v) || crate::text::starts_with(v, r) {
            assert forall|i: int| 0 <= i < dir.len() implies v.take(dir.len() as int)[i] == dir[i] by {
                assert(r.take(dir.len() as int)[i] == r[i]);
                if crate::text::starts_with(r, v) {
                    assert(v[i] == r.take(4)[i]);
                } else {
                    assert(v.take(r.len() as int)[i] == r[i]);
                }
            }
            assert(v.take(dir.len() as int) =~= dir);
        }
    }
}

/// `Path::join` of a relative name (one with no root and no prefix: see
/// [`relative_name`]) onto a directory that is not a verbatim path: the
/// name is appended, after the platform's separator (`/` on Unix, `\` on
/// Windows) unless the directory is empty or ends with a separator (see
/// [`joined`]). For a verbatim directory, which `Path::join`
/// normalizes as a whole, and for a name with a root or a prefix, which
/// replaces the directory, nothing is stated.
#[verifier::external_body]
pub(crate) fn join_path(dir: &str, name: &str) -> (r: String)
    ensures
        relative_name(name@) && !verbatim_path(dir@) ==> joined(r@, dir@, name@),
{
    std::path::Path::new(dir).join(name).to_string_lossy().into_owned()
}

/// The fixed names joined under directories are relative.
proof fn lemma_fixed_names_relative()
    ensures
        relative_name(PORTABLE_DIR_NAME@),
        relative_name("settings.json"@),
        relative_name("glossary.json"@),
{
    reveal_strlit("config");
    reveal_strlit("settings.json");
    reveal_strlit("glossary.json");
}

/// Decides the data directory from the candidates, without any I/O: a
/// non-empty environment override wins; else `config/` under a writable
/// executable directory; else the system directory.
pub fn resolve_data_dir(
    env_home: Option<&str>,
    exe_dir: Option<&str>,
    system_dir: &str,
    exe_dir_writable: bool,
) -> (r: DataDir)
    ensures
        match env_home {
            Some(h) if h@.len() > 0 => r.source == DataDirSource::EnvOverride && r.path@ == h@,
            _ => match exe_dir {
                Some(d) if exe_dir_writable => r.source == DataDirSource::Portable
                    && (!verbatim_path(d@) ==> joined(r.path@, d@, "config"@)),
                _ => r.source == DataDirSource::System && r.path@ == system_dir@,
            },
        },
{
    proof {
        lemma_fixed_names_relative();
    }
    match env_home {
        Some(dir) => {
            if !dir.is_empty() {
                return DataDir { path: String::from_str(dir), source: DataDirSource::EnvOverride };
            }
        },
        None => {},
    }
    match exe_dir {
        Some(dir) => {
            if exe_dir_writable {
                return DataDir { path: join_path(dir, PORTABLE_DIR_NAME), source: DataDirSource::Portable };
            }
        },
        None => {},
    }
    DataDir { path: String::from_str(system_dir), source: DataDirSource::System }
}

/// The settings file inside a data directory.
pub fn settings_path_in(dir: &str) -> (r: String)
    ensures
        !verbatim_path(dir@) ==> joined(r@, dir@, "settings.json"@),
{
    proof {
        lemma_fixed_names_relative();
    }
    join_path(dir, "settings.json")
}

/// The glossary file inside a data directory.
pub fn glossary_path_in(dir: &str) -> (r: String)
    ensures
        !verbatim_path(dir@) ==> joined(r@, dir@, "glossary.json"@),
{
    proof {
        lemma_fixed_names_relative();
    }
    join_path(dir, "glossary.json")
}

} // verus!
