//! Data shared with the front end: file kinds, archive file metadata,
//! translation entries and their status, and streaming events.

use vstd::prelude::*;
use crate::text::{
    chars_of, copy_range, ends_with, ends_with_chars, extend_chars, extend_str, is_blank,
    is_blank_str, string_of, trim, trim_chars,
};

verus! {

// ─────────────────────────────────────────────────────────────
// File kinds
// ─────────────────────────────────────────────────────────────

/// Kind of a file inside a mod archive.
#[derive(Debug, Clone, Copy, PartialEq, Eq, Structural, Hash, PartialOrd, Ord)]
pub enum PakFileKind {
    /// `<contentList>` localisation XML
    LocalizationXml,
    /// binary `.loca` localisation
    LocalizationLoca,
    /// `.lsx` metadata (Description, DisplayName, ...)
    MetadataLsx,
    /// Lua script
    ScriptLua,
    /// stats / data text
    DataTxt,
    /// anything else
    Other,
}

/// The kebab-case name of a kind.
pub open spec fn kind_name(k: PakFileKind) -> Seq<char> {
    match k {
        PakFileKind::LocalizationXml => "localization-xml"@,
        PakFileKind::LocalizationLoca => "localization-loca"@,
        PakFileKind::MetadataLsx => "metadata-lsx"@,
        PakFileKind::ScriptLua => "script-lua"@,
        PakFileKind::DataTxt => "data-txt"@,
        PakFileKind::Other => "other"@,
    }
}

/// Kinds from which translatable text is extracted.
pub open spec fn kind_translatable(k: PakFileKind) -> bool {
    k is LocalizationXml || k is LocalizationLoca || k is MetadataLsx
}

impl PakFileKind {
    /// Every kind, in a stable order.
    pub const ALL: [PakFileKind; 6] = [
        PakFileKind::LocalizationXml,
        PakFileKind::LocalizationLoca,
        PakFileKind::MetadataLsx,
        PakFileKind::ScriptLua,
        PakFileKind::DataTxt,
        PakFileKind::Other,
    ];

    /// Whether translatable text can be extracted from files of this kind.
    pub fn is_translatable(self) -> (r: bool)
        ensures
            r == kind_translatable(self),
    {
        match self {
            PakFileKind::LocalizationXml => true,
            PakFileKind::LocalizationLoca => true,
            PakFileKind::MetadataLsx => true,
            _ => false,
        }
    }

    /// The kebab-case name (the serialised form).
    pub fn as_str(self) -> (r: &'static str)
        ensures
            r@ == kind_name(self),
    {
        match self {
            PakFileKind::LocalizationXml => "localization-xml",
            PakFileKind::LocalizationLoca => "localization-loca",
            PakFileKind::MetadataLsx => "metadata-lsx",
            PakFileKind::ScriptLua => "script-lua",
            PakFileKind::DataTxt => "data-txt",
            PakFileKind::Other => "other",
        }
    }

    /// The kind whose name is `s`, if any.
    pub fn from_name(s: &str) -> (r: Option<PakFileKind>)
        ensures
            match r {
                Some(k) => kind_name(k) == s@,
                None => forall|k: PakFileKind| kind_name(k) != s@,
            },
    {
        let v = crate::text::chars_of(s);
        if crate::text::chars_eq_str(v.as_slice(), "localization-xml") {
            Some(PakFileKind::LocalizationXml)
        } else if crate::text::chars_eq_str(v.as_slice(), "localization-loca") {
            Some(PakFileKind::LocalizationLoca)
        } else if crate::text::chars_eq_str(v.as_slice(), "metadata-lsx") {
            Some(PakFileKind::MetadataLsx)
        } else if crate::text::chars_eq_str(v.as_slice(), "script-lua") {
            Some(PakFileKind::ScriptLua)
        } else if crate::text::chars_eq_str(v.as_slice(), "data-txt") {
            Some(PakFileKind::DataTxt)
        } else if crate::text::chars_eq_str(v.as_slice(), "other") {
            Some(PakFileKind::Other)
        } else {
            None
        }
    }
}

// ─────────────────────────────────────────────────────────────
// Archive file metadata
// ─────────────────────────────────────────────────────────────

/// One file inside an archive.
#[derive(Debug, Clone, PartialEq, Eq)]
pub struct PakFile {
    /// Path inside the archive, `/`-separated.
    pub name: String,
    /// Unpacked size in bytes.
    pub size: u64,
    pub kind: PakFileKind,
    /// The game language of a localisation file (`English`, `Polish`, ...).
    pub language: Option<String>,
}

/// The part of a path after its last `/` (the whole path when it has none).
pub open spec fn base_name_of(name: Seq<char>) -> Seq<char> {
    name.skip(last_slash_end(name, name.len() as int))
}

/// Index just past the last `/` in `name[..k]` (0 when there is none).
pub open spec fn last_slash_end(name: Seq<char>, k: int) -> int
    decreases k,
{
    if k <= 0 || k > name.len() {
        0
    } else if name[k - 1] == '/' {
        k
    } else {
        last_slash_end(name, k - 1)
    }
}

impl PakFile {
    /// The file name without its directories.
    pub fn base_name(&self) -> (r: &str)
        ensures
            r@ == base_name_of(self.name@),
    {
        let s = self.name.as_str();
        let v = crate::text::chars_of(s);
        let n = v.len();
        let mut k = n;
        while k > 0 && v[k - 1] != '/'
            invariant
                k <= n,
                n == v@.len(),
                v@ == self.name@,
                last_slash_end(v@, n as int) == last_slash_end(v@, k as int),
            decreases k,
        {
            k = k - 1;
        }
        s.substring_char(k, n)
    }
}

// ─────────────────────────────────────────────────────────────
// Translation entries
// ─────────────────────────────────────────────────────────────

/// Status of an entry.
#[derive(Debug, Clone, Copy, PartialEq, Eq, Structural, Hash)]
pub enum TranslationStatus {
    Pending,
    Translating,
    /// translated by the model
    Translated,
    /// edited by hand
    Edited,
    Error,
}

pub open spec fn status_name(s: TranslationStatus) -> Seq<char> {
    match s {
        TranslationStatus::Pending => "pending"@,
        TranslationStatus::Translating => "translating"@,
        TranslationStatus::Translated => "translated"@,
        TranslationStatus::Edited => "edited"@,
        TranslationStatus::Error => "error"@,
    }
}

impl TranslationStatus {
    pub const ALL: [TranslationStatus; 5] = [
        TranslationStatus::Pending,
        TranslationStatus::Translating,
        TranslationStatus::Translated,
        TranslationStatus::Edited,
        TranslationStatus::Error,
    ];

    /// The lowercase name (the serialised form).
    pub fn as_str(self) -> (r: &'static str)
        ensures
            r@ == status_name(self),
    {
        match self {
            TranslationStatus::Pending => "pending",
            TranslationStatus::Translating => "translating",
            TranslationStatus::Translated => "translated",
            TranslationStatus::Edited => "edited",
            TranslationStatus::Error => "error",
        }
    }
}

impl Default for TranslationStatus {
    fn default() -> (r: Self)
        ensures
            r == TranslationStatus::Pending,
    {
        TranslationStatus::Pending
    }
}

/// One translatable entry (the common form of XML, LSX and LOCA entries).
#[derive(Debug, Clone, PartialEq, Eq)]
pub struct TranslationEntry {
    /// `{file inside the archive}#{contentuid}`
    pub id: String,
    /// The archive path of the file the entry comes from.
    pub source_file: String,
    pub source: String,
    /// Empty while untranslated.
    pub target: String,
    /// Lookup handle; kept verbatim on repacking.
    pub contentuid: String,
    /// Kept verbatim on repacking.
    pub version: String,
    pub status: TranslationStatus,
    /// The error message while `status` is `Error`.
    pub error: Option<String>,
}

/// The plain-value model of an entry.
pub struct EntryModel {
    pub id: Seq<char>,
    pub source_file: Seq<char>,
    pub source: Seq<char>,
    pub target: Seq<char>,
    pub contentuid: Seq<char>,
    pub version: Seq<char>,
    pub status: TranslationStatus,
    pub error: Option<Seq<char>>,
}

impl View for TranslationEntry {
    type V = EntryModel;

    open spec fn view(&self) -> EntryModel {
        EntryModel {
            id: self.id@,
            source_file: self.source_file@,
            source: self.source@,
            target: self.target@,
            contentuid: self.contentuid@,
            version: self.version@,
            status: self.status,
            error: match self.error {
                Some(e) => Some(e@),
                None => None,
            },
        }
    }
}

/// The entry has source text and no translation yet.
pub open spec fn pending_translation(e: EntryModel) -> bool {
    !is_blank(e.source) && is_blank(e.target)
}

/// The entry has translated text (which is not necessarily written back).
pub open spec fn has_target_text(e: EntryModel) -> bool {
    !is_blank(e.target)
}

/// The entry has a translation that may be written back: non-blank and not
/// in error.
pub open spec fn writable_target(e: EntryModel) -> bool {
    has_target_text(e) && e.status != TranslationStatus::Error
}

/// The text written back: the translation when writable, else the source.
pub open spec fn effective_text_of(e: EntryModel) -> Seq<char> {
    if writable_target(e) {
        e.target
    } else {
        e.source
    }
}

/// The entry that `TranslationEntry::new` builds.
pub open spec fn new_entry(
    source_file: Seq<char>,
    contentuid: Seq<char>,
    version: Seq<char>,
    source: Seq<char>,
) -> EntryModel {
    EntryModel {
        id: source_file + "#"@ + contentuid,
        source_file,
        source,
        target: Seq::empty(),
        contentuid,
        version,
        status: TranslationStatus::Pending,
        error: None,
    }
}

impl TranslationEntry {
    /// A pending entry with an empty translation.
    pub fn new(source_file: &str, contentuid: &str, version: &str, source: &str) -> (r: Self)
        ensures
            r@ == new_entry(source_file@, contentuid@, version@, source@),
            r@.id == source_file@ + "#"@ + contentuid@,
            r@.source_file == source_file@,
            r@.contentuid == contentuid@,
            r@.version == version@,
            r@.source == source@,
            r@.target.len() == 0,
            r@.status == TranslationStatus::Pending,
            r@.error is None,
    {
        let mut id = String::from_str(source_file);
        id.append("#");
        id.append(contentuid);
        let empty = String::new();
        assert(empty@ =~= Seq::<char>::empty());
        TranslationEntry {
            id,
            source_file: String::from_str(source_file),
            source: String::from_str(source),
            target: empty,
            contentuid: String::from_str(contentuid),
            version: String::from_str(version),
            status: TranslationStatus::Pending,
            error: None,
        }
    }

    /// A field-by-field copy.
    pub fn duplicate(&self) -> (r: Self)
        ensures
            r@ == self@,
    {
        TranslationEntry {
            id: self.id.clone(),
            source_file: self.source_file.clone(),
            source: self.source.clone(),
            target: self.target.clone(),
            contentuid: self.contentuid.clone(),
            version: self.version.clone(),
            status: self.status,
            error: match &self.error {
                Some(e) => Some(e.clone()),
                None => None,
            },
        }
    }

    /// Whether the entry still needs translating: it has source text and
    /// no translation.
    pub fn is_pending_translation(&self) -> (r: bool)
        ensures
            r == pending_translation(self@),
    {
        !is_blank_str(self.source.as_str()) && is_blank_str(self.target.as_str())
    }

    /// Whether the entry has translated text.
    pub fn has_target(&self) -> (r: bool)
        ensures
            r == has_target_text(self@),
    {
        !is_blank_str(self.target.as_str())
    }

    /// Whether the translation may be written back: it is non-blank and the
    /// entry is not in error (a rejected translation is kept for display).
    pub fn has_writable_target(&self) -> (r: bool)
        ensures
            r == writable_target(self@),
    {
        self.has_target() && !(match self.status {
            TranslationStatus::Error => true,
            _ => false,
        })
    }

    /// The text written back: the translation when writable, else the source.
    pub fn effective_text(&self) -> (r: &str)
        ensures
            r@ == effective_text_of(self@),
    {
        if self.has_writable_target() {
            self.target.as_str()
        } else {
            self.source.as_str()
        }
    }

    /// Marks the entry translated with `target`, clearing any error.
    pub fn mark_translated(&mut self, target: &str)
        ensures
            final(self)@ == (EntryModel {
                target: target@,
                status: TranslationStatus::Translated,
                error: None,
                ..old(self)@
            }),
    {
        self.target = String::from_str(target);
        self.status = TranslationStatus::Translated;
        self.error = None;
    }

    /// Marks the entry failed with `message`, keeping its translation text.
    pub fn mark_error(&mut self, message: &str)
        ensures
            final(self)@ == (EntryModel {
                status: TranslationStatus::Error,
                error: Some(message@),
                ..old(self)@
            }),
    {
        self.status = TranslationStatus::Error;
        self.error = Some(String::from_str(message));
    }

    /// Appends streamed text to the translation.
    pub fn append_delta(&mut self, delta: &str)
        ensures
            final(self)@ == (EntryModel {
                target: old(self)@.target + delta@,
                status: TranslationStatus::Translating,
                ..old(self)@
            }),
    {
        self.target.append(delta);
        self.status = TranslationStatus::Translating;
    }
}

// ─────────────────────────────────────────────────────────────
// Streaming events
// ─────────────────────────────────────────────────────────────

/// An event pushed to the front end while translating.
#[derive(Debug, Clone, PartialEq, Eq)]
pub enum TranslationEvent {
    /// An entry changed status (started translating).
    Progress { entry_id: String, status: TranslationStatus },
    /// Streamed translation text.
    Delta { entry_id: String, text: String },
    /// One entry finished.
    Done { entry_id: String, text: String },
    /// One entry failed.
    Error { entry_id: String, message: String },
    /// Everything finished.
    AllDone { total: usize, failed: usize },
}

/// The plain-value model of an event.
pub enum EventModel {
    Progress { entry_id: Seq<char>, status: TranslationStatus },
    Delta { entry_id: Seq<char>, text: Seq<char> },
    Done { entry_id: Seq<char>, text: Seq<char> },
    Error { entry_id: Seq<char>, message: Seq<char> },
    AllDone { total: nat, failed: nat },
}

impl View for TranslationEvent {
    type V = EventModel;

    open spec fn view(&self) -> EventModel {
        match self {
            TranslationEvent::Progress { entry_id, status } => EventModel::Progress {
                entry_id: entry_id@,
                status: *status,
            },
            TranslationEvent::Delta { entry_id, text } => EventModel::Delta {
                entry_id: entry_id@,
                text: text@,
            },
            TranslationEvent::Done { entry_id, text } => EventModel::Done {
                entry_id: entry_id@,
                text: text@,
            },
            TranslationEvent::Error { entry_id, message } => EventModel::Error {
                entry_id: entry_id@,
                message: message@,
            },
            TranslationEvent::AllDone { total, failed } => EventModel::AllDone {
                total: *total as nat,
                failed: *failed as nat,
            },
        }
    }
}

/// The entry an event is about (none for `AllDone`).
pub open spec fn event_entry_id(e: EventModel) -> Option<Seq<char>> {
    match e {
        EventModel::Progress { entry_id, .. } => Some(entry_id),
        EventModel::Delta { entry_id, .. } => Some(entry_id),
        EventModel::Done { entry_id, .. } => Some(entry_id),
        EventModel::Error { entry_id, .. } => Some(entry_id),
        EventModel::AllDone { .. } => None,
    }
}

impl TranslationEvent {
    /// The entry started translating.
    pub fn progress(entry_id: &str) -> (r: Self)
        ensures
            r@ == (EventModel::Progress { entry_id: entry_id@, status: TranslationStatus::Translating }),
    {
        TranslationEvent::Progress {
            entry_id: String::from_str(entry_id),
            status: TranslationStatus::Translating,
        }
    }

    pub fn delta(entry_id: &str, text: &str) -> (r: Self)
        ensures
            r@ == (EventModel::Delta { entry_id: entry_id@, text: text@ }),
    {
        TranslationEvent::Delta { entry_id: String::from_str(entry_id), text: String::from_str(text) }
    }

    pub fn done(entry_id: &str, text: &str) -> (r: Self)
        ensures
            r@ == (EventModel::Done { entry_id: entry_id@, text: text@ }),
    {
        TranslationEvent::Done { entry_id: String::from_str(entry_id), text: String::from_str(text) }
    }

    pub fn error(entry_id: &str, message: &str) -> (r: Self)
        ensures
            r@ == (EventModel::Error { entry_id: entry_id@, message: message@ }),
    {
        TranslationEvent::Error {
            entry_id: String::from_str(entry_id),
            message: String::from_str(message),
        }
    }

    /// The entry the event is about (`None` for `AllDone`).
    pub fn entry_id(&self) -> (r: Option<&str>)
        ensures
            match r {
                Some(s) => event_entry_id(self@) == Some(s@),
                None => event_entry_id(self@) is None,
            },
    {
        match self {
            TranslationEvent::Progress { entry_id, .. } => Some(entry_id.as_str()),
            TranslationEvent::Delta { entry_id, .. } => Some(entry_id.as_str()),
            TranslationEvent::Done { entry_id, .. } => Some(entry_id.as_str()),
            TranslationEvent::Error { entry_id, .. } => Some(entry_id.as_str()),
            TranslationEvent::AllDone { .. } => None,
        }
    }
}

// ─────────────────────────────────────────────────────────────
// Extraction result
// ─────────────────────────────────────────────────────────────

/// The result of unpacking an archive.
#[derive(Debug, Clone, PartialEq, Eq)]
pub struct ExtractResult {
    /// The temporary working directory of the unpacked files.
    pub work_dir: String,
    pub files: Vec<PakFile>,
}


// ─────────────────────────────────────────────────────────────
// Connection settings
// ─────────────────────────────────────────────────────────────

/// The API base URL used when none is set.
pub const DEFAULT_BASE_URL: &'static str = "https://api.deepseek.com";

/// The model used when none is set.
pub const DEFAULT_MODEL: &'static str = "deepseek-chat";

/// The number of concurrent requests used when none is set.
pub const DEFAULT_CONCURRENCY: usize = 6;

/// The connection settings of an OpenAI-compatible endpoint, apart from the
/// sampling temperature (a float, which the caller keeps beside them).
#[derive(Debug, Clone, PartialEq, Eq)]
pub struct LlmConnection {
    /// For example `https://api.deepseek.com`, with or without `/v1`
    /// (see [`LlmConnection::chat_completions_url`]).
    pub base_url: String,
    pub api_key: String,
    pub model: String,
    /// Concurrent requests.
    pub concurrency: usize,
}

/// `s` without its trailing `c` characters (`str::trim_end_matches`).
pub open spec fn strip_trailing(s: Seq<char>, c: char) -> Seq<char>
    decreases s.len(),
{
    if s.len() > 0 && s.last() == c {
        strip_trailing(s.drop_last(), c)
    } else {
        s
    }
}

/// The normalized base URL: trimmed, trailing slashes removed, the default
/// where nothing is left.
pub open spec fn normalized_base_url(s: Seq<char>) -> Seq<char> {
    let b = strip_trailing(trim(s), '/');
    if b.len() == 0 {
        DEFAULT_BASE_URL@
    } else {
        b
    }
}

/// The normalized model: trimmed, the default where nothing is left.
pub open spec fn normalized_model(s: Seq<char>) -> Seq<char> {
    if trim(s).len() == 0 {
        DEFAULT_MODEL@
    } else {
        trim(s)
    }
}

/// The concurrency clamped to `1..=64`.
pub open spec fn clamped_concurrency(n: usize) -> usize {
    if n < 1 {
        1
    } else if n > 64 {
        64
    } else {
        n
    }
}

/// The index of the first `?` or `#`: where the query or fragment starts.
pub open spec fn query_start(s: Seq<char>) -> int
    decreases s.len(),
{
    if s.len() == 0 {
        0
    } else if s[0] == '?' || s[0] == '#' {
        0
    } else {
        1 + query_start(s.drop_first())
    }
}

/// The chat/completions endpoint for a base URL: the query and fragment stay
/// at the end; a path that already ends in `/chat/completions` is used as it
/// is, one that ends in `/v1` gets `/chat/completions`, any other gets
/// `/v1/chat/completions` (trailing slashes dropped first).
pub open spec fn completions_url(base: Seq<char>) -> Seq<char> {
    let b = trim(base);
    let q = query_start(b);
    let path = strip_trailing(b.take(q), '/');
    let suffix = b.skip(q);
    let url = if ends_with(path, "/chat/completions"@) {
        path
    } else if ends_with(path, "/v1"@) {
        path + "/chat/completions"@
    } else {
        path + "/v1/chat/completions"@
    };
    url + suffix
}

proof fn lemma_query_start_range(s: Seq<char>)
    ensures
        0 <= query_start(s) <= s.len(),
        query_start(s) < s.len() ==> (s[query_start(s)] == '?' || s[query_start(s)] == '#'),
        forall|k: int| 0 <= k < query_start(s) ==> s[k] != '?' && s[k] != '#',
    decreases s.len(),
{
    if s.len() > 0 && !(s[0] == '?' || s[0] == '#') {
        lemma_query_start_range(s.drop_first());
        assert forall|k: int| 0 <= k < query_start(s) implies s[k] != '?' && s[k] != '#' by {
            if k > 0 {
                assert(s[k] == s.drop_first()[k - 1]);
            }
        }
    }
}

proof fn lemma_query_start_is(s: Seq<char>, i: int)
    requires
        0 <= i <= s.len(),
        i < s.len() ==> (s[i] == '?' || s[i] == '#'),
        forall|k: int| 0 <= k < i ==> s[k] != '?' && s[k] != '#',
    ensures
        query_start(s) == i,
    decreases s.len(),
{
    if s.len() > 0 && i > 0 {
        assert forall|k: int| 0 <= k < i - 1 implies s.drop_first()[k] != '?' && s.drop_first()[k] != '#' by {
            assert(s.drop_first()[k] == s[k + 1]);
        }
        if i - 1 < s.len() - 1 {
            assert(s.drop_first()[i - 1] == s[i]);
        }
        lemma_query_start_is(s.drop_first(), i - 1);
    }
}

fn strip_trailing_exec(v: &[char], c: char) -> (r: Vec<char>)
    ensures
        r@ == strip_trailing(v@, c),
{
    let mut n = v.len();
    assert(v@.take(n as int) =~= v@);
    while n > 0 && v[n - 1] == c
        invariant
            n <= v@.len(),
            strip_trailing(v@, c) == strip_trailing(v@.take(n as int), c),
        decreases n,
    {
        proof {
            assert(v@.take(n as int).drop_last() =~= v@.take(n - 1));
        }
        n = n - 1;
    }
    let r = copy_range(v, 0, n);
    proof {
        assert(r@ =~= v@.take(n as int));
    }
    r
}

impl Default for LlmConnection {
    fn default() -> (r: Self)
        ensures
            r.base_url@ == DEFAULT_BASE_URL@,
            r.api_key@.len() == 0,
            r.model@ == DEFAULT_MODEL@,
            r.concurrency == DEFAULT_CONCURRENCY,
    {
        LlmConnection {
            base_url: String::from_str(DEFAULT_BASE_URL),
            api_key: String::new(),
            model: String::from_str(DEFAULT_MODEL),
            concurrency: DEFAULT_CONCURRENCY,
        }
    }
}

impl LlmConnection {
    /// Trims the strings, drops trailing slashes from the base URL, clamps
    /// the concurrency to `1..=64`, and fills a blank base URL or model with
    /// the default.
    pub fn normalized(self) -> (r: Self)
        ensures
            r.base_url@ == normalized_base_url(self.base_url@),
            r.api_key@ == trim(self.api_key@),
            r.model@ == normalized_model(self.model@),
            r.concurrency == clamped_concurrency(self.concurrency),
    {
        let b = strip_trailing_exec(trim_chars(chars_of(self.base_url.as_str()).as_slice()).as_slice(), '/');
        let base_url = if b.len() == 0 {
            String::from_str(DEFAULT_BASE_URL)
        } else {
            string_of(b.as_slice())
        };
        let m = trim_chars(chars_of(self.model.as_str()).as_slice());
        let model = if m.len() == 0 {
            String::from_str(DEFAULT_MODEL)
        } else {
            string_of(m.as_slice())
        };
        let api_key = string_of(trim_chars(chars_of(self.api_key.as_str()).as_slice()).as_slice());
        let concurrency = if self.concurrency < 1 {
            1
        } else if self.concurrency > 64 {
            64
        } else {
            self.concurrency
        };
        LlmConnection { base_url, api_key, model, concurrency }
    }

    /// The full chat/completions address (see [`completions_url`]).
    pub fn chat_completions_url(&self) -> (r: String)
        ensures
            r@ == completions_url(self.base_url@),
    {
        let b = trim_chars(chars_of(self.base_url.as_str()).as_slice());
        let mut q: usize = 0;
        while q < b.len() && b[q] != '?' && b[q] != '#'
            invariant
                q <= b@.len(),
                forall|k: int| 0 <= k < q ==> b@[k] != '?' && b@[k] != '#',
            decreases b@.len() - q,
        {
            q = q + 1;
        }
        proof {
            lemma_query_start_is(b@, q as int);
        }
        let path = strip_trailing_exec(copy_range(b.as_slice(), 0, q).as_slice(), '/');
        let suffix = copy_range(b.as_slice(), q, b.len());
        proof {
            assert(b@.subrange(0, q as int) =~= b@.take(q as int));
        }
        let mut url = path;
        let ends_chat = ends_with_chars(url.as_slice(), chars_of("/chat/completions").as_slice());
        let ends_v1 = ends_with_chars(url.as_slice(), chars_of("/v1").as_slice());
        if ends_chat {
        } else if ends_v1 {
            extend_str(&mut url, "/chat/completions");
        } else {
            extend_str(&mut url, "/v1/chat/completions");
        }
        extend_chars(&mut url, suffix.as_slice());
        proof {
            assert(b@.subrange(q as int, b@.len() as int) =~= b@.skip(q as int));
        }
        string_of(url.as_slice())
    }

    /// Whether an API key is set, so that requests can be made.
    pub fn is_configured(&self) -> (r: bool)
        ensures
            r == !is_blank(self.api_key@),
    {
        !is_blank_str(self.api_key.as_str())
    }
}

} // verus!
