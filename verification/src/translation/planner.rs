//! Translation planning: cutting the entries into jobs, one request each.
//!
//! Before any request: only pending entries are planned; entries whose
//! consistency key is remembered (a settled translation in the same mod)
//! are completed directly; identical sources share one request
//! (`ExactGroup`), and a series base with at least two variants is
//! translated once (`Series`, the suffixes are put back afterwards).

use vstd::prelude::*;
use crate::glossary::matcher::{found_terms, matches_model, GlossaryMatcher, MatchedTerm, MatcherModel};
use crate::text::{chars_eq, chars_of, string_of};
use crate::translation::series::{
    alias_scan, assoc_get, build_consistency_memory, build_series_aliases, compose_variant_translation,
    composed_translation, consistency_key, consistency_references, entries_view,
    find_consistency_references, memory_lookup, memory_of, normalize_consistency_key,
    series_alias_map, series_split, source_table_of, split_series_variant, terms_view, AliasTable,
    ConsistencyMemory, ConsistencyTerm, MemoryModel, SeriesAliases,
};
use crate::types::{pending_translation, EntryModel, TranslationEntry, TranslationEvent};

verus! {

/// A member of a series group.
#[derive(Debug, Clone, PartialEq, Eq)]
pub struct SeriesMember {
    pub entry_id: String,
    /// The variant suffix, e.g. `9b`.
    pub suffix: String,
}

/// The entries one request covers.
#[derive(Debug, Clone, PartialEq, Eq)]
pub enum TranslationOutput {
    /// One entry.
    Single { entry_id: String },
    /// Entries with the same source (sharing one translation).
    ExactGroup { entry_ids: Vec<String> },
    /// Variants of one series base (only the base is translated).
    Series { members: Vec<SeriesMember> },
}

/// One translation job.
#[derive(Debug, Clone)]
pub struct TranslationJob {
    /// The text sent for translation (the base for `Series`).
    pub source: String,
    /// Glossary terms found in the source, for the prompt.
    pub matches: Vec<MatchedTerm>,
    /// Settled translations from the same mod, for the prompt.
    pub consistency_terms: Vec<ConsistencyTerm>,
    /// How the result is handed out.
    pub output: TranslationOutput,
}

/// Planning counts.
#[derive(Debug, Clone, Copy, PartialEq, Eq)]
pub struct TranslationPlan {
    /// Pending entries (source present, no translation).
    pub total: usize,
    /// Entries completed from the consistency memory without a request.
    pub skipped: usize,
    /// Requests to make.
    pub jobs: usize,
}

impl Default for TranslationPlan {
    fn default() -> (r: Self)
        ensures
            r.total == 0 && r.skipped == 0 && r.jobs == 0,
    {
        TranslationPlan { total: 0, skipped: 0, jobs: 0 }
    }
}

/// The model of a job's output.
pub enum OutputModel {
    Single(Seq<char>),
    ExactGroup(Seq<Seq<char>>),
    Series(Seq<(Seq<char>, Seq<char>)>),
}

/// The model of a job.
pub struct JobModel {
    pub source: Seq<char>,
    pub matches: Seq<(Seq<char>, Seq<char>)>,
    pub refs: Seq<(Seq<char>, Seq<char>)>,
    pub output: OutputModel,
}

pub open spec fn members_model(v: Seq<SeriesMember>) -> Seq<(Seq<char>, Seq<char>)> {
    v.map_values(|m: SeriesMember| (m.entry_id@, m.suffix@))
}

pub open spec fn output_model(o: TranslationOutput) -> OutputModel {
    match o {
        TranslationOutput::Single { entry_id } => OutputModel::Single(entry_id@),
        TranslationOutput::ExactGroup { entry_ids } => OutputModel::ExactGroup(entry_ids@.map_values(|s: String| s@)),
        TranslationOutput::Series { members } => OutputModel::Series(members_model(members@)),
    }
}

pub open spec fn job_model(j: TranslationJob) -> JobModel {
    JobModel {
        source: j.source@,
        matches: matches_model(j.matches@),
        refs: terms_view(j.consistency_terms@),
        output: output_model(j.output),
    }
}

pub open spec fn jobs_model(v: Seq<TranslationJob>) -> Seq<JobModel> {
    v.map_values(|j: TranslationJob| job_model(j))
}

/// The entry ids a job output covers.
pub open spec fn output_ids(o: OutputModel) -> Seq<Seq<char>> {
    match o {
        OutputModel::Single(id) => seq![id],
        OutputModel::ExactGroup(ids) => ids,
        OutputModel::Series(ms) => ms.map_values(|m: (Seq<char>, Seq<char>)| m.0),
    }
}

impl TranslationJob {
    /// The ids of all entries the job covers.
    pub fn target_ids(&self) -> (r: Vec<String>)
        ensures
            r@.map_values(|s: String| s@) == output_ids(output_model(self.output)),
    {
        match &self.output {
            TranslationOutput::Single { entry_id } => {
                let mut v: Vec<String> = Vec::new();
                v.push(entry_id.clone());
                assert(v@.map_values(|s: String| s@) =~= seq![entry_id@]);
                v
            },
            TranslationOutput::ExactGroup { entry_ids } => {
                let mut v: Vec<String> = Vec::new();
                let mut i: usize = 0;
                while i < entry_ids.len()
                    invariant
                        i <= entry_ids@.len(),
                        v@.map_values(|s: String| s@) == entry_ids@.map_values(|s: String| s@).take(i as int),
                    decreases entry_ids@.len() - i,
                {
                    let ghost before = v@.map_values(|s: String| s@);
                    v.push(entry_ids[i].clone());
                    assert(v@.map_values(|s: String| s@) =~= before.push(entry_ids@[i as int]@));
                    assert(entry_ids@.map_values(|s: String| s@).take(i + 1) =~= entry_ids@.map_values(|s: String| s@).take(i as int).push(entry_ids@[i as int]@));
                    i = i + 1;
                }
                assert(entry_ids@.map_values(|s: String| s@).take(i as int) =~= entry_ids@.map_values(|s: String| s@));
                v
            },
            TranslationOutput::Series { members } => {
                let mut v: Vec<String> = Vec::new();
                let mut i: usize = 0;
                let ghost ids = members_model(members@).map_values(|m: (Seq<char>, Seq<char>)| m.0);
                while i < members.len()
                    invariant
                        i <= members@.len(),
                        ids == members_model(members@).map_values(|m: (Seq<char>, Seq<char>)| m.0),
                        v@.map_values(|s: String| s@) == ids.take(i as int),
                    decreases members@.len() - i,
                {
                    let ghost before = v@.map_values(|s: String| s@);
                    v.push(members[i].entry_id.clone());
                    assert(v@.map_values(|s: String| s@) =~= before.push(members@[i as int].entry_id@));
                    assert(ids.take(i + 1) =~= ids.take(i as int).push(members@[i as int].entry_id@));
                    i = i + 1;
                }
                assert(ids.take(i as int) =~= ids);
                v
            },
        }
    }
}

/// The two events of a direct completion: progress, then done.
pub fn done_events(entry_id: &str, text: &str) -> (r: Vec<TranslationEvent>)
    ensures
        r@.len() == 2,
        r@[0]@ == (crate::types::EventModel::Progress { entry_id: entry_id@, status: crate::types::TranslationStatus::Translating }),
        r@[1]@ == (crate::types::EventModel::Done { entry_id: entry_id@, text: text@ }),
{
    let mut v: Vec<TranslationEvent> = Vec::new();
    v.push(TranslationEvent::progress(entry_id));
    v.push(TranslationEvent::done(entry_id, text));
    v
}


/// The events that hand out a job's result, one per covered entry in
/// order: on success `Done` with the translation (for a series member, the
/// base translation with the member's suffix put back); on failure `Error`
/// with the error's message.
pub open spec fn outcome_events(o: OutputModel, result: Result<Seq<char>, Seq<char>>) -> Seq<crate::types::EventModel> {
    match result {
        Err(m) => output_ids(o).map_values(|id: Seq<char>| crate::types::EventModel::Error { entry_id: id, message: m }),
        Ok(t) => match o {
            OutputModel::Series(ms) => ms.map_values(|m: (Seq<char>, Seq<char>)|
                crate::types::EventModel::Done { entry_id: m.0, text: composed_translation(t, m.1) }),
            _ => output_ids(o).map_values(|id: Seq<char>| crate::types::EventModel::Done { entry_id: id, text: t }),
        },
    }
}

/// A job's result as its events (see [`outcome_events`]) and the numbers
/// of entries translated and failed.
pub fn job_outcome_events(job: &TranslationJob, result: &Result<String, crate::error::AppError>) -> (r: (Vec<TranslationEvent>, usize, usize))
    ensures
        r.0@.map_values(|e: TranslationEvent| e@) == outcome_events(output_model(job.output), match result {
            Ok(t) => Ok(t@),
            Err(e) => Err(crate::error::error_message(*e)),
        }),
        result is Ok ==> r.1 == output_ids(output_model(job.output)).len() && r.2 == 0,
        result is Err ==> r.1 == 0 && r.2 == output_ids(output_model(job.output)).len(),
{
    let ghost want = outcome_events(output_model(job.output), match result {
        Ok(t) => Ok(t@),
        Err(e) => Err(crate::error::error_message(*e)),
    });
    let ids = job.target_ids();
    let ghost idv = ids@.map_values(|s: String| s@);
    let mut out: Vec<TranslationEvent> = Vec::new();
    match result {
        Err(e) => {
            let m = e.message();
            let mut i: usize = 0;
            while i < ids.len()
                invariant
                    i <= ids@.len(),
                    idv == ids@.map_values(|s: String| s@),
                    idv == output_ids(output_model(job.output)),
                    want == idv.map_values(|id: Seq<char>| crate::types::EventModel::Error { entry_id: id, message: m@ }),
                    out@.map_values(|e: TranslationEvent| e@) == want.take(i as int),
                decreases ids@.len() - i,
            {
                let ghost before = out@.map_values(|e: TranslationEvent| e@);
                out.push(TranslationEvent::error(ids[i].as_str(), m.as_str()));
                assert(out@.map_values(|e: TranslationEvent| e@) =~= before.push(want[i as int]));
                assert(want.take(i + 1) =~= want.take(i as int).push(want[i as int]));
                i = i + 1;
            }
            assert(want.take(i as int) =~= want);
            (out, 0, ids.len())
        },
        Ok(t) => {
            match &job.output {
                TranslationOutput::Series { members } => {
                    let ghost ms = members_model(members@);
                    let mut i: usize = 0;
                    while i < members.len()
                        invariant
                            i <= members@.len(),
                            ms == members_model(members@),
                            want == ms.map_values(|m: (Seq<char>, Seq<char>)|
                                crate::types::EventModel::Done { entry_id: m.0, text: composed_translation(t@, m.1) }),
                            out@.map_values(|e: TranslationEvent| e@) == want.take(i as int),
                        decreases members@.len() - i,
                    {
                        let ghost before = out@.map_values(|e: TranslationEvent| e@);
                        let text = compose_variant_translation(t.as_str(), members[i].suffix.as_str());
                        out.push(TranslationEvent::done(members[i].entry_id.as_str(), text.as_str()));
                        assert(out@.map_values(|e: TranslationEvent| e@) =~= before.push(want[i as int]));
                        assert(want.take(i + 1) =~= want.take(i as int).push(want[i as int]));
                        i = i + 1;
                    }
                    assert(want.take(i as int) =~= want);
                },
                _ => {
                    let mut i: usize = 0;
                    while i < ids.len()
                        invariant
                            i <= ids@.len(),
                            idv == ids@.map_values(|s: String| s@),
                            want == idv.map_values(|id: Seq<char>| crate::types::EventModel::Done { entry_id: id, text: t@ }),
                            out@.map_values(|e: TranslationEvent| e@) == want.take(i as int),
                        decreases ids@.len() - i,
                    {
                        let ghost before = out@.map_values(|e: TranslationEvent| e@);
                        out.push(TranslationEvent::done(ids[i].as_str(), t.as_str()));
                        assert(out@.map_values(|e: TranslationEvent| e@) =~= before.push(want[i as int]));
                        assert(want.take(i + 1) =~= want.take(i as int).push(want[i as int]));
                        i = i + 1;
                    }
                    assert(want.take(i as int) =~= want);
                },
            }
            (out, ids.len(), 0)
        },
    }
}

// ─────────────────────────────────────────────────────────────
// The plan, as a specification
// ─────────────────────────────────────────────────────────────

/// The pending entries, in order.
pub open spec fn pending_of(es: Seq<EntryModel>) -> Seq<EntryModel>
    decreases es.len(),
{
    if es.len() == 0 {
        Seq::empty()
    } else if pending_translation(es.last()) {
        pending_of(es.drop_last()).push(es.last())
    } else {
        pending_of(es.drop_last())
    }
}

/// A series group being collected: its canonical key, the base source to
/// translate (the first one seen), and its members `(entry id, suffix)`.
pub struct GroupModel {
    pub key: Seq<char>,
    pub base_source: Seq<char>,
    pub members: Seq<(Seq<char>, Seq<char>)>,
}

/// Index of the group with the key.
pub open spec fn group_index(gs: Seq<GroupModel>, key: Seq<char>) -> Option<int>
    decreases gs.len(),
{
    if gs.len() == 0 {
        None
    } else {
        match group_index(gs.drop_last(), key) {
            Some(i) => Some(i),
            None => if gs.last().key == key {
                Some(gs.len() - 1)
            } else {
                None
            },
        }
    }
}

/// Adds a member to the group with the key, opening the group (with this
/// base source) when it is new.
pub open spec fn group_add(gs: Seq<GroupModel>, key: Seq<char>, base_source: Seq<char>, member: (Seq<char>, Seq<char>)) -> Seq<GroupModel> {
    match group_index(gs, key) {
        Some(i) => gs.update(i, GroupModel { members: gs[i].members.push(member), ..gs[i] }),
        None => gs.push(GroupModel { key, base_source, members: seq![member] }),
    }
}

/// What the series pass collects: direct completions `(entry id, text)`,
/// the ids it used, and the groups.
pub struct SeriesState {
    pub done: Seq<(Seq<char>, Seq<char>)>,
    pub used: Seq<Seq<char>>,
    pub groups: Seq<GroupModel>,
}

/// The canonical key of a text's series base.
pub open spec fn canonical(aliases: AliasTable, raw: Seq<char>) -> Seq<char> {
    match assoc_get(aliases, raw) {
        Some(v) => v,
        None => raw,
    }
}

/// The series pass over the pending entries: a variant whose canonical base
/// key is remembered is completed with the remembered translation and its
/// suffix; the others are grouped by canonical base key.
pub open spec fn series_pass(aliases: AliasTable, sources: AliasTable, mem: MemoryModel, pending: Seq<EntryModel>) -> SeriesState
    decreases pending.len(),
{
    if pending.len() == 0 {
        SeriesState { done: Seq::empty(), used: Seq::empty(), groups: Seq::empty() }
    } else {
        let st = series_pass(aliases, sources, mem, pending.drop_last());
        let e = pending.last();
        match series_split(e.source) {
            None => st,
            Some((base, suffix)) => {
                let key = canonical(aliases, consistency_key(base));
                let bs = match assoc_get(sources, key) {
                    Some(v) => v,
                    None => base,
                };
                match memory_lookup(mem, key) {
                    Some(t) => SeriesState {
                        done: st.done.push((e.id, composed_translation(t.1, suffix))),
                        used: st.used.push(e.id),
                        groups: st.groups,
                    },
                    None => SeriesState { groups: group_add(st.groups, key, bs, (e.id, suffix)), ..st },
                }
            },
        }
    }
}

/// The job for a source.
pub open spec fn job_for(m: MatcherModel, mem: MemoryModel, source: Seq<char>, output: OutputModel) -> JobModel {
    JobModel {
        source,
        matches: found_terms(m, m.terms, source),
        refs: consistency_references(source, mem),
        output,
    }
}

/// The series jobs: one per group with at least two members (a single
/// member keeps its own request, with its own glossary matches).
pub open spec fn series_jobs(m: MatcherModel, mem: MemoryModel, gs: Seq<GroupModel>) -> Seq<JobModel>
    decreases gs.len(),
{
    if gs.len() == 0 {
        Seq::empty()
    } else {
        let prev = series_jobs(m, mem, gs.drop_last());
        let g = gs.last();
        if g.members.len() >= 2 {
            prev.push(job_for(m, mem, g.base_source, OutputModel::Series(g.members)))
        } else {
            prev
        }
    }
}

/// The entry ids the series jobs cover, in order.
pub open spec fn series_ids(gs: Seq<GroupModel>) -> Seq<Seq<char>>
    decreases gs.len(),
{
    if gs.len() == 0 {
        Seq::empty()
    } else {
        let g = gs.last();
        if g.members.len() >= 2 {
            series_ids(gs.drop_last()) + g.members.map_values(|mm: (Seq<char>, Seq<char>)| mm.0)
        } else {
            series_ids(gs.drop_last())
        }
    }
}

/// An exact group: the consistency key and its entries.
pub struct ExactModel {
    pub key: Seq<char>,
    pub entries: Seq<EntryModel>,
}

pub open spec fn exact_index(gs: Seq<ExactModel>, key: Seq<char>) -> Option<int>
    decreases gs.len(),
{
    if gs.len() == 0 {
        None
    } else {
        match exact_index(gs.drop_last(), key) {
            Some(i) => Some(i),
            None => if gs.last().key == key {
                Some(gs.len() - 1)
            } else {
                None
            },
        }
    }
}

pub open spec fn exact_add(gs: Seq<ExactModel>, key: Seq<char>, e: EntryModel) -> Seq<ExactModel> {
    match exact_index(gs, key) {
        Some(i) => gs.update(i, ExactModel { key, entries: gs[i].entries.push(e) }),
        None => gs.push(ExactModel { key, entries: seq![e] }),
    }
}

/// What the exact pass collects.
pub struct ExactState {
    pub done: Seq<(Seq<char>, Seq<char>)>,
    pub used: Seq<Seq<char>>,
    pub groups: Seq<ExactModel>,
}

/// The exact pass over the pending entries not used yet: a remembered
/// consistency key completes the entry; the others are grouped by key.
pub open spec fn exact_pass(mem: MemoryModel, used0: Seq<Seq<char>>, pending: Seq<EntryModel>) -> ExactState
    decreases pending.len(),
{
    if pending.len() == 0 {
        ExactState { done: Seq::empty(), used: used0, groups: Seq::empty() }
    } else {
        let st = exact_pass(mem, used0, pending.drop_last());
        let e = pending.last();
        if st.used.contains(e.id) {
            st
        } else {
            let key = consistency_key(e.source);
            match memory_lookup(mem, key) {
                Some(t) => ExactState { done: st.done.push((e.id, t.1)), used: st.used.push(e.id), groups: st.groups },
                None => ExactState { groups: exact_add(st.groups, key, e), ..st },
            }
        }
    }
}

/// The exact jobs: one per group, `Single` for one entry.
pub open spec fn exact_jobs(m: MatcherModel, mem: MemoryModel, gs: Seq<ExactModel>) -> Seq<JobModel>
    decreases gs.len(),
{
    if gs.len() == 0 {
        Seq::empty()
    } else {
        let g = gs.last();
        let ids = g.entries.map_values(|e: EntryModel| e.id);
        let output = if ids.len() == 1 {
            OutputModel::Single(ids[0])
        } else {
            OutputModel::ExactGroup(ids)
        };
        if g.entries.len() == 0 {
            exact_jobs(m, mem, gs.drop_last())
        } else {
            exact_jobs(m, mem, gs.drop_last()).push(job_for(m, mem, g.entries[0].source, output))
        }
    }
}

/// The whole plan of a set of entries: the jobs, the direct completions in
/// order, and the counts.
pub struct PlanModel {
    pub jobs: Seq<JobModel>,
    pub done: Seq<(Seq<char>, Seq<char>)>,
    pub total: nat,
    pub skipped: nat,
}

pub open spec fn plan_of(es: Seq<EntryModel>, m: MatcherModel) -> PlanModel {
    let pending = pending_of(es);
    let mem = memory_of(es);
    let sp = series_pass(series_alias_map(es), source_table_of(alias_scan(es)), mem, pending);
    let used1 = sp.used + series_ids(sp.groups);
    let ep = exact_pass(mem, used1, pending);
    PlanModel {
        jobs: series_jobs(m, mem, sp.groups) + exact_jobs(m, mem, ep.groups),
        done: sp.done + ep.done,
        total: pending.len(),
        skipped: sp.done.len() + ep.done.len(),
    }
}


// ─────────────────────────────────────────────────────────────
// Planning
// ─────────────────────────────────────────────────────────────

struct SeriesGroup {
    key: String,
    base_source: String,
    members: Vec<SeriesMember>,
}

spec fn group_view(g: SeriesGroup) -> GroupModel {
    GroupModel { key: g.key@, base_source: g.base_source@, members: members_model(g.members@) }
}

spec fn groups_view(v: Seq<SeriesGroup>) -> Seq<GroupModel> {
    v.map_values(|g: SeriesGroup| group_view(g))
}

pub open spec fn pairs_view(v: Seq<(String, String)>) -> Seq<(Seq<char>, Seq<char>)> {
    v.map_values(|p: (String, String)| (p.0@, p.1@))
}

pub open spec fn strings_view(v: Seq<String>) -> Seq<Seq<char>> {
    v.map_values(|s: String| s@)
}

spec fn picked(es: Seq<EntryModel>, idx: Seq<usize>) -> Seq<EntryModel> {
    idx.map_values(|i: usize| es[i as int])
}

proof fn lemma_group_index(gs: Seq<GroupModel>, key: Seq<char>)
    ensures
        match group_index(gs, key) {
            Some(i) => 0 <= i < gs.len() && gs[i].key == key && forall|j: int| 0 <= j < i ==> gs[j].key != key,
            None => forall|j: int| 0 <= j < gs.len() ==> gs[j].key != key,
        },
    decreases gs.len(),
{
    if gs.len() > 0 {
        lemma_group_index(gs.drop_last(), key);
        match group_index(gs.drop_last(), key) {
            Some(i) => {
                assert forall|j: int| 0 <= j < i implies gs[j].key != key by {
                    assert(gs[j] == gs.drop_last()[j]);
                }
            },
            None => {
                assert forall|j: int| 0 <= j < gs.len() - 1 implies gs[j].key != key by {
                    assert(gs[j] == gs.drop_last()[j]);
                }
            },
        }
    }
}

fn find_group(gs: &Vec<SeriesGroup>, key: &str) -> (r: Option<usize>)
    ensures
        match group_index(groups_view(gs@), key@) {
            Some(i) => r matches Some(j) && j as int == i && 0 <= i < gs@.len(),
            None => r is None,
        },
{
    let ghost v = groups_view(gs@);
    let kv = chars_of(key);
    let mut i: usize = 0;
    while i < gs.len()
        invariant
            i <= gs@.len(),
            v == groups_view(gs@),
            kv@ == key@,
            forall|j: int| 0 <= j < i ==> v[j].key != key@,
        decreases gs@.len() - i,
    {
        assert(v[i as int] == group_view(gs@[i as int]));
        if crate::text::chars_eq_str(kv.as_slice(), gs[i].key.as_str()) {
            proof {
                lemma_group_index(v, key@);
                match group_index(v, key@) {
                    Some(k) => {
                        if k < i {
                            assert(false);
                        }
                        if k > i {
                            assert(v[i as int].key != key@);
                        }
                    },
                    None => {
                        assert(v[i as int].key != key@);
                    },
                }
            }
            return Some(i);
        }
        i = i + 1;
    }
    proof {
        lemma_group_index(v, key@);
    }
    None
}

fn add_to_group(gs: &mut Vec<SeriesGroup>, key: &str, base_source: &str, entry_id: &str, suffix: &str)
    ensures
        groups_view(final(gs)@) == group_add(groups_view(old(gs)@), key@, base_source@, (entry_id@, suffix@)),
{
    let ghost v = groups_view(gs@);
    let member = SeriesMember { entry_id: String::from_str(entry_id), suffix: String::from_str(suffix) };
    match find_group(gs, key) {
        Some(i) => {
            let mut g = gs.remove(i);
            let ghost gm = members_model(g.members@);
            g.members.push(member);
            assert(members_model(g.members@) =~= gm.push((entry_id@, suffix@)));
            gs.insert(i, g);
            assert(groups_view(gs@) =~= v.update(i as int, GroupModel { members: v[i as int].members.push((entry_id@, suffix@)), ..v[i as int] }));
        },
        None => {
            let mut ms: Vec<SeriesMember> = Vec::new();
            ms.push(member);
            assert(members_model(ms@) =~= seq![(entry_id@, suffix@)]);
            gs.push(SeriesGroup { key: String::from_str(key), base_source: String::from_str(base_source), members: ms });
            assert(groups_view(gs@) =~= v.push(GroupModel { key: key@, base_source: base_source@, members: seq![(entry_id@, suffix@)] }));
        },
    }
}

fn pending_indices(entries: &[TranslationEntry]) -> (r: Vec<usize>)
    ensures
        forall|k: int| 0 <= k < r@.len() ==> (#[trigger] r@[k]) < entries@.len(),
        picked(entries_view(entries@), r@) == pending_of(entries_view(entries@)),
{
    let ghost es = entries_view(entries@);
    let mut out: Vec<usize> = Vec::new();
    let mut i: usize = 0;
    assert(es.take(0) =~= Seq::<EntryModel>::empty());
    assert(picked(es, out@) =~= Seq::<EntryModel>::empty());
    while i < entries.len()
        invariant
            i <= entries@.len(),
            es == entries_view(entries@),
            forall|k: int| 0 <= k < out@.len() ==> (#[trigger] out@[k]) < i,
            picked(es, out@) == pending_of(es.take(i as int)),
        decreases entries@.len() - i,
    {
        assert(es.take(i + 1).drop_last() =~= es.take(i as int));
        assert(es.take(i + 1).last() == entries@[i as int]@);
        if entries[i].is_pending_translation() {
            let ghost before = picked(es, out@);
            out.push(i);
            assert(picked(es, out@) =~= before.push(es[i as int]));
        }
        i = i + 1;
    }
    assert(es.take(i as int) =~= es);
    out
}

fn contains_string(v: &Vec<String>, s: &str) -> (r: bool)
    ensures
        r == strings_view(v@).contains(s@),
{
    let sv = chars_of(s);
    let mut i: usize = 0;
    while i < v.len()
        invariant
            i <= v@.len(),
            sv@ == s@,
            forall|j: int| 0 <= j < i ==> v@[j]@ != s@,
        decreases v@.len() - i,
    {
        if crate::text::chars_eq_str(sv.as_slice(), v[i].as_str()) {
            assert(strings_view(v@)[i as int] == s@);
            return true;
        }
        i = i + 1;
    }
    proof {
        if strings_view(v@).contains(s@) {
            let j = choose|j: int| 0 <= j < strings_view(v@).len() && strings_view(v@)[j] == s@;
            assert(v@[j]@ == s@);
        }
    }
    false
}

fn series_phase(
    entries: &[TranslationEntry],
    pending: &Vec<usize>,
    aliases: &SeriesAliases,
    memory: &ConsistencyMemory,
) -> (r: (Vec<(String, String)>, Vec<String>, Vec<SeriesGroup>))
    requires
        aliases.wf(),
        forall|k: int| 0 <= k < pending@.len() ==> (#[trigger] pending@[k]) < entries@.len(),
    ensures
        pairs_view(r.0@) == series_pass(aliases.alias_table(), aliases.source_table(), memory@, picked(entries_view(entries@), pending@)).done,
        strings_view(r.1@) == series_pass(aliases.alias_table(), aliases.source_table(), memory@, picked(entries_view(entries@), pending@)).used,
        groups_view(r.2@) == series_pass(aliases.alias_table(), aliases.source_table(), memory@, picked(entries_view(entries@), pending@)).groups,
{
    let ghost es = entries_view(entries@);
    let ghost ps = picked(es, pending@);
    let ghost at = aliases.alias_table();
    let ghost st = aliases.source_table();
    let mut done: Vec<(String, String)> = Vec::new();
    let mut used: Vec<String> = Vec::new();
    let mut groups: Vec<SeriesGroup> = Vec::new();
    let mut k: usize = 0;
    assert(ps.take(0) =~= Seq::<EntryModel>::empty());
    assert(pairs_view(done@) =~= Seq::<(Seq<char>, Seq<char>)>::empty());
    assert(strings_view(used@) =~= Seq::<Seq<char>>::empty());
    assert(groups_view(groups@) =~= Seq::<GroupModel>::empty());
    while k < pending.len()
        invariant
            k <= pending@.len(),
            aliases.wf(),
            at == aliases.alias_table(),
            st == aliases.source_table(),
            es == entries_view(entries@),
            ps == picked(es, pending@),
            forall|q: int| 0 <= q < pending@.len() ==> (#[trigger] pending@[q]) < entries@.len(),
            pairs_view(done@) == series_pass(at, st, memory@, ps.take(k as int)).done,
            strings_view(used@) == series_pass(at, st, memory@, ps.take(k as int)).used,
            groups_view(groups@) == series_pass(at, st, memory@, ps.take(k as int)).groups,
        decreases pending@.len() - k,
    {
        let idx = pending[k];
        let e = &entries[idx];
        assert(ps[k as int] == es[idx as int]);
        assert(es[idx as int] == e@);
        assert(ps.take(k + 1).drop_last() =~= ps.take(k as int));
        assert(ps.take(k + 1).last() == e@);
        match split_series_variant(e.source.as_str()) {
            None => {},
            Some(variant) => {
                let raw = normalize_consistency_key(variant.base.as_str());
                let key = aliases.canonical_key(raw.as_str());
                let base_source = aliases.source_for(key.as_str(), variant.base.as_str());
                match memory.get(key.as_str()) {
                    Some(term) => {
                        let text = compose_variant_translation(term.target.as_str(), variant.suffix.as_str());
                        let ghost d0 = pairs_view(done@);
                        let ghost u0 = strings_view(used@);
                        done.push((e.id.clone(), text));
                        used.push(e.id.clone());
                        assert(pairs_view(done@) =~= d0.push((e.id@, composed_translation(term.target@, variant.suffix@))));
                        assert(strings_view(used@) =~= u0.push(e.id@));
                    },
                    None => {
                        add_to_group(&mut groups, key.as_str(), base_source.as_str(), e.id.as_str(), variant.suffix.as_str());
                    },
                }
            },
        }
        k = k + 1;
    }
    assert(ps.take(k as int) =~= ps);
    (done, used, groups)
}


fn make_job(matcher: &GlossaryMatcher, memory: &ConsistencyMemory, source: &str, output: TranslationOutput) -> (r: TranslationJob)
    requires
        matcher.wf(),
    ensures
        job_model(r) == job_for(matcher.model(), memory@, source@, output_model(output)),
{
    TranslationJob {
        source: String::from_str(source),
        matches: matcher.find_matches(source),
        consistency_terms: find_consistency_references(source, memory),
        output,
    }
}

fn copy_members(v: &Vec<SeriesMember>) -> (r: Vec<SeriesMember>)
    ensures
        members_model(r@) == members_model(v@),
{
    let mut out: Vec<SeriesMember> = Vec::new();
    let mut i: usize = 0;
    while i < v.len()
        invariant
            i <= v@.len(),
            members_model(out@) == members_model(v@).take(i as int),
        decreases v@.len() - i,
    {
        let ghost before = members_model(out@);
        out.push(SeriesMember { entry_id: v[i].entry_id.clone(), suffix: v[i].suffix.clone() });
        assert(members_model(out@) =~= before.push((v@[i as int].entry_id@, v@[i as int].suffix@)));
        assert(members_model(v@).take(i + 1) =~= members_model(v@).take(i as int).push((v@[i as int].entry_id@, v@[i as int].suffix@)));
        i = i + 1;
    }
    assert(members_model(v@).take(i as int) =~= members_model(v@));
    out
}

fn series_jobs_exec(groups: &Vec<SeriesGroup>, matcher: &GlossaryMatcher, memory: &ConsistencyMemory) -> (r: (Vec<TranslationJob>, Vec<String>))
    requires
        matcher.wf(),
    ensures
        jobs_model(r.0@) == series_jobs(matcher.model(), memory@, groups_view(groups@)),
        strings_view(r.1@) == series_ids(groups_view(groups@)),
{
    let ghost gv = groups_view(groups@);
    let mut jobs: Vec<TranslationJob> = Vec::new();
    let mut ids: Vec<String> = Vec::new();
    let mut i: usize = 0;
    assert(gv.take(0) =~= Seq::<GroupModel>::empty());
    assert(jobs_model(jobs@) =~= Seq::<JobModel>::empty());
    assert(strings_view(ids@) =~= Seq::<Seq<char>>::empty());
    while i < groups.len()
        invariant
            i <= groups@.len(),
            matcher.wf(),
            gv == groups_view(groups@),
            jobs_model(jobs@) == series_jobs(matcher.model(), memory@, gv.take(i as int)),
            strings_view(ids@) == series_ids(gv.take(i as int)),
        decreases groups@.len() - i,
    {
        let g = &groups[i];
        assert(gv[i as int] == group_view(*g));
        assert(gv.take(i + 1).drop_last() =~= gv.take(i as int));
        assert(gv.take(i + 1).last() == gv[i as int]);
        if g.members.len() >= 2 {
            let ghost ids0 = strings_view(ids@);
            let ghost mids = members_model(g.members@).map_values(|mm: (Seq<char>, Seq<char>)| mm.0);
            let mut j: usize = 0;
            while j < g.members.len()
                invariant
                    j <= g.members@.len(),
                    mids == members_model(g.members@).map_values(|mm: (Seq<char>, Seq<char>)| mm.0),
                    strings_view(ids@) == ids0 + mids.take(j as int),
                decreases g.members@.len() - j,
            {
                let ghost before = strings_view(ids@);
                ids.push(g.members[j].entry_id.clone());
                assert(strings_view(ids@) =~= before.push(g.members@[j as int].entry_id@));
                assert(mids.take(j + 1) =~= mids.take(j as int).push(g.members@[j as int].entry_id@));
                assert(ids0 + mids.take(j + 1) =~= (ids0 + mids.take(j as int)).push(g.members@[j as int].entry_id@));
                j = j + 1;
            }
            assert(mids.take(j as int) =~= mids);
            let members = copy_members(&g.members);
            let job = make_job(matcher, memory, g.base_source.as_str(), TranslationOutput::Series { members });
            let ghost jb = jobs_model(jobs@);
            jobs.push(job);
            assert(jobs_model(jobs@) =~= jb.push(job_model(jobs@.last())));
        }
        i = i + 1;
    }
    assert(gv.take(i as int) =~= gv);
    (jobs, ids)
}

struct ExactGroup {
    key: String,
    entries: Vec<usize>,
}

spec fn exact_view(es: Seq<EntryModel>, g: ExactGroup) -> ExactModel {
    ExactModel { key: g.key@, entries: picked(es, g.entries@) }
}

spec fn exacts_view(es: Seq<EntryModel>, v: Seq<ExactGroup>) -> Seq<ExactModel> {
    v.map_values(|g: ExactGroup| exact_view(es, g))
}

proof fn lemma_exact_index(gs: Seq<ExactModel>, key: Seq<char>)
    ensures
        match exact_index(gs, key) {
            Some(i) => 0 <= i < gs.len() && gs[i].key == key && forall|j: int| 0 <= j < i ==> gs[j].key != key,
            None => forall|j: int| 0 <= j < gs.len() ==> gs[j].key != key,
        },
    decreases gs.len(),
{
    if gs.len() > 0 {
        lemma_exact_index(gs.drop_last(), key);
        match exact_index(gs.drop_last(), key) {
            Some(i) => {
                assert forall|j: int| 0 <= j < i implies gs[j].key != key by {
                    assert(gs[j] == gs.drop_last()[j]);
                }
            },
            None => {
                assert forall|j: int| 0 <= j < gs.len() - 1 implies gs[j].key != key by {
                    assert(gs[j] == gs.drop_last()[j]);
                }
            },
        }
    }
}

fn add_exact(gs: &mut Vec<ExactGroup>, key: &str, idx: usize, Ghost(es): Ghost<Seq<EntryModel>>)
    requires
        idx < es.len(),
        forall|g: int, q: int| 0 <= g < old(gs)@.len() && 0 <= q < old(gs)@[g].entries@.len() ==> (#[trigger] old(gs)@[g].entries@[q]) < es.len(),
    ensures
        exacts_view(es, final(gs)@) == exact_add(exacts_view(es, old(gs)@), key@, es[idx as int]),
        forall|g: int, q: int| 0 <= g < final(gs)@.len() && 0 <= q < final(gs)@[g].entries@.len() ==> (#[trigger] final(gs)@[g].entries@[q]) < es.len(),
{
    let ghost v = exacts_view(es, gs@);
    let kv = chars_of(key);
    let mut i: usize = 0;
    while i < gs.len()
        invariant
            i <= gs@.len(),
            v == exacts_view(es, gs@),
            v == exacts_view(es, old(gs)@),
            gs@ == old(gs)@,
            kv@ == key@,
            idx < es.len(),
            forall|g: int, q: int| 0 <= g < gs@.len() && 0 <= q < gs@[g].entries@.len() ==> (#[trigger] gs@[g].entries@[q]) < es.len(),
            forall|j: int| 0 <= j < i ==> v[j].key != key@,
        decreases gs@.len() - i,
    {
        assert(v[i as int] == exact_view(es, gs@[i as int]));
        if crate::text::chars_eq_str(kv.as_slice(), gs[i].key.as_str()) {
            proof {
                lemma_exact_index(v, key@);
                match exact_index(v, key@) {
                    Some(k) => {
                        if k < i {
                            assert(false);
                        }
                        if k > i {
                            assert(v[i as int].key != key@);
                        }
                    },
                    None => {
                        assert(v[i as int].key != key@);
                    },
                }
            }
            assert(exact_index(v, key@) == Some(i as int));
            let ghost old_gs = gs@;
            let mut g = gs.remove(i);
            let ghost p0 = picked(es, g.entries@);
            assert(v[i as int].entries == p0);
            let ghost e0 = g.entries@;
            g.entries.push(idx);
            assert(picked(es, g.entries@) =~= p0.push(es[idx as int]));
            gs.insert(i, g);
            assert(exacts_view(es, gs@) =~= v.update(i as int, ExactModel { key: key@, entries: v[i as int].entries.push(es[idx as int]) }));
            assert(exact_add(v, key@, es[idx as int]) == v.update(i as int, ExactModel { key: key@, entries: v[i as int].entries.push(es[idx as int]) }));
            assert(exacts_view(es, gs@) == exact_add(v, key@, es[idx as int]));
            assert forall|gg: int, q: int| 0 <= gg < gs@.len() && 0 <= q < gs@[gg].entries@.len() implies (#[trigger] gs@[gg].entries@[q]) < es.len() by {
                if gg == i {
                    if q < e0.len() {
                        assert(gs@[gg].entries@[q] == old_gs[gg].entries@[q]);
                    }
                } else {
                    assert(gs@[gg] == old_gs[gg]);
                }
            }
            return;
        }
        i = i + 1;
    }
    proof {
        lemma_exact_index(v, key@);
    }
    let mut ents: Vec<usize> = Vec::new();
    ents.push(idx);
    assert(picked(es, ents@) =~= seq![es[idx as int]]);
    let ghost old_gs = gs@;
    gs.push(ExactGroup { key: String::from_str(key), entries: ents });
    assert(exacts_view(es, gs@) =~= v.push(ExactModel { key: key@, entries: seq![es[idx as int]] }));
    assert forall|gg: int, q: int| 0 <= gg < gs@.len() && 0 <= q < gs@[gg].entries@.len() implies (#[trigger] gs@[gg].entries@[q]) < es.len() by {
        if gg < old_gs.len() {
            assert(gs@[gg] == old_gs[gg]);
        }
    }
}

fn exact_phase(
    entries: &[TranslationEntry],
    pending: &Vec<usize>,
    memory: &ConsistencyMemory,
    used0: Vec<String>,
) -> (r: (Vec<(String, String)>, Vec<String>, Vec<ExactGroup>))
    requires
        forall|k: int| 0 <= k < pending@.len() ==> (#[trigger] pending@[k]) < entries@.len(),
    ensures
        pairs_view(r.0@) == exact_pass(memory@, strings_view(used0@), picked(entries_view(entries@), pending@)).done,
        strings_view(r.1@) == exact_pass(memory@, strings_view(used0@), picked(entries_view(entries@), pending@)).used,
        exacts_view(entries_view(entries@), r.2@) == exact_pass(memory@, strings_view(used0@), picked(entries_view(entries@), pending@)).groups,
        forall|g: int, q: int| 0 <= g < r.2@.len() && 0 <= q < r.2@[g].entries@.len() ==> (#[trigger] r.2@[g].entries@[q]) < entries@.len(),
{
    let ghost es = entries_view(entries@);
    let ghost ps = picked(es, pending@);
    let ghost u0 = strings_view(used0@);
    let mut done: Vec<(String, String)> = Vec::new();
    let mut used = used0;
    let mut groups: Vec<ExactGroup> = Vec::new();
    let mut k: usize = 0;
    assert(ps.take(0) =~= Seq::<EntryModel>::empty());
    assert(pairs_view(done@) =~= Seq::<(Seq<char>, Seq<char>)>::empty());
    assert(exacts_view(es, groups@) =~= Seq::<ExactModel>::empty());
    while k < pending.len()
        invariant
            k <= pending@.len(),
            es == entries_view(entries@),
            ps == picked(es, pending@),
            forall|q: int| 0 <= q < pending@.len() ==> (#[trigger] pending@[q]) < entries@.len(),
            pairs_view(done@) == exact_pass(memory@, u0, ps.take(k as int)).done,
            strings_view(used@) == exact_pass(memory@, u0, ps.take(k as int)).used,
            exacts_view(es, groups@) == exact_pass(memory@, u0, ps.take(k as int)).groups,
            forall|g: int, q: int| 0 <= g < groups@.len() && 0 <= q < groups@[g].entries@.len() ==> (#[trigger] groups@[g].entries@[q]) < entries@.len(),
        decreases pending@.len() - k,
    {
        let idx = pending[k];
        let e = &entries[idx];
        assert(ps[k as int] == es[idx as int]);
        assert(es[idx as int] == e@);
        assert(ps.take(k + 1).drop_last() =~= ps.take(k as int));
        assert(ps.take(k + 1).last() == e@);
        if !contains_string(&used, e.id.as_str()) {
            let key = normalize_consistency_key(e.source.as_str());
            match memory.get(key.as_str()) {
                Some(term) => {
                    let ghost d0 = pairs_view(done@);
                    let ghost us0 = strings_view(used@);
                    done.push((e.id.clone(), term.target.clone()));
                    used.push(e.id.clone());
                    assert(pairs_view(done@) =~= d0.push((e.id@, term.target@)));
                    assert(strings_view(used@) =~= us0.push(e.id@));
                },
                None => {
                    add_exact(&mut groups, key.as_str(), idx, Ghost(es));
                },
            }
        }
        k = k + 1;
    }
    assert(ps.take(k as int) =~= ps);
    (done, used, groups)
}


fn exact_jobs_exec(
    entries: &[TranslationEntry],
    groups: &Vec<ExactGroup>,
    matcher: &GlossaryMatcher,
    memory: &ConsistencyMemory,
) -> (r: Vec<TranslationJob>)
    requires
        matcher.wf(),
        forall|g: int, q: int| 0 <= g < groups@.len() && 0 <= q < groups@[g].entries@.len() ==> (#[trigger] groups@[g].entries@[q]) < entries@.len(),
    ensures
        jobs_model(r@) == exact_jobs(matcher.model(), memory@, exacts_view(entries_view(entries@), groups@)),
{
    let ghost es = entries_view(entries@);
    let ghost gv = exacts_view(es, groups@);
    let mut jobs: Vec<TranslationJob> = Vec::new();
    let mut i: usize = 0;
    assert(gv.take(0) =~= Seq::<ExactModel>::empty());
    assert(jobs_model(jobs@) =~= Seq::<JobModel>::empty());
    while i < groups.len()
        invariant
            i <= groups@.len(),
            matcher.wf(),
            es == entries_view(entries@),
            gv == exacts_view(es, groups@),
            forall|g: int, q: int| 0 <= g < groups@.len() && 0 <= q < groups@[g].entries@.len() ==> (#[trigger] groups@[g].entries@[q]) < entries@.len(),
            jobs_model(jobs@) == exact_jobs(matcher.model(), memory@, gv.take(i as int)),
        decreases groups@.len() - i,
    {
        let g = &groups[i];
        assert(gv[i as int] == exact_view(es, *g));
        assert(gv.take(i + 1).drop_last() =~= gv.take(i as int));
        assert(gv.take(i + 1).last() == gv[i as int]);
        if g.entries.len() > 0 {
            let ghost gm = gv[i as int];
            let ghost ids_spec = gm.entries.map_values(|e: EntryModel| e.id);
            let mut ids: Vec<String> = Vec::new();
            let mut j: usize = 0;
            while j < g.entries.len()
                invariant
                    j <= g.entries@.len(),
                    es == entries_view(entries@),
                    gm == exact_view(es, *g),
                    ids_spec == gm.entries.map_values(|e: EntryModel| e.id),
                    forall|q: int| 0 <= q < g.entries@.len() ==> (#[trigger] g.entries@[q]) < entries@.len(),
                    strings_view(ids@) == ids_spec.take(j as int),
                decreases g.entries@.len() - j,
            {
                let ei = g.entries[j];
                assert(gm.entries[j as int] == es[ei as int]);
                let ghost before = strings_view(ids@);
                ids.push(entries[ei].id.clone());
                assert(strings_view(ids@) =~= before.push(entries@[ei as int].id@));
                assert(ids_spec.take(j + 1) =~= ids_spec.take(j as int).push(es[ei as int].id));
                j = j + 1;
            }
            assert(ids_spec.take(j as int) =~= ids_spec);
            let first = g.entries[0];
            assert(gm.entries[0] == es[first as int]);
            let output = if ids.len() == 1 {
                TranslationOutput::Single { entry_id: ids[0].clone() }
            } else {
                TranslationOutput::ExactGroup { entry_ids: ids }
            };
            let job = make_job(matcher, memory, entries[first].source.as_str(), output);
            let ghost jb = jobs_model(jobs@);
            jobs.push(job);
            assert(jobs_model(jobs@) =~= jb.push(job_model(jobs@.last())));
        }
        i = i + 1;
    }
    assert(gv.take(i as int) =~= gv);
    jobs
}

/// Plans the jobs for a set of entries (see [`plan_of`]): the jobs, the
/// counts, and the entries completed directly as `(entry id, text)` in
/// order (each is reported as progress, then done).
pub fn plan_jobs(entries: &[TranslationEntry], matcher: &GlossaryMatcher) -> (r: (Vec<TranslationJob>, TranslationPlan, Vec<(String, String)>))
    requires
        matcher.wf(),
    ensures
        jobs_model(r.0@) == plan_of(entries_view(entries@), matcher.model()).jobs,
        pairs_view(r.2@) == plan_of(entries_view(entries@), matcher.model()).done,
        r.1.total == plan_of(entries_view(entries@), matcher.model()).total,
        r.1.skipped == plan_of(entries_view(entries@), matcher.model()).skipped,
        r.1.jobs == r.0@.len(),
{
    let ghost es = entries_view(entries@);
    let pending = pending_indices(entries);
    let aliases = build_series_aliases(entries);
    let memory = build_consistency_memory(entries);
    let (done1, used1, groups) = series_phase(entries, &pending, &aliases, &memory);
    let (mut jobs, ids) = series_jobs_exec(&groups, matcher, &memory);
    let mut used = used1;
    let ghost u1 = strings_view(used@);
    let mut k: usize = 0;
    while k < ids.len()
        invariant
            k <= ids@.len(),
            strings_view(used@) == u1 + strings_view(ids@).take(k as int),
        decreases ids@.len() - k,
    {
        let ghost before = strings_view(used@);
        used.push(ids[k].clone());
        assert(strings_view(used@) =~= before.push(ids@[k as int]@));
        assert(strings_view(ids@).take(k + 1) =~= strings_view(ids@).take(k as int).push(ids@[k as int]@));
        assert(u1 + strings_view(ids@).take(k + 1) =~= (u1 + strings_view(ids@).take(k as int)).push(ids@[k as int]@));
        k = k + 1;
    }
    assert(strings_view(ids@).take(k as int) =~= strings_view(ids@));
    let (mut done2, _used2, egroups) = exact_phase(entries, &pending, &memory, used);
    let mut ejobs = exact_jobs_exec(entries, &egroups, matcher, &memory);
    let ghost j1 = jobs_model(jobs@);
    let ghost j2 = jobs_model(ejobs@);
    jobs.append(&mut ejobs);
    assert(jobs_model(jobs@) =~= j1 + j2);
    let mut done = done1;
    let ghost d1 = pairs_view(done@);
    let ghost d2 = pairs_view(done2@);
    done.append(&mut done2);
    assert(pairs_view(done@) =~= d1 + d2);
    let plan = TranslationPlan { total: pending.len(), skipped: done.len(), jobs: jobs.len() };
    (jobs, plan, done)
}


// ─────────────────────────────────────────────────────────────
// Every pending entry is planned exactly once
// ─────────────────────────────────────────────────────────────

/// The ids of entries.
pub open spec fn ids_of(es: Seq<EntryModel>) -> Seq<Seq<char>> {
    es.map_values(|e: EntryModel| e.id)
}

/// The ids of direct completions.
pub open spec fn done_ids(d: Seq<(Seq<char>, Seq<char>)>) -> Seq<Seq<char>> {
    d.map_values(|p: (Seq<char>, Seq<char>)| p.0)
}

/// The entry ids all jobs cover, job after job.
pub open spec fn jobs_targets(js: Seq<JobModel>) -> Seq<Seq<char>>
    decreases js.len(),
{
    if js.len() == 0 {
        Seq::empty()
    } else {
        jobs_targets(js.drop_last()) + output_ids(js.last().output)
    }
}

/// The ids of the pending entries that are series variants.
spec fn split_ids(p: Seq<EntryModel>) -> Seq<Seq<char>>
    decreases p.len(),
{
    if p.len() == 0 {
        Seq::empty()
    } else if series_split(p.last().source) is Some {
        split_ids(p.drop_last()).push(p.last().id)
    } else {
        split_ids(p.drop_last())
    }
}

/// The ids of the pending entries that are not series variants.
spec fn plain_ids(p: Seq<EntryModel>) -> Seq<Seq<char>>
    decreases p.len(),
{
    if p.len() == 0 {
        Seq::empty()
    } else if series_split(p.last().source) is Some {
        plain_ids(p.drop_last())
    } else {
        plain_ids(p.drop_last()).push(p.last().id)
    }
}

/// The ids of the pending entries not in `used`.
spec fn unused_ids(p: Seq<EntryModel>, used: Seq<Seq<char>>) -> Seq<Seq<char>>
    decreases p.len(),
{
    if p.len() == 0 {
        Seq::empty()
    } else if used.contains(p.last().id) {
        unused_ids(p.drop_last(), used)
    } else {
        unused_ids(p.drop_last(), used).push(p.last().id)
    }
}

/// The member ids of series groups.
spec fn member_ids(gs: Seq<GroupModel>) -> Seq<Seq<char>>
    decreases gs.len(),
{
    if gs.len() == 0 {
        Seq::empty()
    } else {
        member_ids(gs.drop_last()) + gs.last().members.map_values(|mm: (Seq<char>, Seq<char>)| mm.0)
    }
}

/// The member ids of series groups too small for a series job.
spec fn small_ids(gs: Seq<GroupModel>) -> Seq<Seq<char>>
    decreases gs.len(),
{
    if gs.len() == 0 {
        Seq::empty()
    } else if gs.last().members.len() >= 2 {
        small_ids(gs.drop_last())
    } else {
        small_ids(gs.drop_last()) + gs.last().members.map_values(|mm: (Seq<char>, Seq<char>)| mm.0)
    }
}

/// The entry ids of exact groups.
spec fn exact_ids(gs: Seq<ExactModel>) -> Seq<Seq<char>>
    decreases gs.len(),
{
    if gs.len() == 0 {
        Seq::empty()
    } else {
        exact_ids(gs.drop_last()) + ids_of(gs.last().entries)
    }
}

proof fn lemma_ids_split(p: Seq<EntryModel>)
    ensures
        ids_of(p).to_multiset() =~= split_ids(p).to_multiset().add(plain_ids(p).to_multiset()),
    decreases p.len(),
{
    broadcast use vstd::seq_lib::group_to_multiset_ensures;
    if p.len() > 0 {
        lemma_ids_split(p.drop_last());
        assert(ids_of(p) =~= ids_of(p.drop_last()).push(p.last().id));
    } else {
        assert(ids_of(p) =~= Seq::<Seq<char>>::empty());
    }
}

proof fn lemma_member_ids_update(gs: Seq<GroupModel>, i: int, m: (Seq<char>, Seq<char>))
    requires
        0 <= i < gs.len(),
    ensures
        member_ids(gs.update(i, GroupModel { members: gs[i].members.push(m), ..gs[i] })).to_multiset()
            =~= member_ids(gs).to_multiset().insert(m.0),
    decreases gs.len(),
{
    broadcast use vstd::seq_lib::group_to_multiset_ensures, vstd::seq_lib::lemma_multiset_commutative;
    let g2 = GroupModel { members: gs[i].members.push(m), ..gs[i] };
    let u = gs.update(i, g2);
    let f = |mm: (Seq<char>, Seq<char>)| mm.0;
    assert(g2.members.map_values(f) =~= gs[i].members.map_values(f).push(m.0));
    if i == gs.len() - 1 {
        assert(u.drop_last() =~= gs.drop_last());
        assert(u.last() == g2);
    } else {
        lemma_member_ids_update(gs.drop_last(), i, m);
        assert(u.drop_last() =~= gs.drop_last().update(i, g2));
        assert(u.last() == gs.last());
    }
}

proof fn lemma_group_add(gs: Seq<GroupModel>, key: Seq<char>, bs: Seq<char>, m: (Seq<char>, Seq<char>))
    ensures
        member_ids(group_add(gs, key, bs, m)).to_multiset() =~= member_ids(gs).to_multiset().insert(m.0),
{
    broadcast use vstd::seq_lib::group_to_multiset_ensures, vstd::seq_lib::lemma_multiset_commutative;
    lemma_group_index(gs, key);
    match group_index(gs, key) {
        Some(i) => {
            lemma_member_ids_update(gs, i, m);
        },
        None => {
            let g = GroupModel { key, base_source: bs, members: seq![m] };
            let a = gs.push(g);
            assert(a.drop_last() =~= gs);
            assert(g.members.map_values(|mm: (Seq<char>, Seq<char>)| mm.0) =~= seq![m.0]);
            assert(seq![m.0] =~= Seq::<Seq<char>>::empty().push(m.0));
        },
    }
}

/// The series pass hands out each series variant once: as a completion
/// (its id also recorded as used) or as a member of a group.
proof fn lemma_series_pass(al: AliasTable, src: AliasTable, mem: MemoryModel, p: Seq<EntryModel>)
    ensures
        done_ids(series_pass(al, src, mem, p).done) =~= series_pass(al, src, mem, p).used,
        series_pass(al, src, mem, p).used.to_multiset().add(member_ids(series_pass(al, src, mem, p).groups).to_multiset())
            =~= split_ids(p).to_multiset(),
    decreases p.len(),
{
    broadcast use vstd::seq_lib::group_to_multiset_ensures, vstd::seq_lib::lemma_multiset_commutative;
    if p.len() == 0 {
        assert(done_ids(Seq::<(Seq<char>, Seq<char>)>::empty()) =~= Seq::<Seq<char>>::empty());
    } else {
        lemma_series_pass(al, src, mem, p.drop_last());
        let st = series_pass(al, src, mem, p.drop_last());
        let e = p.last();
        match series_split(e.source) {
            None => {},
            Some((base, suffix)) => {
                let key = canonical(al, consistency_key(base));
                let bs = match assoc_get(src, key) {
                    Some(v) => v,
                    None => base,
                };
                match memory_lookup(mem, key) {
                    Some(t) => {
                        let d = (e.id, composed_translation(t.1, suffix));
                        assert(done_ids(st.done.push(d)) =~= done_ids(st.done).push(e.id));
                        assert(st.used.push(e.id).to_multiset() =~= st.used.to_multiset().insert(e.id));
                    },
                    None => {
                        lemma_group_add(st.groups, key, bs, (e.id, suffix));
                    },
                }
            },
        }
    }
}

proof fn lemma_members_partition(gs: Seq<GroupModel>)
    ensures
        member_ids(gs).to_multiset() =~= series_ids(gs).to_multiset().add(small_ids(gs).to_multiset()),
    decreases gs.len(),
{
    broadcast use vstd::seq_lib::group_to_multiset_ensures, vstd::seq_lib::lemma_multiset_commutative;
    if gs.len() > 0 {
        lemma_members_partition(gs.drop_last());
    }
}

proof fn lemma_exact_add(gs: Seq<ExactModel>, key: Seq<char>, e: EntryModel)
    ensures
        exact_ids(exact_add(gs, key, e)).to_multiset() =~= exact_ids(gs).to_multiset().insert(e.id),
    decreases gs.len(),
{
    broadcast use vstd::seq_lib::group_to_multiset_ensures, vstd::seq_lib::lemma_multiset_commutative;
    lemma_exact_index(gs, key);
    match exact_index(gs, key) {
        Some(i) => {
            lemma_exact_ids_update(gs, i, key, e);
        },
        None => {
            let a = gs.push(ExactModel { key, entries: seq![e] });
            assert(a.drop_last() =~= gs);
            assert(ids_of(seq![e]) =~= Seq::<Seq<char>>::empty().push(e.id));
        },
    }
}

proof fn lemma_exact_ids_update(gs: Seq<ExactModel>, i: int, key: Seq<char>, e: EntryModel)
    requires
        0 <= i < gs.len(),
    ensures
        exact_ids(gs.update(i, ExactModel { key, entries: gs[i].entries.push(e) })).to_multiset()
            =~= exact_ids(gs).to_multiset().insert(e.id),
    decreases gs.len(),
{
    broadcast use vstd::seq_lib::group_to_multiset_ensures, vstd::seq_lib::lemma_multiset_commutative;
    let g2 = ExactModel { key, entries: gs[i].entries.push(e) };
    let u = gs.update(i, g2);
    assert(ids_of(g2.entries) =~= ids_of(gs[i].entries).push(e.id));
    if i == gs.len() - 1 {
        assert(u.drop_last() =~= gs.drop_last());
    } else {
        lemma_exact_ids_update(gs.drop_last(), i, key, e);
        assert(u.drop_last() =~= gs.drop_last().update(i, g2));
    }
}

/// The exact pass, on entries with distinct ids, hands out each entry that
/// is not used yet once: as a completion or as a member of a group.
proof fn lemma_exact_pass(mem: MemoryModel, used0: Seq<Seq<char>>, p: Seq<EntryModel>)
    requires
        ids_of(p).no_duplicates(),
    ensures
        exact_pass(mem, used0, p).used =~= used0 + done_ids(exact_pass(mem, used0, p).done),
        (done_ids(exact_pass(mem, used0, p).done) + exact_ids(exact_pass(mem, used0, p).groups)).to_multiset()
            =~= unused_ids(p, used0).to_multiset(),
        forall|x: Seq<char>| #[trigger] done_ids(exact_pass(mem, used0, p).done).contains(x) ==> ids_of(p).contains(x),
    decreases p.len(),
{
    broadcast use vstd::seq_lib::group_to_multiset_ensures, vstd::seq_lib::lemma_multiset_commutative;
    if p.len() == 0 {
        assert(done_ids(Seq::<(Seq<char>, Seq<char>)>::empty()) =~= Seq::<Seq<char>>::empty());
        assert(used0 + Seq::<Seq<char>>::empty() =~= used0);
    } else {
        let q = p.drop_last();
        assert(ids_of(p) =~= ids_of(q).push(p.last().id));
        assert(ids_of(q).no_duplicates()) by {
            assert forall|a: int, b: int| 0 <= a < b < ids_of(q).len() implies ids_of(q)[a] != ids_of(q)[b] by {
                assert(ids_of(q)[a] == ids_of(p)[a]);
                assert(ids_of(q)[b] == ids_of(p)[b]);
            }
        }
        lemma_exact_pass(mem, used0, q);
        let st = exact_pass(mem, used0, q);
        let e = p.last();
        assert(!ids_of(q).contains(e.id)) by {
            if ids_of(q).contains(e.id) {
                let k = choose|k: int| 0 <= k < ids_of(q).len() && ids_of(q)[k] == e.id;
                assert(ids_of(p)[k] == ids_of(p)[p.len() - 1]);
            }
        }
        assert(st.used.contains(e.id) == used0.contains(e.id)) by {
            if done_ids(st.done).contains(e.id) {
                assert(ids_of(q).contains(e.id));
            }
            if st.used.contains(e.id) && !used0.contains(e.id) {
                let k = choose|k: int| 0 <= k < st.used.len() && st.used[k] == e.id;
                assert(st.used[k] == (used0 + done_ids(st.done))[k]);
                assert(done_ids(st.done).contains(e.id)) by {
                    assert(done_ids(st.done)[k - used0.len()] == e.id);
                }
            }
            if used0.contains(e.id) {
                let k = choose|k: int| 0 <= k < used0.len() && used0[k] == e.id;
                assert(st.used[k] == e.id);
            }
        }
        if !st.used.contains(e.id) {
            let key = consistency_key(e.source);
            match memory_lookup(mem, key) {
                Some(t) => {
                    let d = (e.id, t.1);
                    assert(done_ids(st.done.push(d)) =~= done_ids(st.done).push(e.id));
                    assert(st.used.push(e.id) =~= used0 + done_ids(st.done).push(e.id));
                    assert((done_ids(st.done).push(e.id) + exact_ids(st.groups)).to_multiset()
                        =~= (done_ids(st.done) + exact_ids(st.groups)).to_multiset().insert(e.id));
                    assert forall|x: Seq<char>| done_ids(st.done.push(d)).contains(x) implies ids_of(p).contains(x) by {
                        if x == e.id {
                            assert(ids_of(p)[p.len() - 1] == x);
                        } else {
                            let k = choose|k: int| 0 <= k < done_ids(st.done.push(d)).len() && done_ids(st.done.push(d))[k] == x;
                            assert(done_ids(st.done)[k] == x);
                            assert(done_ids(st.done).contains(x));
                            assert(ids_of(q).contains(x));
                            let j = choose|j: int| 0 <= j < ids_of(q).len() && ids_of(q)[j] == x;
                            assert(ids_of(p)[j] == x);
                        }
                    }
                },
                None => {
                    lemma_exact_add(st.groups, key, e);
                    assert forall|x: Seq<char>| done_ids(st.done).contains(x) implies ids_of(p).contains(x) by {
                        let j = choose|j: int| 0 <= j < ids_of(q).len() && ids_of(q)[j] == x;
                        assert(ids_of(p)[j] == x);
                    }
                },
            }
        } else {
            assert forall|x: Seq<char>| done_ids(st.done).contains(x) implies ids_of(p).contains(x) by {
                let j = choose|j: int| 0 <= j < ids_of(q).len() && ids_of(q)[j] == x;
                assert(ids_of(p)[j] == x);
            }
        }
    }
}

proof fn lemma_unused_count(p: Seq<EntryModel>, used: Seq<Seq<char>>, x: Seq<char>)
    ensures
        unused_ids(p, used).to_multiset().count(x) == if used.contains(x) {
            0
        } else {
            ids_of(p).to_multiset().count(x)
        },
    decreases p.len(),
{
    broadcast use vstd::seq_lib::group_to_multiset_ensures, vstd::multiset::group_multiset_axioms;
    if p.len() == 0 {
        assert(ids_of(p) =~= Seq::<Seq<char>>::empty());
    } else {
        lemma_unused_count(p.drop_last(), used, x);
        assert(ids_of(p) =~= ids_of(p.drop_last()).push(p.last().id));
    }
}

proof fn lemma_jobs_targets_concat(a: Seq<JobModel>, b: Seq<JobModel>)
    ensures
        jobs_targets(a + b) =~= jobs_targets(a) + jobs_targets(b),
    decreases b.len(),
{
    if b.len() == 0 {
        assert(a + b =~= a);
    } else {
        lemma_jobs_targets_concat(a, b.drop_last());
        assert((a + b).drop_last() =~= a + b.drop_last());
        assert((a + b).last() == b.last());
    }
}

proof fn lemma_series_jobs_targets(m: MatcherModel, mem: MemoryModel, gs: Seq<GroupModel>)
    ensures
        jobs_targets(series_jobs(m, mem, gs)) =~= series_ids(gs),
    decreases gs.len(),
{
    if gs.len() > 0 {
        lemma_series_jobs_targets(m, mem, gs.drop_last());
        let prev = series_jobs(m, mem, gs.drop_last());
        let g = gs.last();
        if g.members.len() >= 2 {
            let j = job_for(m, mem, g.base_source, OutputModel::Series(g.members));
            assert(prev.push(j).drop_last() =~= prev);
        }
    }
}

proof fn lemma_exact_jobs_targets(m: MatcherModel, mem: MemoryModel, gs: Seq<ExactModel>)
    ensures
        jobs_targets(exact_jobs(m, mem, gs)) =~= exact_ids(gs),
    decreases gs.len(),
{
    if gs.len() > 0 {
        lemma_exact_jobs_targets(m, mem, gs.drop_last());
        let prev = exact_jobs(m, mem, gs.drop_last());
        let g = gs.last();
        let ids = g.entries.map_values(|e: EntryModel| e.id);
        assert(ids =~= ids_of(g.entries));
        if g.entries.len() == 0 {
            assert(ids_of(g.entries) =~= Seq::<Seq<char>>::empty());
        } else {
            let output = if ids.len() == 1 {
                OutputModel::Single(ids[0])
            } else {
                OutputModel::ExactGroup(ids)
            };
            assert(output_ids(output) =~= ids);
            let j = job_for(m, mem, g.entries[0].source, output);
            assert(prev.push(j).drop_last() =~= prev);
        }
    }
}

/// Planning hands out every pending entry exactly once: each pending id is
/// either completed directly or covered by exactly one job, and the counts
/// agree (`total == skipped + entries covered by jobs`). This holds when the
/// pending entries have distinct ids.
pub proof fn law_plan_covers_each_pending_entry_once(es: Seq<EntryModel>, m: MatcherModel)
    requires
        ids_of(pending_of(es)).no_duplicates(),
    ensures
        (done_ids(plan_of(es, m).done) + jobs_targets(plan_of(es, m).jobs)).to_multiset()
            == ids_of(pending_of(es)).to_multiset(),
        plan_of(es, m).total == plan_of(es, m).skipped + jobs_targets(plan_of(es, m).jobs).len(),
{
    broadcast use vstd::seq_lib::group_to_multiset_ensures, vstd::seq_lib::lemma_multiset_commutative,
        vstd::multiset::group_multiset_axioms;
    let p = pending_of(es);
    let mem = memory_of(es);
    let sp = series_pass(series_alias_map(es), source_table_of(alias_scan(es)), mem, p);
    let used1 = sp.used + series_ids(sp.groups);
    let ep = exact_pass(mem, used1, p);
    let plan = plan_of(es, m);
    lemma_series_pass(series_alias_map(es), source_table_of(alias_scan(es)), mem, p);
    lemma_exact_pass(mem, used1, p);
    lemma_ids_split(p);
    lemma_series_jobs_targets(m, mem, sp.groups);
    lemma_exact_jobs_targets(m, mem, ep.groups);
    lemma_jobs_targets_concat(series_jobs(m, mem, sp.groups), exact_jobs(m, mem, ep.groups));
    ids_of(p).lemma_multiset_has_no_duplicates();
    assert(done_ids(plan.done) =~= done_ids(sp.done) + done_ids(ep.done));

    lemma_members_partition(sp.groups);
    let mu = sp.used.to_multiset();
    let ms = series_ids(sp.groups).to_multiset();
    let msm = small_ids(sp.groups).to_multiset();
    let mp = plain_ids(p).to_multiset();
    let mi = ids_of(p).to_multiset();
    assert(used1.to_multiset() =~= mu.add(ms));
    assert(unused_ids(p, used1).to_multiset() =~= mp.add(msm)) by {
        assert forall|x: Seq<char>| #[trigger] unused_ids(p, used1).to_multiset().count(x) == mp.add(msm).count(x) by {
            lemma_unused_count(p, used1, x);
            assert(used1.contains(x) <==> used1.to_multiset().count(x) > 0);
            assert(mi.count(x) == mu.count(x) + ms.count(x) + msm.count(x) + mp.count(x));
            assert(mi.count(x) <= 1) by {
                if mi.count(x) > 0 {
                    assert(mi.contains(x));
                }
            }
        }
    }
    let a = done_ids(sp.done);
    let b = done_ids(ep.done);
    let c = series_ids(sp.groups);
    let d = exact_ids(ep.groups);
    let lhs = done_ids(plan.done) + jobs_targets(plan.jobs);
    assert(lhs =~= (a + b) + (c + d));
    assert(lhs.to_multiset() =~= (a + b).to_multiset().add((c + d).to_multiset()));
    assert((a + b).to_multiset() =~= a.to_multiset().add(b.to_multiset()));
    assert((c + d).to_multiset() =~= c.to_multiset().add(d.to_multiset()));
    assert((b + d).to_multiset() =~= b.to_multiset().add(d.to_multiset()));
    assert(a.to_multiset() =~= mu);
    let split = split_ids(p).to_multiset();
    let member = member_ids(sp.groups).to_multiset();
    assert(mi =~= split.add(mp));
    assert(split =~= mu.add(member));
    assert(member =~= ms.add(msm));
    assert((b + d).to_multiset() =~= mp.add(msm));
    assert forall|x: Seq<char>| #[trigger] lhs.to_multiset().count(x) == mi.count(x) by {
        assert(lhs.to_multiset().count(x) == mu.count(x) + b.to_multiset().count(x) + ms.count(x) + d.to_multiset().count(x));
        assert((b + d).to_multiset().count(x) == mp.add(msm).count(x));
        assert((b + d).to_multiset().count(x) == b.to_multiset().add(d.to_multiset()).count(x));
        assert(b.to_multiset().count(x) + d.to_multiset().count(x) == mp.count(x) + msm.count(x));
        assert(mi.count(x) == mu.count(x) + ms.count(x) + msm.count(x) + mp.count(x));
    }
    assert(lhs.to_multiset() =~= mi);
    assert(plan.total == p.len());
    assert(ids_of(p).len() == p.len());
    assert(done_ids(plan.done).len() == plan.skipped);
    assert(lhs.len() == plan.skipped + jobs_targets(plan.jobs).len());
    assert(lhs.to_multiset().len() == lhs.len());
    assert(mi.len() == ids_of(p).len());
}

} // verus!
