//! The whole glossary: the official seed, import cleaning and editing.
//! Reading and writing `glossary.json` happen around this module, which
//! never touches the disk.

use vstd::prelude::*;
use crate::error::{error_code, error_message, AppError};
use crate::glossary::entry::{clean_entry, cleaned, GlossaryEntry, TermModel};
use crate::glossary::seed::{seed_entries, seed_table, seed_term};
use crate::text::{chars_eq_str, chars_of, is_blank, is_blank_str};

verus! {

/// The whole glossary (the import file's shape: `{ "terms": [...] }`).
#[derive(Debug, Clone, PartialEq, Eq)]
pub struct Glossary {
    pub terms: Vec<GlossaryEntry>,
}

/// The models of a list of terms.
pub open spec fn terms_model(v: Seq<GlossaryEntry>) -> Seq<TermModel> {
    v.map_values(|e: GlossaryEntry| e@)
}

/// The terms of the official seed.
pub open spec fn seeded_terms() -> Seq<TermModel> {
    seed_table().map_values(|s: (Seq<char>, Seq<char>, Seq<char>)| seed_term(s.0, s.1, s.2))
}

/// The terms that survive cleaning, cleaned, in order.
pub open spec fn cleaned_terms(ts: Seq<TermModel>) -> Seq<TermModel>
    decreases ts.len(),
{
    if ts.len() == 0 {
        Seq::empty()
    } else {
        let prev = cleaned_terms(ts.drop_last());
        match cleaned(ts.last()) {
            Some(t) => prev.push(t),
            None => prev,
        }
    }
}

/// Index of the first term with the given source.
pub open spec fn find_source(ts: Seq<TermModel>, source: Seq<char>) -> Option<int>
    decreases ts.len(),
{
    if ts.len() == 0 {
        None
    } else {
        match find_source(ts.drop_last(), source) {
            Some(i) => Some(i),
            None => if ts.last().source == source {
                Some(ts.len() - 1)
            } else {
                None
            },
        }
    }
}

pub proof fn lemma_find_source(ts: Seq<TermModel>, source: Seq<char>)
    ensures
        match find_source(ts, source) {
            Some(i) => 0 <= i < ts.len() && ts[i].source == source && forall|j: int| 0 <= j < i ==> ts[j].source != source,
            None => forall|j: int| 0 <= j < ts.len() ==> ts[j].source != source,
        },
    decreases ts.len(),
{
    if ts.len() > 0 {
        lemma_find_source(ts.drop_last(), source);
        match find_source(ts.drop_last(), source) {
            Some(i) => {
                assert forall|j: int| 0 <= j < i implies ts[j].source != source by {
                    assert(ts[j] == ts.drop_last()[j]);
                }
            },
            None => {
                assert forall|j: int| 0 <= j < ts.len() - 1 implies ts[j].source != source by {
                    assert(ts[j] == ts.drop_last()[j]);
                }
            },
        }
    }
}

/// The terms without those whose source is `source`.
pub open spec fn without_source(ts: Seq<TermModel>, source: Seq<char>) -> Seq<TermModel>
    decreases ts.len(),
{
    if ts.len() == 0 {
        Seq::empty()
    } else {
        let prev = without_source(ts.drop_last(), source);
        if ts.last().source != source {
            prev.push(ts.last())
        } else {
            prev
        }
    }
}

/// A term must have a non-blank source and target.
pub open spec fn blank_term(t: TermModel) -> bool {
    is_blank(t.source) || is_blank(t.target)
}

/// Message of the error for a blank term.
pub open spec fn blank_term_message() -> Seq<char> {
    "术语的中英文均不能为空"@
}

fn find_source_exec(terms: &Vec<GlossaryEntry>, source: &str) -> (r: Option<usize>)
    ensures
        match find_source(terms_model(terms@), source@) {
            Some(i) => r matches Some(j) && j as int == i && 0 <= i < terms@.len(),
            None => r is None,
        },
{
    let ghost ts = terms_model(terms@);
    let sv = chars_of(source);
    let mut i: usize = 0;
    while i < terms.len()
        invariant
            i <= terms@.len(),
            ts == terms_model(terms@),
            sv@ == source@,
            forall|j: int| 0 <= j < i ==> ts[j].source != source@,
        decreases terms@.len() - i,
    {
        assert(ts[i as int] == terms@[i as int]@);
        if chars_eq_str(sv.as_slice(), terms[i].source.as_str()) {
            proof {
                lemma_find_source(ts, source@);
                match find_source(ts, source@) {
                    Some(k) => {
                        if k < i {
                            assert(false);
                        }
                        if k > i {
                            assert(ts[i as int].source != source@);
                        }
                    },
                    None => {
                        assert(ts[i as int].source != source@);
                    },
                }
            }
            return Some(i);
        }
        i = i + 1;
    }
    proof {
        lemma_find_source(ts, source@);
    }
    None
}

impl Default for Glossary {
    /// The default glossary is the official seed.
    fn default() -> (r: Self)
        ensures
            terms_model(r.terms@) == seeded_terms(),
    {
        Self::seeded()
    }
}

impl Glossary {
    /// The built-in official seed (see [`seeded_terms`]).
    pub fn seeded() -> (r: Self)
        ensures
            terms_model(r.terms@) == seeded_terms(),
    {
        let seeds = seed_entries();
        let mut terms: Vec<GlossaryEntry> = Vec::new();
        let mut i: usize = 0;
        while i < seeds.len()
            invariant
                i <= seeds@.len(),
                seeds@.len() == seed_table().len(),
                forall|k: int| 0 <= k < seeds@.len() ==> (#[trigger] seeds@[k]).source@ == seed_table()[k].0
                    && seeds@[k].target@ == seed_table()[k].1 && seeds@[k].category@ == seed_table()[k].2,
                terms@.len() == i,
                forall|k: int| 0 <= k < i ==> (#[trigger] terms@[k])@ == seeded_terms()[k],
            decreases seeds@.len() - i,
        {
            assert(seeds@[i as int].source@ == seed_table()[i as int].0);
            terms.push(seeds[i].to_entry());
            i = i + 1;
        }
        let r = Glossary { terms };
        assert(terms_model(r.terms@) =~= seeded_terms());
        r
    }

    /// The imported terms after cleaning (see [`cleaned_terms`]); parsing
    /// the JSON happens before this.
    pub fn cleaned_from(imported: Vec<GlossaryEntry>) -> (r: Self)
        ensures
            terms_model(r.terms@) == cleaned_terms(terms_model(imported@)),
    {
        let ghost ts = terms_model(imported@);
        let mut out: Vec<GlossaryEntry> = Vec::new();
        let mut i: usize = 0;
        assert(ts.take(0) =~= Seq::<TermModel>::empty());
        assert(terms_model(out@) =~= Seq::<TermModel>::empty());
        while i < imported.len()
            invariant
                i <= imported@.len(),
                ts == terms_model(imported@),
                terms_model(out@) == cleaned_terms(ts.take(i as int)),
            decreases imported@.len() - i,
        {
            assert(ts.take(i + 1).drop_last() =~= ts.take(i as int));
            assert(ts.take(i + 1).last() == imported@[i as int]@);
            let mut e = imported[i].duplicate();
            match clean_entry(&mut e) {
                Some(c) => {
                    let ghost before = terms_model(out@);
                    out.push(c);
                    assert(terms_model(out@) =~= before.push(out@.last()@));
                },
                None => {},
            }
            i = i + 1;
        }
        assert(ts.take(ts.len() as int) =~= ts);
        Glossary { terms: out }
    }

    /// Adds a term, or replaces the first term with the same source. A
    /// blank source or target is refused.
    pub fn add(&mut self, entry: GlossaryEntry) -> (r: Result<(), AppError>)
        ensures
            blank_term(entry@) ==> (r matches Err(e) && error_code(e) == "config"@
                && error_message(e) == "配置错误: "@ + blank_term_message()
                && terms_model(final(self).terms@) == terms_model(old(self).terms@)),
            !blank_term(entry@) ==> r is Ok && terms_model(final(self).terms@) == match find_source(terms_model(old(self).terms@), entry@.source) {
                Some(i) => terms_model(old(self).terms@).update(i, entry@),
                None => terms_model(old(self).terms@).push(entry@),
            },
    {
        if is_blank_str(entry.source.as_str()) || is_blank_str(entry.target.as_str()) {
            return Err(AppError::config("术语的中英文均不能为空"));
        }
        let ghost before = terms_model(self.terms@);
        match find_source_exec(&self.terms, entry.source.as_str()) {
            Some(i) => {
                self.terms.set(i, entry);
                assert(terms_model(self.terms@) =~= before.update(i as int, self.terms@[i as int]@));
            },
            None => {
                self.terms.push(entry);
                assert(terms_model(self.terms@) =~= before.push(self.terms@.last()@));
            },
        }
        Ok(())
    }

    /// Replaces the first term whose source is `old_source` by `entry`.
    pub fn update(&mut self, old_source: &str, entry: GlossaryEntry) -> (r: Result<(), AppError>)
        ensures
            blank_term(entry@) ==> (r matches Err(e) && error_message(e) == "配置错误: "@ + blank_term_message()),
            !blank_term(entry@) && find_source(terms_model(old(self).terms@), old_source@) is None ==> (r matches Err(e)
                && error_message(e) == "配置错误: "@ + "找不到要更新的术语"@),
            r is Err ==> error_code(r->Err_0) == "config"@ && terms_model(final(self).terms@) == terms_model(old(self).terms@),
            !blank_term(entry@) ==> match find_source(terms_model(old(self).terms@), old_source@) {
                Some(i) => r is Ok && terms_model(final(self).terms@) == terms_model(old(self).terms@).update(i, entry@),
                None => r is Err,
            },
    {
        if is_blank_str(entry.source.as_str()) || is_blank_str(entry.target.as_str()) {
            return Err(AppError::config("术语的中英文均不能为空"));
        }
        let ghost before = terms_model(self.terms@);
        match find_source_exec(&self.terms, old_source) {
            Some(i) => {
                self.terms.set(i, entry);
                assert(terms_model(self.terms@) =~= before.update(i as int, self.terms@[i as int]@));
                Ok(())
            },
            None => Err(AppError::config("找不到要更新的术语")),
        }
    }

    /// Deletes every term whose source is `source`. Official terms cannot
    /// be deleted (only disabled or overridden).
    pub fn delete(&mut self, source: &str) -> (r: Result<(), AppError>)
        ensures
            match find_source(terms_model(old(self).terms@), source@) {
                None => r matches Err(e) && error_message(e) == "配置错误: "@ + "找不到要删除的术语"@,
                Some(i) => if terms_model(old(self).terms@)[i].source_kind == "official"@ {
                    r matches Err(e) && error_message(e) == "配置错误: "@ + "官方术语不可删除（可禁用或编辑覆盖）"@
                } else {
                    r is Ok && terms_model(final(self).terms@) == without_source(terms_model(old(self).terms@), source@)
                },
            },
            r is Err ==> error_code(r->Err_0) == "config"@ && terms_model(final(self).terms@) == terms_model(old(self).terms@),
    {
        let ghost before = terms_model(self.terms@);
        let found = find_source_exec(&self.terms, source);
        if found.is_none() {
            return Err(AppError::config("找不到要删除的术语"));
        }
        let i = found.unwrap();
        assert(find_source(before, source@) == Some(i as int));
        assert(before[i as int] == self.terms@[i as int]@);
        let off = chars_of("official");
        if chars_eq_str(off.as_slice(), self.terms[i].source_kind.as_str()) {
            assert(before[i as int].source_kind == "official"@);
            assert(find_source(before, source@) == Some(i as int));
            return Err(AppError::config("官方术语不可删除（可禁用或编辑覆盖）"));
        }
        let sv = chars_of(source);
        let old_terms = &self.terms;
        let mut kept: Vec<GlossaryEntry> = Vec::new();
        let mut k: usize = 0;
        assert(before.take(0) =~= Seq::<TermModel>::empty());
        assert(terms_model(kept@) =~= Seq::<TermModel>::empty());
        while k < old_terms.len()
            invariant
                k <= old_terms@.len(),
                before == terms_model(old_terms@),
                sv@ == source@,
                terms_model(kept@) == without_source(before.take(k as int), source@),
            decreases old_terms@.len() - k,
        {
            assert(before.take(k + 1).drop_last() =~= before.take(k as int));
            assert(before.take(k + 1).last() == old_terms@[k as int]@);
            if !chars_eq_str(sv.as_slice(), old_terms[k].source.as_str()) {
                let ghost b = terms_model(kept@);
                kept.push(old_terms[k].duplicate());
                assert(terms_model(kept@) =~= b.push(old_terms@[k as int]@));
            }
            k = k + 1;
        }
        assert(before.take(k as int) =~= before);
        self.terms = kept;
        Ok(())
    }

    /// A matcher over the current terms.
    pub fn matcher(&self) -> (r: crate::glossary::matcher::GlossaryMatcher)
        ensures
            r.wf(),
            crate::glossary::matcher::longest_first(crate::glossary::matcher::usable_terms(terms_model(self.terms@)), r.model().terms),
    {
        crate::glossary::matcher::GlossaryMatcher::new(self)
    }
}

/// After a successful `add`, the first term with that source is the added
/// term.
pub proof fn law_add_then_find(before: Seq<TermModel>, entry: TermModel)
    requires
        !blank_term(entry),
    ensures
        ({
            let after = match find_source(before, entry.source) {
                Some(i) => before.update(i, entry),
                None => before.push(entry),
            };
            find_source(after, entry.source) matches Some(j) && after[j] == entry
        }),
{
    lemma_find_source(before, entry.source);
    let after = match find_source(before, entry.source) {
        Some(i) => before.update(i, entry),
        None => before.push(entry),
    };
    lemma_find_source(after, entry.source);
    match find_source(before, entry.source) {
        Some(i) => {
            match find_source(after, entry.source) {
                Some(j) => {
                    if j < i {
                        assert(after[j] == before[j]);
                    }
                    if j > i {
                        assert(after[i].source == entry.source);
                    }
                },
                None => {
                    assert(after[i].source == entry.source);
                },
            }
        },
        None => {
            match find_source(after, entry.source) {
                Some(j) => {
                    if j < before.len() {
                        assert(after[j] == before[j]);
                    }
                },
                None => {
                    assert(after[before.len() as int].source == entry.source);
                },
            }
        },
    }
}

/// After a successful `delete`, no term has that source any more.
pub proof fn law_delete_removes(before: Seq<TermModel>, source: Seq<char>)
    ensures
        forall|j: int| 0 <= j < without_source(before, source).len() ==> (#[trigger] without_source(before, source)[j]).source != source,
    decreases before.len(),
{
    if before.len() > 0 {
        law_delete_removes(before.drop_last(), source);
        let prev = without_source(before.drop_last(), source);
        assert forall|j: int| 0 <= j < without_source(before, source).len() implies (#[trigger] without_source(before, source)[j]).source != source by {
            if j < prev.len() {
                assert(without_source(before, source)[j] == prev[j]);
            }
        }
    }
}

} // verus!
