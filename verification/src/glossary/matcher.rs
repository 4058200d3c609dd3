//! Matching glossary terms in a text.
//!
//! Terms are filtered once (enabled, not ambiguous, non-blank source) and
//! stably sorted longest first. Substring candidates come from one
//! overlapping Aho-Corasick scan per case mode (overlapping, so that `Mind`
//! and `Mind Flayer` are both found); whole-word terms are then confirmed
//! with a `\b...\b` regular expression compiled once, when the matcher is
//! built.

use vstd::prelude::*;
use crate::glossary::entry::TermModel;
use crate::glossary::pattern::{
    regex_compile, regex_compiles, regex_escape, regex_escaped, regex_finds, regex_matches, regex_source,
};
use crate::glossary::store::{terms_model, Glossary};
use crate::text::{contains_seq, is_blank, is_blank_str, unicode_lowercase, utf8_len};

verus! {

/// A glossary term found in a text.
#[derive(Debug, Clone, PartialEq, Eq)]
pub struct MatchedTerm {
    pub source: String,
    pub target: String,
}

#[verifier::external_type_specification]
#[verifier::external_body]
pub struct ExAhoCorasick(aho_corasick::AhoCorasick);

/// The patterns an automaton was built from, by pattern id.
pub uninterp spec fn ac_patterns(a: aho_corasick::AhoCorasick) -> Seq<Seq<char>>;

/// The automaton was built with standard match semantics, which overlapping
/// searches need.
pub uninterp spec fn ac_overlapping(a: aho_corasick::AhoCorasick) -> bool;

/// `AhoCorasickBuilder::new().match_kind(MatchKind::Standard).build`:
/// when it succeeds, the automaton holds the patterns in order. It may fail
/// (too large an automaton); nothing is claimed of when.
#[verifier::external_body]
fn ac_build(patterns: Vec<String>) -> (r: Option<aho_corasick::AhoCorasick>)
    ensures
        r matches Some(a) ==> ac_patterns(a) == patterns@.map_values(|p: String| p@) && ac_overlapping(a),
{
    match aho_corasick::AhoCorasickBuilder::new().match_kind(aho_corasick::MatchKind::Standard).build(patterns) {
        Ok(a) => Some(a),
        Err(_) => None,
    }
}

/// `AhoCorasick::find_overlapping_iter`, reduced to the pattern ids it
/// reports: it reports every match at every position, so an id is reported
/// exactly when its pattern occurs in the haystack (a UTF-8 pattern occurs
/// in UTF-8 text bytewise exactly when it occurs characterwise).
#[verifier::external_body]
fn ac_hits(a: &aho_corasick::AhoCorasick, haystack: &str) -> (r: Vec<usize>)
    requires
        ac_overlapping(*a),
    ensures
        forall|i: int| 0 <= i < r@.len() ==> (#[trigger] r@[i]) < ac_patterns(*a).len()
            && contains_seq(haystack@, ac_patterns(*a)[r@[i] as int]),
        forall|j: int| 0 <= j < ac_patterns(*a).len() && contains_seq(haystack@, #[trigger] ac_patterns(*a)[j]) ==> r@.contains(j as usize),
{
    let mut ids = Vec::new();
    for m in a.find_overlapping_iter(haystack) {
        ids.push(m.pattern().as_usize());
    }
    ids
}

/// A term as the matcher keeps it.
pub struct PreparedModel {
    pub source: Seq<char>,
    pub target: Seq<char>,
    pub case_sensitive: bool,
    pub whole_word: bool,
}

struct PreparedTerm {
    source: String,
    target: String,
    case_sensitive: bool,
    whole_word: bool,
}

spec fn prepared_view(t: PreparedTerm) -> PreparedModel {
    PreparedModel { source: t.source@, target: t.target@, case_sensitive: t.case_sensitive, whole_word: t.whole_word }
}

spec fn prepared_seq(v: Seq<PreparedTerm>) -> Seq<PreparedModel> {
    v.map_values(|t: PreparedTerm| prepared_view(t))
}

/// A term takes part in matching.
pub open spec fn usable(t: TermModel) -> bool {
    t.enabled && !t.ambiguous && !is_blank(t.source)
}

/// The usable terms, in glossary order.
pub open spec fn usable_terms(ts: Seq<TermModel>) -> Seq<PreparedModel>
    decreases ts.len(),
{
    if ts.len() == 0 {
        Seq::empty()
    } else {
        let prev = usable_terms(ts.drop_last());
        let t = ts.last();
        if usable(t) {
            prev.push(PreparedModel { source: t.source, target: t.target, case_sensitive: t.case_sensitive, whole_word: t.whole_word })
        } else {
            prev
        }
    }
}

/// Byte length of a term's source.
pub open spec fn src_len(t: PreparedModel) -> nat {
    utf8_len(t.source)
}

/// The terms whose source is `n` bytes long, in order.
pub open spec fn with_len(s: Seq<PreparedModel>, n: nat) -> Seq<PreparedModel>
    decreases s.len(),
{
    if s.len() == 0 {
        Seq::empty()
    } else if src_len(s.last()) == n {
        with_len(s.drop_last(), n).push(s.last())
    } else {
        with_len(s.drop_last(), n)
    }
}

/// `output` is `input` stably sorted by source length, longest first: it is
/// ordered by length, and the terms of each length keep their order. (These
/// two properties determine the order.)
pub open spec fn longest_first(input: Seq<PreparedModel>, output: Seq<PreparedModel>) -> bool {
    &&& forall|i: int, j: int| 0 <= i < j < output.len() ==> src_len(#[trigger] output[i]) >= src_len(#[trigger] output[j])
    &&& forall|n: nat| #[trigger] with_len(output, n) == with_len(input, n)
}

/// What a matcher holds: its terms, and whether each prefilter was built.
pub struct MatcherModel {
    pub terms: Seq<PreparedModel>,
    pub insensitive_built: bool,
    pub sensitive_built: bool,
}

/// The text a term is looked for in, and the needle: lowercased unless the
/// term is case-sensitive.
pub open spec fn needle_of(t: PreparedModel) -> Seq<char> {
    if t.case_sensitive {
        t.source
    } else {
        unicode_lowercase(t.source)
    }
}

pub open spec fn haystack_of(t: PreparedModel, text: Seq<char>) -> Seq<char> {
    if t.case_sensitive {
        text
    } else {
        unicode_lowercase(text)
    }
}

/// The word-boundary pattern of a whole-word term.
pub open spec fn boundary_pattern(needle: Seq<char>) -> Seq<char> {
    "\\b"@ + regex_escaped(needle) + "\\b"@
}

/// A whole-word term is confirmed by its boundary pattern; a pattern that
/// does not compile confirms the substring hit.
pub open spec fn boundary_ok(t: PreparedModel, text: Seq<char>) -> bool {
    let p = boundary_pattern(needle_of(t));
    !regex_compiles(p) || regex_finds(p, haystack_of(t, text))
}

/// The term is reported for the text.
pub open spec fn term_found(m: MatcherModel, t: PreparedModel, text: Seq<char>) -> bool {
    &&& (if t.case_sensitive {
        m.sensitive_built
    } else {
        m.insensitive_built
    })
    &&& contains_seq(haystack_of(t, text), needle_of(t))
    &&& (t.whole_word ==> boundary_ok(t, text))
}

/// The terms reported for the text, in the matcher's order.
pub open spec fn found_terms(m: MatcherModel, ts: Seq<PreparedModel>, text: Seq<char>) -> Seq<(Seq<char>, Seq<char>)>
    decreases ts.len(),
{
    if ts.len() == 0 {
        Seq::empty()
    } else {
        let prev = found_terms(m, ts.drop_last(), text);
        if term_found(m, ts.last(), text) {
            prev.push((ts.last().source, ts.last().target))
        } else {
            prev
        }
    }
}

/// What a term keeps of its boundary pattern: for a whole-word term, the
/// compiled pattern, present exactly when the pattern compiles; for other
/// terms, nothing.
pub open spec fn boundary_fits(t: PreparedModel, b: Option<regex::Regex>) -> bool {
    if t.whole_word {
        &&& (b is Some <==> regex_compiles(boundary_pattern(needle_of(t))))
        &&& (b matches Some(re) ==> regex_source(re) == boundary_pattern(needle_of(t)))
    } else {
        b is None
    }
}

/// The glossary matcher: built once, used for any number of texts.
pub struct GlossaryMatcher {
    terms: Vec<PreparedTerm>,
    insensitive: Option<aho_corasick::AhoCorasick>,
    insensitive_map: Vec<usize>,
    sensitive: Option<aho_corasick::AhoCorasick>,
    sensitive_map: Vec<usize>,
    /// Per term: the compiled boundary pattern of a whole-word term (`None`
    /// when it does not compile, or for other terms).
    boundaries: Vec<Option<regex::Regex>>,
}

impl GlossaryMatcher {
    /// What the matcher holds.
    pub closed spec fn model(&self) -> MatcherModel {
        MatcherModel {
            terms: prepared_seq(self.terms@),
            insensitive_built: self.insensitive is Some,
            sensitive_built: self.sensitive is Some,
        }
    }

    /// Well-formedness: each prefilter's patterns are the needles of its
    /// terms, and its map leads from pattern ids to those terms.
    pub closed spec fn wf(&self) -> bool {
        let ts = prepared_seq(self.terms@);
        &&& forall|k: int| 0 <= k < self.insensitive_map@.len() ==> (#[trigger] self.insensitive_map@[k]) < ts.len()
            && !ts[self.insensitive_map@[k] as int].case_sensitive
        &&& forall|k: int| 0 <= k < self.sensitive_map@.len() ==> (#[trigger] self.sensitive_map@[k]) < ts.len()
            && ts[self.sensitive_map@[k] as int].case_sensitive
        &&& forall|j: int| 0 <= j < ts.len() && !ts[j].case_sensitive ==> exists|k: int| 0 <= k < self.insensitive_map@.len() && #[trigger] self.insensitive_map@[k] == j
        &&& forall|j: int| 0 <= j < ts.len() && ts[j].case_sensitive ==> exists|k: int| 0 <= k < self.sensitive_map@.len() && #[trigger] self.sensitive_map@[k] == j
        &&& (self.insensitive matches Some(a) ==> ac_overlapping(a) && ac_patterns(a).len() == self.insensitive_map@.len()
            && forall|k: int| 0 <= k < self.insensitive_map@.len() ==> #[trigger] ac_patterns(a)[k] == needle_of(ts[self.insensitive_map@[k] as int]))
        &&& (self.sensitive matches Some(a) ==> ac_overlapping(a) && ac_patterns(a).len() == self.sensitive_map@.len()
            && forall|k: int| 0 <= k < self.sensitive_map@.len() ==> #[trigger] ac_patterns(a)[k] == needle_of(ts[self.sensitive_map@[k] as int]))
        &&& self.boundaries@.len() == ts.len()
        &&& forall|j: int| 0 <= j < ts.len() ==> boundary_fits(ts[j], #[trigger] self.boundaries@[j])
    }
}


/// The models of a list of matches.
pub open spec fn matches_model(v: Seq<MatchedTerm>) -> Seq<(Seq<char>, Seq<char>)> {
    v.map_values(|m: MatchedTerm| (m.source@, m.target@))
}

/// The term occurs as a substring in the text its case mode looks at, and
/// the prefilter for that mode was built.
pub open spec fn sub_hit(m: MatcherModel, t: PreparedModel, text: Seq<char>) -> bool {
    &&& (if t.case_sensitive {
        m.sensitive_built
    } else {
        m.insensitive_built
    })
    &&& contains_seq(haystack_of(t, text), needle_of(t))
}

fn lowercase_needle(t: &PreparedTerm) -> (r: String)
    ensures
        r@ == needle_of(prepared_view(*t)),
{
    if t.case_sensitive {
        t.source.clone()
    } else {
        crate::text::to_lowercase(t.source.as_str())
    }
}

/// The boundary pattern of a whole-word term, compiled once.
fn compile_boundary(t: &PreparedTerm) -> (r: Option<regex::Regex>)
    ensures
        boundary_fits(prepared_view(*t), r),
{
    if !t.whole_word {
        return None;
    }
    let needle = lowercase_needle(t);
    let mut pattern = String::from_str("\\b");
    let esc = regex_escape(needle.as_str());
    pattern.append(esc.as_str());
    pattern.append("\\b");
    regex_compile(pattern.as_str())
}

/// Whether the term's compiled boundary pattern confirms a substring hit;
/// a pattern that did not compile confirms it.
fn boundary_confirms(t: &PreparedTerm, boundary: &Option<regex::Regex>, text: &str, lowered: &String) -> (r: bool)
    requires
        lowered@ == unicode_lowercase(text@),
        t.whole_word,
        boundary_fits(prepared_view(*t), *boundary),
    ensures
        r == boundary_ok(prepared_view(*t), text@),
{
    let haystack: &str = if t.case_sensitive {
        text
    } else {
        lowered.as_str()
    };
    match boundary {
        Some(re) => regex_matches(re, haystack),
        None => true,
    }
}

fn prepare(terms: &Vec<crate::glossary::entry::GlossaryEntry>) -> (r: Vec<PreparedTerm>)
    ensures
        prepared_seq(r@) == usable_terms(terms_model(terms@)),
{
    let ghost ts = terms_model(terms@);
    let mut out: Vec<PreparedTerm> = Vec::new();
    let mut i: usize = 0;
    assert(ts.take(0) =~= Seq::<TermModel>::empty());
    assert(prepared_seq(out@) =~= Seq::<PreparedModel>::empty());
    while i < terms.len()
        invariant
            i <= terms@.len(),
            ts == terms_model(terms@),
            prepared_seq(out@) == usable_terms(ts.take(i as int)),
        decreases terms@.len() - i,
    {
        assert(ts.take(i + 1).drop_last() =~= ts.take(i as int));
        assert(ts.take(i + 1).last() == terms@[i as int]@);
        let e = &terms[i];
        if e.enabled && !e.ambiguous && !is_blank_str(e.source.as_str()) {
            let ghost before = prepared_seq(out@);
            out.push(PreparedTerm {
                source: e.source.clone(),
                target: e.target.clone(),
                case_sensitive: e.case_sensitive,
                whole_word: e.whole_word,
            });
            assert(prepared_seq(out@) =~= before.push(prepared_view(out@.last())));
        }
        i = i + 1;
    }
    assert(ts.take(ts.len() as int) =~= ts);
    out
}

fn copy_term(t: &PreparedTerm) -> (r: PreparedTerm)
    ensures
        prepared_view(r) == prepared_view(*t),
{
    PreparedTerm { source: t.source.clone(), target: t.target.clone(), case_sensitive: t.case_sensitive, whole_word: t.whole_word }
}

proof fn lemma_with_len_push(s: Seq<PreparedModel>, x: PreparedModel, n: nat)
    ensures
        with_len(s.push(x), n) == if src_len(x) == n {
            with_len(s, n).push(x)
        } else {
            with_len(s, n)
        },
{
    assert(s.push(x).drop_last() =~= s);
}

proof fn lemma_with_len_none(s: Seq<PreparedModel>, n: nat)
    requires
        forall|i: int| 0 <= i < s.len() ==> src_len(#[trigger] s[i]) != n,
    ensures
        with_len(s, n) == Seq::<PreparedModel>::empty(),
    decreases s.len(),
{
    if s.len() > 0 {
        assert forall|i: int| 0 <= i < s.drop_last().len() implies src_len(#[trigger] s.drop_last()[i]) != n by {
            assert(s.drop_last()[i] == s[i]);
        }
        lemma_with_len_none(s.drop_last(), n);
        assert(src_len(s[s.len() - 1]) != n);
    }
}

/// Sorts by source length, longest first, keeping the order of equal
/// lengths: one pass per distinct length, from the longest down.
fn sort_longest_first(v: Vec<PreparedTerm>) -> (r: Vec<PreparedTerm>)
    ensures
        longest_first(prepared_seq(v@), prepared_seq(r@)),
{
    let ghost input = prepared_seq(v@);
    let n = v.len();
    let mut lens: Vec<usize> = Vec::new();
    let mut k: usize = 0;
    while k < n
        invariant
            k <= n,
            n == v@.len(),
            input == prepared_seq(v@),
            lens@.len() == k,
            forall|j: int| 0 <= j < k ==> lens@[j] == src_len(#[trigger] input[j]),
        decreases n - k,
    {
        assert(input[k as int] == prepared_view(v@[k as int]));
        lens.push(crate::text::str_utf8_len(v[k].source.as_str()));
        k = k + 1;
    }
    let mut out: Vec<PreparedTerm> = Vec::new();
    let mut bound: Option<usize> = None;
    assert forall|m: nat| #[trigger] with_len(prepared_seq(out@), m) == Seq::<PreparedModel>::empty() by {
        lemma_with_len_none(prepared_seq(out@), m);
    }
    loop
        invariant
            n == v@.len(),
            input == prepared_seq(v@),
            lens@.len() == n,
            forall|j: int| 0 <= j < n ==> lens@[j] == src_len(#[trigger] input[j]),
            forall|i: int, j: int| 0 <= i < j < out@.len() ==> src_len(#[trigger] prepared_seq(out@)[i]) >= src_len(#[trigger] prepared_seq(out@)[j]),
            bound matches Some(b) ==> forall|i: int| 0 <= i < out@.len() ==> src_len(#[trigger] prepared_seq(out@)[i]) >= b,
            bound is None ==> out@.len() == 0,
            forall|m: nat| (bound matches Some(b) && m >= b) ==> #[trigger] with_len(prepared_seq(out@), m) == with_len(input, m),
            forall|m: nat| (bound matches Some(b) && m < b) ==> #[trigger] with_len(prepared_seq(out@), m) == Seq::<PreparedModel>::empty(),
            bound is None ==> forall|m: nat| #[trigger] with_len(prepared_seq(out@), m) == Seq::<PreparedModel>::empty(),
        ensures
            forall|i: int, j: int| 0 <= i < j < out@.len() ==> src_len(#[trigger] prepared_seq(out@)[i]) >= src_len(#[trigger] prepared_seq(out@)[j]),
            forall|m: nat| #[trigger] with_len(prepared_seq(out@), m) == with_len(input, m),
        decreases (match bound {
            Some(b) => b as int,
            None => usize::MAX as int + 1,
        }),
    {
        let mut best: Option<usize> = None;
        let mut j: usize = 0;
        while j < n
            invariant
                j <= n,
                lens@.len() == n,
                best matches Some(x) ==> (bound matches Some(b) ==> x < b) && exists|q: int| 0 <= q < j && lens@[q] == x,
                forall|q: int| 0 <= q < j && (bound matches Some(b) ==> lens@[q] < b) ==> (best matches Some(x) && #[trigger] lens@[q] <= x),
            decreases n - j,
        {
            let l = lens[j];
            let below = match bound {
                Some(b) => l < b,
                None => true,
            };
            if below {
                match best {
                    Some(x) => {
                        if l > x {
                            best = Some(l);
                        }
                    },
                    None => {
                        best = Some(l);
                    },
                }
            }
            j = j + 1;
        }
        let level = match best {
            None => {
                proof {
                    assert forall|m: nat| #[trigger] with_len(prepared_seq(out@), m) == with_len(input, m) by {
                        match bound {
                            Some(b) => {
                                if m < b {
                                    assert forall|q: int| 0 <= q < input.len() implies src_len(#[trigger] input[q]) != m by {
                                        assert(lens@[q] == src_len(input[q]));
                                    }
                                    lemma_with_len_none(input, m);
                                }
                            },
                            None => {
                                assert forall|q: int| 0 <= q < input.len() implies src_len(#[trigger] input[q]) != m by {
                                    assert(lens@[q] == src_len(input[q]));
                                }
                                lemma_with_len_none(input, m);
                            },
                        }
                    }
                }
                break;
            },
            Some(x) => x,
        };
        let ghost start = prepared_seq(out@);
        let mut q: usize = 0;
        assert(input.take(0) =~= Seq::<PreparedModel>::empty());
        assert(with_len(input.take(0), level as nat) == Seq::<PreparedModel>::empty());
        while q < n
            invariant
                q <= n,
                n == v@.len(),
                input == prepared_seq(v@),
                lens@.len() == n,
                forall|jj: int| 0 <= jj < n ==> lens@[jj] == src_len(#[trigger] input[jj]),
                bound matches Some(b) ==> level < b,
                prepared_seq(out@).len() >= start.len(),
                forall|i: int| 0 <= i < start.len() ==> prepared_seq(out@)[i] == #[trigger] start[i],
                forall|i: int| start.len() <= i < out@.len() ==> src_len(#[trigger] prepared_seq(out@)[i]) == level,
                bound matches Some(b) ==> forall|i: int| 0 <= i < start.len() ==> src_len(#[trigger] start[i]) >= b,
                with_len(prepared_seq(out@), level as nat) == with_len(input.take(q as int), level as nat),
                forall|m: nat| m != level ==> #[trigger] with_len(prepared_seq(out@), m) == with_len(start, m),
            decreases n - q,
        {
            assert(input.take(q + 1).drop_last() =~= input.take(q as int));
            assert(input.take(q + 1).last() == input[q as int]);
            if lens[q] == level {
                let ghost before = prepared_seq(out@);
                let t = copy_term(&v[q]);
                assert(input[q as int] == prepared_view(v@[q as int]));
                out.push(t);
                assert(prepared_seq(out@) =~= before.push(input[q as int]));
                proof {
                    assert forall|m: nat| #[trigger] with_len(prepared_seq(out@), m) == if src_len(input[q as int]) == m {
                        with_len(before, m).push(input[q as int])
                    } else {
                        with_len(before, m)
                    } by {
                        lemma_with_len_push(before, input[q as int], m);
                    }
                }
            }
            q = q + 1;
        }
        assert(input.take(n as int) =~= input);
        proof {
            assert forall|i: int, j: int| 0 <= i < j < out@.len() implies src_len(#[trigger] prepared_seq(out@)[i]) >= src_len(#[trigger] prepared_seq(out@)[j]) by {
                if j < start.len() {
                    assert(prepared_seq(out@)[i] == start[i]);
                    assert(prepared_seq(out@)[j] == start[j]);
                } else if i < start.len() {
                    assert(prepared_seq(out@)[i] == start[i]);
                }
            }
            assert forall|i: int| 0 <= i < out@.len() implies src_len(#[trigger] prepared_seq(out@)[i]) >= level by {
                if i < start.len() {
                    assert(prepared_seq(out@)[i] == start[i]);
                }
            }
            assert forall|m: nat| m >= level implies #[trigger] with_len(prepared_seq(out@), m) == with_len(input, m) by {
                if m != level {
                    assert(with_len(prepared_seq(out@), m) == with_len(start, m));
                    let inside = match bound {
                        Some(b) => m < b,
                        None => true,
                    };
                    if inside {
                        assert(with_len(start, m) == Seq::<PreparedModel>::empty());
                        assert forall|qq: int| 0 <= qq < input.len() implies src_len(#[trigger] input[qq]) != m by {
                            assert(lens@[qq] == src_len(input[qq]));
                            if src_len(input[qq]) == m {
                                assert(best matches Some(x) && lens@[qq] <= x);
                            }
                        }
                        lemma_with_len_none(input, m);
                    }
                }
            }
            assert forall|m: nat| m < level implies #[trigger] with_len(prepared_seq(out@), m) == Seq::<PreparedModel>::empty() by {
                assert(with_len(prepared_seq(out@), m) == with_len(start, m));
            }
        }
        bound = Some(level);
    }
    out
}

fn build_prefilter(patterns: Vec<String>) -> (r: Option<aho_corasick::AhoCorasick>)
    ensures
        patterns@.len() == 0 ==> r is None,
        r matches Some(a) ==> ac_patterns(a) == patterns@.map_values(|p: String| p@) && ac_overlapping(a),
{
    if patterns.len() == 0 {
        return None;
    }
    ac_build(patterns)
}

fn mark_hits(
    a: &aho_corasick::AhoCorasick,
    map: &Vec<usize>,
    haystack: &str,
    hit: &mut Vec<bool>,
)
    requires
        ac_overlapping(*a),
        ac_patterns(*a).len() == map@.len(),
        forall|k: int| 0 <= k < map@.len() ==> (#[trigger] map@[k]) < old(hit)@.len(),
    ensures
        final(hit)@.len() == old(hit)@.len(),
        forall|j: int| 0 <= j < old(hit)@.len() ==> (#[trigger] final(hit)@[j]) == (old(hit)@[j]
            || exists|k: int| 0 <= k < map@.len() && map@[k] == j && contains_seq(haystack@, ac_patterns(*a)[k])),
{
    let ids = ac_hits(a, haystack);
    let ml = map.len();
    let ghost h0 = hit@;
    let mut i: usize = 0;
    while i < ids.len()
        invariant
            i <= ids@.len(),
            ac_patterns(*a).len() == map@.len(),
            forall|k: int| 0 <= k < map@.len() ==> (#[trigger] map@[k]) < h0.len(),
            forall|q: int| 0 <= q < ids@.len() ==> (#[trigger] ids@[q]) < ac_patterns(*a).len()
                && contains_seq(haystack@, ac_patterns(*a)[ids@[q] as int]),
            forall|jj: int| 0 <= jj < ac_patterns(*a).len() && contains_seq(haystack@, #[trigger] ac_patterns(*a)[jj]) ==> ids@.contains(jj as usize),
            hit@.len() == h0.len(),
            forall|j: int| 0 <= j < h0.len() ==> (#[trigger] hit@[j]) ==> (h0[j]
                || exists|k: int| 0 <= k < map@.len() && map@[k] == j && contains_seq(haystack@, ac_patterns(*a)[k])),
            forall|j: int| 0 <= j < h0.len() ==> h0[j] ==> #[trigger] hit@[j],
            forall|q: int| 0 <= q < i ==> #[trigger] hit@[map@[ids@[q] as int] as int],
        decreases ids@.len() - i,
    {
        let id = ids[i];
        if id < map.len() {
            let j = map[id];
            hit.set(j, true);
            assert(contains_seq(haystack@, ac_patterns(*a)[id as int]));
        }
        i = i + 1;
    }
    assert forall|j: int| 0 <= j < h0.len() implies (#[trigger] hit@[j]) == (h0[j]
        || exists|k: int| 0 <= k < map@.len() && map@[k] == j && contains_seq(haystack@, ac_patterns(*a)[k])) by {
        if !h0[j] && exists|k: int| 0 <= k < map@.len() && map@[k] == j && contains_seq(haystack@, ac_patterns(*a)[k]) {
            let k = choose|k: int| 0 <= k < map@.len() && map@[k] == j && contains_seq(haystack@, ac_patterns(*a)[k]);
            assert(0 <= k < ml);
            assert(contains_seq(haystack@, ac_patterns(*a)[k]));
            assert(ids@.contains(k as usize));
            let q = choose|q: int| 0 <= q < ids@.len() && ids@[q] == k as usize;
            assert(ids@[q] as int == k);
            assert(hit@[map@[ids@[q] as int] as int]);
            assert(map@[k] == j);
        }
    }
}

impl GlossaryMatcher {
    /// Builds the matcher: filters and sorts the terms (see [`prepared`])
    /// and builds one prefilter per case mode.
    pub fn new(glossary: &Glossary) -> (r: Self)
        ensures
            r.wf(),
            longest_first(usable_terms(terms_model(glossary.terms@)), r.model().terms),
    {
        let terms = sort_longest_first(prepare(&glossary.terms));
        let ghost sorted = prepared_seq(terms@);
        let ghost ts = prepared_seq(terms@);
        let mut ip: Vec<String> = Vec::new();
        let mut im: Vec<usize> = Vec::new();
        let mut sp: Vec<String> = Vec::new();
        let mut sm: Vec<usize> = Vec::new();
        let mut bs: Vec<Option<regex::Regex>> = Vec::new();
        let mut i: usize = 0;
        while i < terms.len()
            invariant
                i <= terms@.len(),
                ts == prepared_seq(terms@),
                bs@.len() == i,
                forall|j: int| 0 <= j < i ==> boundary_fits(ts[j], #[trigger] bs@[j]),
                ip@.len() == im@.len(),
                sp@.len() == sm@.len(),
                forall|k: int| 0 <= k < im@.len() ==> (#[trigger] im@[k]) < i && !ts[im@[k] as int].case_sensitive
                    && ip@[k]@ == needle_of(ts[im@[k] as int]),
                forall|k: int| 0 <= k < sm@.len() ==> (#[trigger] sm@[k]) < i && ts[sm@[k] as int].case_sensitive
                    && sp@[k]@ == needle_of(ts[sm@[k] as int]),
                forall|j: int| 0 <= j < i && !ts[j].case_sensitive ==> exists|k: int| 0 <= k < im@.len() && #[trigger] im@[k] == j,
                forall|j: int| 0 <= j < i && ts[j].case_sensitive ==> exists|k: int| 0 <= k < sm@.len() && #[trigger] sm@[k] == j,
            decreases terms@.len() - i,
        {
            assert(ts[i as int] == prepared_view(terms@[i as int]));
            bs.push(compile_boundary(&terms[i]));
            let needle = lowercase_needle(&terms[i]);
            let ghost im0 = im@;
            let ghost sm0 = sm@;
            if terms[i].case_sensitive {
                sp.push(needle);
                sm.push(i);
            } else {
                ip.push(needle);
                im.push(i);
            }
            assert forall|j: int| 0 <= j < i + 1 && !ts[j].case_sensitive implies exists|k: int| 0 <= k < im@.len() && #[trigger] im@[k] == j by {
                if j == i {
                    assert(im@[im@.len() - 1] == j);
                } else {
                    let k = choose|k: int| 0 <= k < im0.len() && #[trigger] im0[k] == j;
                    assert(im@[k] == j);
                }
            }
            assert forall|j: int| 0 <= j < i + 1 && ts[j].case_sensitive implies exists|k: int| 0 <= k < sm@.len() && #[trigger] sm@[k] == j by {
                if j == i {
                    assert(sm@[sm@.len() - 1] == j);
                } else {
                    let k = choose|k: int| 0 <= k < sm0.len() && #[trigger] sm0[k] == j;
                    assert(sm@[k] == j);
                }
            }
            i = i + 1;
        }
        assert(i == ts.len());
        assert forall|j: int| 0 <= j < ts.len() && !ts[j].case_sensitive implies exists|k: int| 0 <= k < im@.len() && #[trigger] im@[k] == j by {
            assert(0 <= j < i && !ts[j].case_sensitive);
        }
        assert forall|j: int| 0 <= j < ts.len() && ts[j].case_sensitive implies exists|k: int| 0 <= k < sm@.len() && #[trigger] sm@[k] == j by {
            assert(0 <= j < i && ts[j].case_sensitive);
        }
        let ghost imv = im@;
        let ghost smv = sm@;
        let ghost ipm = ip@.map_values(|p: String| p@);
        let ghost spm = sp@.map_values(|p: String| p@);
        let insensitive = build_prefilter(ip);
        let sensitive = build_prefilter(sp);
        let r = GlossaryMatcher { terms, insensitive, insensitive_map: im, sensitive, sensitive_map: sm, boundaries: bs };
        assert(r.model().terms == ts);
        assert(r.insensitive_map@ == imv);
        assert(r.sensitive_map@ == smv);
        assert(forall|k: int| 0 <= k < r.insensitive_map@.len() ==> (#[trigger] r.insensitive_map@[k]) < ts.len()
            && !ts[r.insensitive_map@[k] as int].case_sensitive);
        assert(forall|k: int| 0 <= k < r.sensitive_map@.len() ==> (#[trigger] r.sensitive_map@[k]) < ts.len()
            && ts[r.sensitive_map@[k] as int].case_sensitive);
        assert forall|j: int| 0 <= j < ts.len() && !ts[j].case_sensitive implies exists|k: int| 0 <= k < r.insensitive_map@.len() && #[trigger] r.insensitive_map@[k] == j by {
            let k = choose|k: int| 0 <= k < imv.len() && #[trigger] imv[k] == j;
            assert(r.insensitive_map@[k] == j);
        }
        assert forall|j: int| 0 <= j < ts.len() && ts[j].case_sensitive implies exists|k: int| 0 <= k < r.sensitive_map@.len() && #[trigger] r.sensitive_map@[k] == j by {
            let k = choose|k: int| 0 <= k < smv.len() && #[trigger] smv[k] == j;
            assert(r.sensitive_map@[k] == j);
        }
        proof {
            if r.insensitive is Some {
                assert forall|k: int| 0 <= k < r.insensitive_map@.len() implies #[trigger] ac_patterns(r.insensitive->0)[k] == needle_of(ts[r.insensitive_map@[k] as int]) by {
                    assert(ipm[k] == ip@[k]@);
                }
            }
            if r.sensitive is Some {
                assert forall|k: int| 0 <= k < r.sensitive_map@.len() implies #[trigger] ac_patterns(r.sensitive->0)[k] == needle_of(ts[r.sensitive_map@[k] as int]) by {
                    assert(spm[k] == sp@[k]@);
                }
            }
        }
        r
    }

    /// The terms found in `text`, longest first (see [`found_terms`]).
    pub fn find_matches(&self, text: &str) -> (r: Vec<MatchedTerm>)
        requires
            self.wf(),
        ensures
            matches_model(r@) == found_terms(self.model(), self.model().terms, text@),
    {
        let ghost m = self.model();
        let ghost ts = m.terms;
        let n = self.terms.len();
        let mut hit: Vec<bool> = Vec::new();
        let mut z: usize = 0;
        while z < n
            invariant
                z <= n,
                n == self.terms@.len(),
                hit@.len() == z,
                forall|j: int| 0 <= j < z ==> !(#[trigger] hit@[j]),
            decreases n - z,
        {
            hit.push(false);
            z = z + 1;
        }
        let lowered = crate::text::to_lowercase(text);
        match &self.insensitive {
            Some(a) => mark_hits(a, &self.insensitive_map, lowered.as_str(), &mut hit),
            None => {},
        }
        let ghost h1 = hit@;
        assert forall|j: int| 0 <= j < n implies (#[trigger] h1[j]) == (!ts[j].case_sensitive && sub_hit(m, ts[j], text@)) by {
            if self.insensitive is Some {
                let a = self.insensitive->0;
                if !ts[j].case_sensitive {
                    let k = choose|k: int| 0 <= k < self.insensitive_map@.len() && #[trigger] self.insensitive_map@[k] == j;
                    assert(ac_patterns(a)[k] == needle_of(ts[j]));
                }
                if h1[j] {
                    let k = choose|k: int| 0 <= k < self.insensitive_map@.len() && self.insensitive_map@[k] == j && contains_seq(lowered@, ac_patterns(a)[k]);
                    assert(ac_patterns(a)[k] == needle_of(ts[self.insensitive_map@[k] as int]));
                }
            }
        }
        match &self.sensitive {
            Some(a) => mark_hits(a, &self.sensitive_map, text, &mut hit),
            None => {},
        }
        assert forall|j: int| 0 <= j < n implies (#[trigger] hit@[j]) == sub_hit(m, ts[j], text@) by {
            if self.sensitive is Some {
                let a = self.sensitive->0;
                if ts[j].case_sensitive {
                    let k = choose|k: int| 0 <= k < self.sensitive_map@.len() && #[trigger] self.sensitive_map@[k] == j;
                    assert(ac_patterns(a)[k] == needle_of(ts[j]));
                }
                if hit@[j] && !h1[j] {
                    let k = choose|k: int| 0 <= k < self.sensitive_map@.len() && self.sensitive_map@[k] == j && contains_seq(text@, ac_patterns(a)[k]);
                    assert(ac_patterns(a)[k] == needle_of(ts[self.sensitive_map@[k] as int]));
                }
            }
        }
        let mut out: Vec<MatchedTerm> = Vec::new();
        let mut i: usize = 0;
        assert(ts.take(0) =~= Seq::<PreparedModel>::empty());
        assert(matches_model(out@) =~= Seq::<(Seq<char>, Seq<char>)>::empty());
        while i < n
            invariant
                i <= n,
                n == self.terms@.len(),
                m == self.model(),
                ts == m.terms,
                self.wf(),
                hit@.len() == n,
                lowered@ == unicode_lowercase(text@),
                forall|j: int| 0 <= j < n ==> (#[trigger] hit@[j]) == sub_hit(m, ts[j], text@),
                matches_model(out@) == found_terms(m, ts.take(i as int), text@),
            decreases n - i,
        {
            assert(ts.take(i + 1).drop_last() =~= ts.take(i as int));
            assert(ts.take(i + 1).last() == prepared_view(self.terms@[i as int]));
            let t = &self.terms[i];
            if hit[i] && (!t.whole_word || boundary_confirms(t, &self.boundaries[i], text, &lowered)) {
                let ghost before = matches_model(out@);
                out.push(MatchedTerm { source: t.source.clone(), target: t.target.clone() });
                assert(matches_model(out@) =~= before.push((t.source@, t.target@)));
            }
            i = i + 1;
        }
        assert(ts.take(n as int) =~= ts);
        out
    }

    /// Number of terms taking part in matching.
    pub fn len(&self) -> (r: usize)
        ensures
            r == self.model().terms.len(),
    {
        self.terms.len()
    }

    /// Whether no term takes part in matching.
    pub fn is_empty(&self) -> (r: bool)
        ensures
            r == (self.model().terms.len() == 0),
    {
        self.terms.len() == 0
    }
}

} // verus!
