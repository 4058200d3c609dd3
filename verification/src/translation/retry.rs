//! Retry policy: network failures are retried with exponential backoff, and
//! a translation that fails the fidelity check gets one correction request.
//!
//! The two lines are separate: a network failure (request, stream or API
//! error) is retried after 500 ms, 1000 ms and 2000 ms, at most three times,
//! unless its HTTP status shows that retrying is pointless; a structurally
//! wrong translation gets exactly one request with a correction hint, which
//! uses none of the network retries. Both stop as soon as the run is
//! cancelled. The policy is a state machine: the caller performs each step
//! (a request, a wait, a correction request) and reports what happened.

use vstd::prelude::*;
use crate::error::{error_message, AppError};
use crate::text::{chars_of, starts_with, string_of, trim_end};
use crate::translation::fidelity::{
    check_fidelity, correction_hint, correction_text, fidelity_issues, issues_view, summarize,
    summary_text, FidelityIssue, IssueModel,
};
use crate::translation::planner::{OutputModel, TranslationJob, TranslationOutput, output_model};
use crate::translation::series::{compose_variant_translation, composed_translation};
use crate::translation::translator::API_STATUS_PREFIX;

verus! {

/// At most three retries (four requests with the first).
pub const MAX_RETRIES: usize = 3;

/// Requests per job at most.
pub const MAX_ATTEMPTS: usize = 4;

/// The backoff before each retry, in milliseconds: 500, 1000, 2000.
pub fn retry_backoff_millis() -> (r: [u64; 3])
    ensures
        r@ == seq![500u64, 1000u64, 2000u64],
{
    let r = [500u64, 1000u64, 2000u64];
    assert(r@ =~= seq![500u64, 1000u64, 2000u64]);
    r
}

// ─────────────────────────────────────────────────────────────
// Which failures are worth retrying
// ─────────────────────────────────────────────────────────────

/// The leading ASCII digits of `s`, at most `n` of them.
pub open spec fn leading_digits(s: Seq<char>, n: nat) -> Seq<char>
    decreases n,
{
    if n == 0 || s.len() == 0 || !('0' <= s[0] && s[0] <= '9') {
        Seq::empty()
    } else {
        seq![s[0]] + leading_digits(s.drop_first(), (n - 1) as nat)
    }
}

/// The value of a run of decimal digits.
pub open spec fn digits_number(d: Seq<char>) -> nat
    decreases d.len(),
{
    if d.len() == 0 {
        0
    } else {
        digits_number(d.drop_last()) * 10 + (d.last() as nat - '0' as nat) as nat
    }
}

/// The HTTP status of an `API 返回 {status}: …` error: up to three digits
/// right after the prefix.
pub open spec fn status_of(e: AppError) -> Option<nat> {
    match e {
        AppError::Llm(m) => if starts_with(m@, API_STATUS_PREFIX@) {
            let d = leading_digits(m@.skip(API_STATUS_PREFIX@.len() as int), 3);
            if d.len() == 0 {
                None
            } else {
                Some(digits_number(d))
            }
        } else {
            None
        },
        _ => None,
    }
}

/// `408`, `425` (RFC 8470 asks for a later retry), `429` and every 5xx are
/// worth retrying; other statuses are definite failures.
pub open spec fn retryable_status(s: nat) -> bool {
    s == 408 || s == 425 || s == 429 || (500 <= s < 600)
}

/// A failure is retried unless its status is known to be definite; an
/// unrecognised failure is retried.
pub open spec fn retryable_failure(e: AppError) -> bool {
    match status_of(e) {
        Some(s) => retryable_status(s),
        None => true,
    }
}

proof fn lemma_leading_digits_len(s: Seq<char>, n: nat)
    ensures
        leading_digits(s, n).len() <= n,
        forall|i: int| 0 <= i < leading_digits(s, n).len() ==> '0' <= #[trigger] leading_digits(s, n)[i] <= '9',
    decreases n,
{
    if n > 0 && s.len() > 0 && '0' <= s[0] && s[0] <= '9' {
        lemma_leading_digits_len(s.drop_first(), (n - 1) as nat);
        let rest = leading_digits(s.drop_first(), (n - 1) as nat);
        assert forall|i: int| 0 <= i < leading_digits(s, n).len() implies '0' <= #[trigger] leading_digits(s, n)[i] <= '9' by {
            if i > 0 {
                assert(leading_digits(s, n)[i] == rest[i - 1]);
            }
        }
    }
}

/// The HTTP status carried by an error (see [`status_of`]).
pub fn http_status_of(err: &AppError) -> (r: Option<u16>)
    ensures
        match status_of(*err) {
            Some(s) => r == Some(s as u16) && s < 1000,
            None => r is None,
        },
{
    match err {
        AppError::Llm(message) => {
            let m = chars_of(message.as_str());
            let p = chars_of(API_STATUS_PREFIX);
            if !crate::text::starts_with_chars(m.as_slice(), p.as_slice()) {
                return None;
            }
            let ghost rest = m@.skip(p@.len() as int);
            let mut value: u16 = 0;
            let mut k: usize = 0;
            let mut i = p.len();
            proof {
                lemma_leading_digits_len(rest, 3);
                assert(rest.skip(0) =~= rest);
                assert(rest.subrange(0, 0) + leading_digits(rest, 3) =~= leading_digits(rest, 3));
            }
            while k < 3 && i < m.len() && '0' <= m[i] && m[i] <= '9'
                invariant
                    k <= 3,
                    i == p@.len() + k,
                    p@.len() <= m@.len(),
                    i <= m@.len(),
                    rest == m@.skip(p@.len() as int),
                    leading_digits(rest, 3) == rest.subrange(0, k as int) + leading_digits(rest.skip(k as int), (3 - k) as nat),
                    value == digits_number(rest.subrange(0, k as int)),
                    k == 0 ==> value == 0,
                    k == 1 ==> value < 10,
                    k == 2 ==> value < 100,
                    k == 3 ==> value < 1000,
                decreases 3 - k,
            {
                assert(rest[k as int] == m@[i as int]);
                assert(rest.skip(k as int)[0] == m@[i as int]);
                assert(rest.skip(k as int).drop_first() =~= rest.skip(k + 1));
                assert(rest.subrange(0, k + 1) =~= rest.subrange(0, k as int) + seq![m@[i as int]]);
                assert(rest.subrange(0, k + 1).drop_last() =~= rest.subrange(0, k as int));
                let dv = (m[i] as u32 - '0' as u32) as u16;
                value = value * 10 + dv;
                k = k + 1;
                i = i + 1;
            }
            proof {
                if k < 3 {
                    assert(leading_digits(rest.skip(k as int), (3 - k) as nat) =~= Seq::<char>::empty());
                }
                assert(leading_digits(rest, 3) =~= rest.subrange(0, k as int));
            }
            if k == 0 {
                None
            } else {
                Some(value)
            }
        },
        _ => None,
    }
}

/// Whether a status is worth retrying (see [`retryable_status`]).
pub fn is_retryable_status(status: u16) -> (r: bool)
    ensures
        r == retryable_status(status as nat),
{
    status == 408 || status == 425 || status == 429 || (500 <= status && status < 600)
}

/// Whether a failure is worth retrying (see [`retryable_failure`]).
pub fn is_retryable_failure(err: &AppError) -> (r: bool)
    ensures
        r == retryable_failure(*err),
{
    match http_status_of(err) {
        Some(s) => is_retryable_status(s),
        None => true,
    }
}


// ─────────────────────────────────────────────────────────────
// Fidelity of a job's translation
// ─────────────────────────────────────────────────────────────

/// A series member's full source, rebuilt from the base and its suffix
/// (whitespace does not matter to the structural check).
pub open spec fn member_source(base: Seq<char>, suffix: Seq<char>) -> Seq<char> {
    trim_end(base) + seq![' '] + suffix
}

fn member_source_exec(base: &str, suffix: &str) -> (r: String)
    ensures
        r@ == member_source(base@, suffix@),
{
    let v = chars_of(base);
    let mut e = v.len();
    while e > 0 && crate::text::is_whitespace(v[e - 1])
        invariant
            e <= v@.len(),
            forall|k: int| e <= k < v@.len() ==> crate::text::is_ws(#[trigger] v@[k]),
        decreases e,
    {
        e = e - 1;
    }
    proof {
        crate::text::lemma_trim_end_take(v@, e as int);
        if e > 0 {
            assert(v@.take(e as int).last() == v@[e - 1]);
        }
        assert(trim_end(v@.take(e as int)) == v@.take(e as int));
    }
    let mut out = crate::text::copy_range(v.as_slice(), 0, e);
    assert(out@ =~= v@.take(e as int));
    out.push(' ');
    crate::text::extend_str(&mut out, suffix);
    string_of(out.as_slice())
}

/// `xs` with each issue of `ys` not yet in it appended.
pub open spec fn merge_new(xs: Seq<IssueModel>, ys: Seq<IssueModel>) -> Seq<IssueModel>
    decreases ys.len(),
{
    if ys.len() == 0 {
        xs
    } else {
        let prev = merge_new(xs, ys.drop_last());
        if prev.contains(ys.last()) {
            prev
        } else {
            prev.push(ys.last())
        }
    }
}

/// The issues of a series translation: each member is checked on its full
/// source against the composed translation; each issue is reported once.
pub open spec fn series_issues(base: Seq<char>, translated: Seq<char>, members: Seq<(Seq<char>, Seq<char>)>) -> Seq<IssueModel>
    decreases members.len(),
{
    if members.len() == 0 {
        Seq::empty()
    } else {
        let m = members.last();
        merge_new(
            series_issues(base, translated, members.drop_last()),
            fidelity_issues(member_source(base, m.1), composed_translation(translated, m.1)),
        )
    }
}

/// The issues of a job's translation: a single text or exact group is
/// checked against the source; a series on every member (see
/// [`series_issues`]).
pub open spec fn job_issues(source: Seq<char>, output: OutputModel, translated: Seq<char>) -> Seq<IssueModel> {
    match output {
        OutputModel::Series(ms) => series_issues(source, translated, ms),
        _ => fidelity_issues(source, translated),
    }
}

/// A job that translates one text, for one entry or for a group of entries
/// with the same source, is checked as that text: its issues are exactly
/// what [`check_fidelity`](crate::translation::fidelity::check_fidelity)
/// reports for the source and the translation, whatever the group's size.
pub proof fn law_whole_text_jobs_are_checked_like_the_text(
    source: Seq<char>,
    output: OutputModel,
    translated: Seq<char>,
)
    requires
        output is Single || output is ExactGroup,
    ensures
        job_issues(source, output, translated) == fidelity_issues(source, translated),
{
}

fn issue_eq(a: &FidelityIssue, b: &FidelityIssue) -> (r: bool)
    ensures
        r == (a@ == b@),
{
    match (a, b) {
        (FidelityIssue::MissingPlaceholder { token: t1, count: c1 }, FidelityIssue::MissingPlaceholder { token: t2, count: c2 }) => {
            *c1 == *c2 && crate::text::chars_eq_str(chars_of(t1.as_str()).as_slice(), t2.as_str())
        },
        (FidelityIssue::ExtraPlaceholder { token: t1, count: c1 }, FidelityIssue::ExtraPlaceholder { token: t2, count: c2 }) => {
            *c1 == *c2 && crate::text::chars_eq_str(chars_of(t1.as_str()).as_slice(), t2.as_str())
        },
        (FidelityIssue::MissingTag { tag: t1, count: c1 }, FidelityIssue::MissingTag { tag: t2, count: c2 }) => {
            *c1 == *c2 && crate::text::chars_eq_str(chars_of(t1.as_str()).as_slice(), t2.as_str())
        },
        (FidelityIssue::ExtraTag { tag: t1, count: c1 }, FidelityIssue::ExtraTag { tag: t2, count: c2 }) => {
            *c1 == *c2 && crate::text::chars_eq_str(chars_of(t1.as_str()).as_slice(), t2.as_str())
        },
        (FidelityIssue::TagStructureChanged, FidelityIssue::TagStructureChanged) => true,
        _ => false,
    }
}

fn copy_issue(a: &FidelityIssue) -> (r: FidelityIssue)
    ensures
        r@ == a@,
{
    match a {
        FidelityIssue::MissingPlaceholder { token, count } => FidelityIssue::MissingPlaceholder { token: token.clone(), count: *count },
        FidelityIssue::ExtraPlaceholder { token, count } => FidelityIssue::ExtraPlaceholder { token: token.clone(), count: *count },
        FidelityIssue::MissingTag { tag, count } => FidelityIssue::MissingTag { tag: tag.clone(), count: *count },
        FidelityIssue::ExtraTag { tag, count } => FidelityIssue::ExtraTag { tag: tag.clone(), count: *count },
        FidelityIssue::TagStructureChanged => FidelityIssue::TagStructureChanged,
    }
}

fn merge_new_exec(xs: &mut Vec<FidelityIssue>, ys: &Vec<FidelityIssue>)
    ensures
        issues_view(final(xs)@) == merge_new(issues_view(old(xs)@), issues_view(ys@)),
{
    let ghost x0 = issues_view(xs@);
    let ghost yv = issues_view(ys@);
    let mut j: usize = 0;
    assert(yv.take(0) =~= Seq::<IssueModel>::empty());
    while j < ys.len()
        invariant
            j <= ys@.len(),
            yv == issues_view(ys@),
            issues_view(xs@) == merge_new(x0, yv.take(j as int)),
        decreases ys@.len() - j,
    {
        assert(yv.take(j + 1).drop_last() =~= yv.take(j as int));
        assert(yv.take(j + 1).last() == ys@[j as int]@);
        let ghost cur = issues_view(xs@);
        let mut found = false;
        let mut k: usize = 0;
        while k < xs.len()
            invariant
                k <= xs@.len(),
                j < ys@.len(),
                cur == issues_view(xs@),
                found ==> cur.contains(ys@[j as int]@),
                !found ==> forall|q: int| 0 <= q < k ==> cur[q] != ys@[j as int]@,
            decreases xs@.len() - k,
        {
            if issue_eq(&xs[k], &ys[j]) {
                assert(cur[k as int] == xs@[k as int]@);
                found = true;
            }
            k = k + 1;
        }
        if !found {
            proof {
                if cur.contains(ys@[j as int]@) {
                    let q = choose|q: int| 0 <= q < cur.len() && cur[q] == ys@[j as int]@;
                    assert(cur[q] == ys@[j as int]@);
                }
            }
            xs.push(copy_issue(&ys[j]));
            assert(issues_view(xs@) =~= cur.push(ys@[j as int]@));
        }
        j = j + 1;
    }
    assert(yv.take(j as int) =~= yv);
}

/// The fidelity issues of a job's translation (see [`job_issues`]).
pub fn job_fidelity_issues(job: &TranslationJob, translated: &str) -> (r: Vec<FidelityIssue>)
    ensures
        issues_view(r@) == job_issues(job.source@, output_model(job.output), translated@),
{
    match &job.output {
        TranslationOutput::Series { members } => {
            let ghost ms = crate::translation::planner::members_model(members@);
            let mut issues: Vec<FidelityIssue> = Vec::new();
            let mut i: usize = 0;
            assert(ms.take(0) =~= Seq::<(Seq<char>, Seq<char>)>::empty());
            assert(issues_view(issues@) =~= Seq::<IssueModel>::empty());
            while i < members.len()
                invariant
                    i <= members@.len(),
                    ms == crate::translation::planner::members_model(members@),
                    issues_view(issues@) == series_issues(job.source@, translated@, ms.take(i as int)),
                decreases members@.len() - i,
            {
                assert(ms.take(i + 1).drop_last() =~= ms.take(i as int));
                assert(ms.take(i + 1).last() == (members@[i as int].entry_id@, members@[i as int].suffix@));
                let source = member_source_exec(job.source.as_str(), members[i].suffix.as_str());
                let target = compose_variant_translation(translated, members[i].suffix.as_str());
                let found = check_fidelity(source.as_str(), target.as_str());
                merge_new_exec(&mut issues, &found);
                i = i + 1;
            }
            assert(ms.take(i as int) =~= ms);
            issues
        },
        TranslationOutput::Single { .. } => check_fidelity(job.source.as_str(), translated),
        TranslationOutput::ExactGroup { .. } => check_fidelity(job.source.as_str(), translated),
    }
}


// ─────────────────────────────────────────────────────────────
// The retry state machine
// ─────────────────────────────────────────────────────────────

/// What the caller does next.
#[derive(Debug)]
pub enum RetryStep {
    /// Send request number `attempt` (from 0); from the second request on,
    /// first tell the streaming entries that a new attempt starts.
    Request { attempt: usize },
    /// Wait this many milliseconds (stopping early when cancelled), then
    /// report with [`RetryState::after_backoff`].
    Backoff { millis: u64 },
    /// Tell the streaming entries that a new attempt starts, then send the
    /// one correction request with this hint.
    Correct { hint: String },
    /// The job is over: `Ok(Some(text))` translated, `Ok(None)` cancelled.
    Finish(Result<Option<String>, AppError>),
}

/// The text of an error inside another message: an LLM error's own
/// message, else the full message.
pub open spec fn error_text(e: AppError) -> Seq<char> {
    match e {
        AppError::Llm(m) => m@,
        _ => error_message(e),
    }
}

fn error_text_exec(e: &AppError) -> (r: String)
    ensures
        r@ == error_text(*e),
{
    match e {
        AppError::Llm(m) => m.clone(),
        _ => e.message(),
    }
}

/// Where a job's retries stand.
pub struct RetryState {
    attempt: usize,
    issues: Vec<FidelityIssue>,
}

impl RetryState {
    /// The number of the current request.
    pub closed spec fn attempt_no(&self) -> nat {
        self.attempt as nat
    }

    /// The issues that asked for the correction request.
    pub closed spec fn pending_issues(&self) -> Seq<IssueModel> {
        issues_view(self.issues@)
    }

    /// Before the first request.
    pub fn new() -> (r: Self)
        ensures
            r.attempt_no() == 0,
            r.pending_issues().len() == 0,
    {
        let r = RetryState { attempt: 0, issues: Vec::new() };
        assert(r.pending_issues() =~= Seq::<IssueModel>::empty());
        r
    }

    /// The first step: nothing is sent once the run is cancelled.
    pub fn start(&self, cancelled: bool) -> (r: RetryStep)
        ensures
            cancelled ==> r matches RetryStep::Finish(Ok(None)),
            !cancelled ==> (r matches RetryStep::Request { attempt } && attempt == self.attempt_no()),
    {
        if cancelled {
            RetryStep::Finish(Ok(None))
        } else {
            RetryStep::Request { attempt: self.attempt }
        }
    }

    /// The outcome of a request: a translation is checked for fidelity
    /// (faithful: done; else, unless cancelled, one correction request); a
    /// cancellation ends the job; a failure is retried after its backoff
    /// while retries remain and its status does not rule retrying out, and
    /// is otherwise the job's error, as it is.
    pub fn on_attempt(&mut self, job: &TranslationJob, outcome: Result<Option<String>, AppError>, cancelled: bool) -> (r: RetryStep)
        requires
            old(self).attempt_no() < MAX_ATTEMPTS,
        ensures
            final(self).attempt_no() == old(self).attempt_no(),
            match outcome {
                Ok(Some(t)) => {
                    let issues = job_issues(job.source@, output_model(job.output), t@);
                    if issues.len() == 0 {
                        r matches RetryStep::Finish(Ok(Some(x))) && x@ == t@
                    } else if cancelled {
                        r matches RetryStep::Finish(Ok(None))
                    } else {
                        r matches RetryStep::Correct { hint } && hint@ == correction_text(issues)
                            && final(self).pending_issues() == issues
                    }
                },
                Ok(None) => r matches RetryStep::Finish(Ok(None)),
                Err(e) => if retryable_failure(e) && old(self).attempt_no() < MAX_RETRIES {
                    r matches RetryStep::Backoff { millis } && millis == seq![500u64, 1000u64, 2000u64][old(self).attempt_no() as int]
                } else {
                    r == RetryStep::Finish(Err(e))
                },
            },
    {
        match outcome {
            Ok(Some(text)) => {
                let issues = job_fidelity_issues(job, text.as_str());
                if issues.len() == 0 {
                    RetryStep::Finish(Ok(Some(text)))
                } else if cancelled {
                    RetryStep::Finish(Ok(None))
                } else {
                    let hint = correction_hint(issues.as_slice());
                    self.issues = issues;
                    RetryStep::Correct { hint }
                }
            },
            Ok(None) => RetryStep::Finish(Ok(None)),
            Err(e) => {
                if is_retryable_failure(&e) && self.attempt < MAX_RETRIES {
                    let backoff = retry_backoff_millis();
                    RetryStep::Backoff { millis: backoff[self.attempt] }
                } else {
                    RetryStep::Finish(Err(e))
                }
            },
        }
    }

    /// After the backoff wait: nothing more is sent once the run is
    /// cancelled; else the next request.
    pub fn after_backoff(&mut self, cancelled: bool) -> (r: RetryStep)
        requires
            old(self).attempt_no() < MAX_RETRIES,
        ensures
            cancelled ==> (r matches RetryStep::Finish(Ok(None)) && final(self).attempt_no() == old(self).attempt_no()),
            !cancelled ==> final(self).attempt_no() == old(self).attempt_no() + 1,
            !cancelled ==> (r matches RetryStep::Request { attempt } && attempt == final(self).attempt_no()),
            final(self).pending_issues() == old(self).pending_issues(),
    {
        if cancelled {
            return RetryStep::Finish(Ok(None));
        }
        self.attempt = self.attempt + 1;
        RetryStep::Request { attempt: self.attempt }
    }

    /// The outcome of the correction request: a faithful translation is
    /// done; a still unfaithful one, or a failed request, is the job's
    /// error (naming the issues); a cancellation ends the job.
    pub fn on_correction(&self, job: &TranslationJob, outcome: Result<Option<String>, AppError>) -> (r: RetryStep)
        ensures
            match outcome {
                Ok(Some(t)) => {
                    let remaining = job_issues(job.source@, output_model(job.output), t@);
                    if remaining.len() == 0 {
                        r matches RetryStep::Finish(Ok(Some(x))) && x@ == t@
                    } else {
                        r matches RetryStep::Finish(Err(AppError::Llm(m)))
                            && m@ == "结构校验未通过："@ + summary_text(remaining) + "（已重试 1 次）"@
                    }
                },
                Ok(None) => r matches RetryStep::Finish(Ok(None)),
                Err(e) => r matches RetryStep::Finish(Err(AppError::Llm(m)))
                    && m@ == "结构校验未通过："@ + summary_text(self.pending_issues()) + "（已重试 1 次）；纠错重试失败："@
                    + error_text(e),
            },
    {
        match outcome {
            Ok(Some(text)) => {
                let remaining = job_fidelity_issues(job, text.as_str());
                if remaining.len() == 0 {
                    RetryStep::Finish(Ok(Some(text)))
                } else {
                    let mut m = String::from_str("结构校验未通过：");
                    m.append(summarize(remaining.as_slice()).as_str());
                    m.append("（已重试 1 次）");
                    RetryStep::Finish(Err(AppError::Llm(m)))
                }
            },
            Ok(None) => RetryStep::Finish(Ok(None)),
            Err(e) => {
                let mut m = String::from_str("结构校验未通过：");
                m.append(summarize(self.issues.as_slice()).as_str());
                m.append("（已重试 1 次）；纠错重试失败：");
                m.append(error_text_exec(&e).as_str());
                RetryStep::Finish(Err(AppError::Llm(m)))
            },
        }
    }
}

} // verus!
