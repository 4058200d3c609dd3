use bg3_translate_core::error::AppError;
use bg3_translate_core::translation::fidelity::FidelityIssue;
use bg3_translate_core::translation::planner::{SeriesMember, TranslationJob, TranslationOutput};
use bg3_translate_core::translation::retry::{
    http_status_of, is_retryable_failure, is_retryable_status, job_fidelity_issues, retry_backoff_millis,
    RetryState, RetryStep, MAX_ATTEMPTS, MAX_RETRIES,
};
use bg3_translate_core::translation::translator::API_STATUS_PREFIX;

#[test]
fn retry_retry_backoff_is_exponential_and_bounded() {
    assert_eq!(retry_backoff_millis(), [500, 1000, 2000]);
    assert_eq!(MAX_RETRIES, 3);
    assert_eq!(MAX_ATTEMPTS, 4);
}

#[test]
fn engine_retry_backoff_is_exponential_and_bounded() {
    assert_eq!(retry_backoff_millis(), [500, 1000, 2000]);
    assert_eq!(MAX_RETRIES, 3);
    assert_eq!(MAX_ATTEMPTS, 4);
}

fn single_job(source: &str) -> TranslationJob {
    TranslationJob {
        source: source.into(),
        matches: Vec::new(),
        consistency_terms: Vec::new(),
        output: TranslationOutput::Single { entry_id: "e1".into() },
    }
}

#[test]
fn single_jobs_check_the_whole_source() {
    let job = single_job("Deals {1} damage");
    assert!(job_fidelity_issues(&job, "造成 {1} 点伤害").is_empty());
    assert_eq!(
        job_fidelity_issues(&job, "造成伤害"),
        vec![FidelityIssue::MissingPlaceholder { token: "{1}".into(), count: 1 }]
    );
}

#[test]
fn series_jobs_are_checked_on_the_composed_translation() {
    let job = TranslationJob {
        source: "Silver's Hair".into(),
        matches: Vec::new(),
        consistency_terms: Vec::new(),
        output: TranslationOutput::Series {
            members: vec![
                SeriesMember { entry_id: "e1".into(), suffix: "{1}".into() },
                SeriesMember { entry_id: "e2".into(), suffix: "{2}".into() },
            ],
        },
    };
    assert!(job_fidelity_issues(&job, "银发").is_empty());
    assert_eq!(
        job_fidelity_issues(&job, "银发{1}"),
        vec![FidelityIssue::ExtraPlaceholder { token: "{1}".into(), count: 1 }]
    );
}

#[test]
fn series_member_issues_are_deduplicated() {
    let job = TranslationJob {
        source: "Silver's Hair".into(),
        matches: Vec::new(),
        consistency_terms: Vec::new(),
        output: TranslationOutput::Series {
            members: vec![
                SeriesMember { entry_id: "e1".into(), suffix: "9b".into() },
                SeriesMember { entry_id: "e2".into(), suffix: "10".into() },
            ],
        },
    };
    let issues = job_fidelity_issues(&job, "银发 <b>粗");
    assert_eq!(issues.len(), 1, "{issues:?}");
    assert_eq!(issues[0], FidelityIssue::ExtraTag { tag: "<b>".into(), count: 1 });
}

fn status_err(status: u16, reason: &str) -> AppError {
    AppError::Llm(format!("{API_STATUS_PREFIX}{status} {reason}: body"))
}

#[test]
fn http_status_codes_are_classified_for_retry() {
    for status in [400, 401, 403, 404, 405, 413, 422] {
        assert!(!is_retryable_failure(&status_err(status, "Deterministic")), "{status}");
    }
    for status in [408, 425, 429, 500, 502, 503, 504] {
        assert!(is_retryable_failure(&status_err(status, "Transient")), "{status}");
    }
    assert!(!is_retryable_failure(&status_err(302, "Found")));
    assert!(is_retryable_status(599) && !is_retryable_status(600));
}

#[test]
fn unrecognized_errors_stay_retryable() {
    assert!(is_retryable_failure(&AppError::Llm("请求失败: connection reset".into())));
    assert!(is_retryable_failure(&AppError::Llm("流读取失败: unexpected EOF".into())));
    assert!(is_retryable_failure(&AppError::Io("boom".into())));
    assert!(is_retryable_failure(&AppError::Cancelled));
    assert!(is_retryable_failure(&AppError::Llm("网关说：API 返回 401 是密钥问题".into())));
}

#[test]
fn http_status_is_parsed_from_our_own_message_shape() {
    assert_eq!(http_status_of(&status_err(404, "Not Found")), Some(404));
    assert_eq!(http_status_of(&status_err(503, "Unavailable")), Some(503));
    assert_eq!(http_status_of(&AppError::Llm("API 返回 ".into())), None);
    assert_eq!(http_status_of(&AppError::Llm("API 返回 abc: x".into())), None);
    assert_eq!(http_status_of(&AppError::Other("API 返回 500".into())), None);
    assert_eq!(http_status_of(&AppError::Llm("API 返回 12345".into())), Some(123));
}

#[test]
fn retry_state_walks_the_network_retry_line() {
    let job = single_job("Fireball");
    let mut state = RetryState::new();
    assert!(matches!(state.start(false), RetryStep::Request { attempt: 0 }));
    assert!(matches!(state.start(true), RetryStep::Finish(Ok(None))));
    let mut waits = Vec::new();
    loop {
        match state.on_attempt(&job, Err(AppError::Llm("请求失败: reset".into())), false) {
            RetryStep::Backoff { millis } => {
                waits.push(millis);
                assert!(matches!(state.after_backoff(false), RetryStep::Request { .. }));
            }
            RetryStep::Finish(Err(e)) => {
                assert_eq!(e.message(), "大模型调用错误: 请求失败: reset");
                break;
            }
            other => panic!("{other:?}"),
        }
    }
    assert_eq!(waits, vec![500, 1000, 2000]);
}

#[test]
fn retry_state_stops_on_definite_failures_and_cancellation() {
    let job = single_job("Fireball");
    let mut state = RetryState::new();
    match state.on_attempt(&job, Err(status_err(401, "Unauthorized")), false) {
        RetryStep::Finish(Err(e)) => assert_eq!(e.message(), "大模型调用错误: API 返回 401 Unauthorized: body"),
        other => panic!("{other:?}"),
    }
    let mut state = RetryState::new();
    assert!(matches!(state.on_attempt(&job, Err(status_err(500, "x")), false), RetryStep::Backoff { millis: 500 }));
    assert!(matches!(state.after_backoff(true), RetryStep::Finish(Ok(None))));
    assert!(matches!(state.on_attempt(&job, Ok(None), false), RetryStep::Finish(Ok(None))));
}

#[test]
fn retry_state_corrects_structure_once() {
    let job = single_job("Deals {1} damage");
    let mut state = RetryState::new();
    match state.on_attempt(&job, Ok(Some("造成 {1} 点伤害".into())), false) {
        RetryStep::Finish(Ok(Some(t))) => assert_eq!(t, "造成 {1} 点伤害"),
        other => panic!("{other:?}"),
    }
    let hint = match state.on_attempt(&job, Ok(Some("造成伤害".into())), false) {
        RetryStep::Correct { hint } => hint,
        other => panic!("{other:?}"),
    };
    assert!(hint.contains("{1}"), "{hint}");
    assert!(matches!(state.on_attempt(&job, Ok(Some("造成伤害".into())), true), RetryStep::Finish(Ok(None))));
    match state.on_correction(&job, Ok(Some("还是造成伤害".into()))) {
        RetryStep::Finish(Err(e)) => {
            assert!(e.message().starts_with("大模型调用错误: 结构校验未通过："), "{}", e.message());
            assert!(e.message().ends_with("（已重试 1 次）"));
        }
        other => panic!("{other:?}"),
    }
    match state.on_correction(&job, Err(AppError::Llm("网络断了".into()))) {
        RetryStep::Finish(Err(e)) => assert!(e.message().ends_with("纠错重试失败：网络断了"), "{}", e.message()),
        other => panic!("{other:?}"),
    }
    match state.on_correction(&job, Ok(Some("造成 {1} 点伤害".into()))) {
        RetryStep::Finish(Ok(Some(t))) => assert_eq!(t, "造成 {1} 点伤害"),
        other => panic!("{other:?}"),
    }
}
