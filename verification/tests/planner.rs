use bg3_translate_core::glossary::{Glossary, GlossaryEntry, GlossaryMatcher, MatchedTerm};
use bg3_translate_core::translation::planner::{
    done_events, job_outcome_events, plan_jobs, SeriesMember, TranslationJob, TranslationOutput, TranslationPlan,
};
use bg3_translate_core::types::{TranslationEntry, TranslationEvent, TranslationStatus};

fn entry(source: &str, uid: &str) -> TranslationEntry {
    TranslationEntry::new("test.loca", uid, "1", source)
}

fn translated(source: &str, target: &str, uid: &str) -> TranslationEntry {
    let mut entry = entry(source, uid);
    entry.mark_translated(target);
    entry
}

fn empty_matcher() -> GlossaryMatcher {
    GlossaryMatcher::new(&Glossary { terms: Vec::new() })
}

fn events_of(done: &[(String, String)]) -> Vec<TranslationEvent> {
    done.iter().flat_map(|(id, text)| done_events(id, text)).collect()
}

fn planned_entry_count(jobs: &[TranslationJob]) -> usize {
    jobs.iter().map(|job| job.target_ids().len()).sum()
}

#[test]
fn plan_skips_entries_with_existing_target() {
    let entries = vec![translated("Done already", "已完成", "u1"), entry("Needs work", "u2"), entry("   ", "u3")];
    let (jobs, plan, done) = plan_jobs(&entries, &empty_matcher());
    assert_eq!(plan.total, 1);
    assert_eq!(plan.skipped, 0);
    assert_eq!(plan.jobs, 1);
    assert_eq!(jobs[0].source, "Needs work");
    assert_eq!(jobs[0].output, TranslationOutput::Single { entry_id: "test.loca#u2".into() });
    assert!(done.is_empty());
}

#[test]
fn identical_sources_share_one_request() {
    let entries = vec![entry("Fireball", "u1"), entry("Fireball", "u2"), entry("Magic Missile", "u3")];
    let (jobs, plan, _) = plan_jobs(&entries, &empty_matcher());
    assert_eq!(plan.total, 3);
    assert_eq!(plan.jobs, 2);
    let group = jobs.iter().find(|job| job.source == "Fireball").unwrap();
    assert_eq!(
        group.output,
        TranslationOutput::ExactGroup { entry_ids: vec!["test.loca#u1".into(), "test.loca#u2".into()] }
    );
    assert_eq!(planned_entry_count(&jobs), 3);
}

#[test]
fn consistency_memory_completes_entries_and_emits_events() {
    let entries = vec![
        translated("Fireball", "火球术", "t1"),
        entry("Fireball", "u1"),
        entry("Cast Fireball now", "u2"),
    ];
    let (jobs, plan, done) = plan_jobs(&entries, &empty_matcher());
    assert_eq!(plan.total, 2);
    assert_eq!(plan.skipped, 1);
    assert_eq!(plan.jobs, 1);
    let events = events_of(&done);
    assert_eq!(events.len(), 2);
    assert_eq!(events[0], TranslationEvent::progress("test.loca#u1"));
    assert_eq!(events[1], TranslationEvent::done("test.loca#u1", "火球术"));
    assert_eq!(jobs[0].source, "Cast Fireball now");
    assert_eq!(jobs[0].consistency_terms.len(), 1);
    assert_eq!(jobs[0].consistency_terms[0].target, "火球术");
}

#[test]
fn series_members_merge_into_one_job() {
    let entries = vec![entry("Silver's Hair 9b", "u1"), entry("Silver's Hair 10", "u2"), entry("Other Thing", "u3")];
    let (jobs, plan, _) = plan_jobs(&entries, &empty_matcher());
    assert_eq!(plan.total, 3);
    assert_eq!(plan.jobs, 2);
    let series = jobs.iter().find(|job| matches!(job.output, TranslationOutput::Series { .. })).unwrap();
    assert_eq!(series.source, "Silver's Hair");
    match &series.output {
        TranslationOutput::Series { members } => {
            let suffixes: Vec<_> = members.iter().map(|m| m.suffix.as_str()).collect();
            assert_eq!(suffixes, vec!["9b", "10"]);
        }
        other => panic!("{other:?}"),
    }
    assert_eq!(planned_entry_count(&jobs), 3);
}

#[test]
fn single_member_series_is_not_merged() {
    let entries = vec![entry("Silver's Hair 9b", "u1")];
    let (jobs, plan, _) = plan_jobs(&entries, &empty_matcher());
    assert_eq!(plan.jobs, 1);
    assert_eq!(jobs[0].source, "Silver's Hair 9b");
    assert!(matches!(jobs[0].output, TranslationOutput::Single { .. }));
}

#[test]
fn series_completed_from_memory_keeps_suffix() {
    let entries = vec![
        translated("Silver's Hair 9b", "银发 9b", "t1"),
        entry("Silver's Hair 10", "u1"),
        entry("Silver's Hair 11", "u2"),
    ];
    let (jobs, plan, done) = plan_jobs(&entries, &empty_matcher());
    assert_eq!(plan.total, 2);
    assert_eq!(plan.skipped, 2);
    assert_eq!(plan.jobs, 0);
    assert_eq!(
        done,
        vec![
            ("test.loca#u1".to_string(), "银发 10".to_string()),
            ("test.loca#u2".to_string(), "银发 11".to_string()),
        ]
    );
    assert!(jobs.is_empty());
}

#[test]
fn aliased_cjk_series_reuses_latin_memory() {
    let entries = vec![translated("Silver's Hair 9b", "银发 9b", "same"), entry("银色发型10", "same")];
    let (_, plan, done) = plan_jobs(&entries, &empty_matcher());
    assert_eq!(plan.skipped, 1);
    assert_eq!(plan.jobs, 0);
    assert_eq!(events_of(&done).last().unwrap(), &TranslationEvent::done("test.loca#same", "银发 10"));
}

#[test]
fn jobs_carry_glossary_matches_and_consistency() {
    let glossary = Glossary {
        terms: vec![GlossaryEntry { source: "Fireball".into(), target: "火球术".into(), ..Default::default() }],
    };
    let matcher = GlossaryMatcher::new(&glossary);
    let entries = vec![translated("Magic Missile", "魔法飞弹", "t1"), entry("Cast Fireball and Magic Missile!", "u1")];
    let (jobs, _, _) = plan_jobs(&entries, &matcher);
    assert_eq!(jobs.len(), 1);
    assert_eq!(jobs[0].matches, vec![MatchedTerm { source: "Fireball".into(), target: "火球术".into() }]);
    assert_eq!(jobs[0].consistency_terms[0].source, "Magic Missile");
}

#[test]
fn empty_input_plans_nothing() {
    let (jobs, plan, done) = plan_jobs(&[], &empty_matcher());
    assert!(jobs.is_empty());
    assert_eq!(plan, TranslationPlan::default());
    assert!(done.is_empty());
}

#[test]
fn target_ids_covers_all_output_kinds() {
    let single = TranslationJob {
        source: "a".into(),
        matches: Vec::new(),
        consistency_terms: Vec::new(),
        output: TranslationOutput::Single { entry_id: "e1".into() },
    };
    assert_eq!(single.target_ids(), vec!["e1".to_string()]);

    let group = TranslationJob {
        source: "a".into(),
        matches: Vec::new(),
        consistency_terms: Vec::new(),
        output: TranslationOutput::ExactGroup { entry_ids: vec!["e1".into(), "e2".into()] },
    };
    assert_eq!(group.target_ids(), vec!["e1".to_string(), "e2".to_string()]);

    let series = TranslationJob {
        source: "a".into(),
        matches: Vec::new(),
        consistency_terms: Vec::new(),
        output: TranslationOutput::Series {
            members: vec![
                SeriesMember { entry_id: "e1".into(), suffix: "9b".into() },
                SeriesMember { entry_id: "e2".into(), suffix: "10".into() },
            ],
        },
    };
    assert_eq!(series.target_ids(), vec!["e1".to_string(), "e2".to_string()]);
}

#[test]
fn events_progress_events_carry_translating_status() {
    assert_eq!(
        done_events("e1", "译文"),
        vec![
            TranslationEvent::Progress { entry_id: "e1".into(), status: TranslationStatus::Translating },
            TranslationEvent::done("e1", "译文"),
        ]
    );
}

#[test]
fn engine_progress_events_carry_translating_status() {
    assert_eq!(
        done_events("e1", "译文"),
        vec![
            TranslationEvent::Progress { entry_id: "e1".into(), status: TranslationStatus::Translating },
            TranslationEvent::done("e1", "译文"),
        ]
    );
}

#[test]
fn every_pending_entry_is_planned_exactly_once() {
    let entries = vec![
        translated("Fire Bolt", "火焰箭", "h0"),
        entry("Fire Bolt", "h1"),
        entry("Silver's Hair", "h2"),
        entry("Silver's Hair 9b", "h3"),
        entry("Silver's Hair 2", "h4"),
        entry("Gold Ring", "h5"),
        entry("Gold Ring", "h6"),
        entry("Lonely 7", "h7"),
        entry("", "h8"),
        entry("Mind Flayer", "h9"),
    ];
    let (jobs, plan, done) = plan_jobs(&entries, &empty_matcher());
    let mut covered: Vec<String> = done.iter().map(|(id, _)| id.clone()).collect();
    for job in &jobs {
        covered.extend(job.target_ids());
    }
    covered.sort();
    let mut pending: Vec<String> =
        entries.iter().filter(|e| e.is_pending_translation()).map(|e| e.id.clone()).collect();
    pending.sort();
    assert_eq!(covered, pending);
    assert_eq!(plan.total, plan.skipped + planned_entry_count(&jobs));
    assert_eq!(plan.jobs, jobs.len());
}

fn job_with(output: TranslationOutput) -> TranslationJob {
    TranslationJob { source: "Silver's Hair".to_string(), matches: Vec::new(), consistency_terms: Vec::new(), output }
}

#[test]
fn job_outcomes_hand_out_one_event_per_entry() {
    let series = job_with(TranslationOutput::Series {
        members: vec![
            SeriesMember { entry_id: "a".to_string(), suffix: "9b".to_string() },
            SeriesMember { entry_id: "b".to_string(), suffix: "#10".to_string() },
        ],
    });
    let (events, translated, failed) = job_outcome_events(&series, &Ok("银发".to_string()));
    assert_eq!(
        events,
        vec![
            TranslationEvent::Done { entry_id: "a".to_string(), text: "银发 9b".to_string() },
            TranslationEvent::Done { entry_id: "b".to_string(), text: "银发#10".to_string() },
        ]
    );
    assert_eq!((translated, failed), (2, 0));

    let group = job_with(TranslationOutput::ExactGroup { entry_ids: vec!["x".to_string(), "y".to_string()] });
    let err = bg3_translate_core::error::AppError::Llm("超时".to_string());
    let message = err.message();
    let (events, translated, failed) = job_outcome_events(&group, &Err(err));
    assert_eq!(
        events,
        vec![
            TranslationEvent::Error { entry_id: "x".to_string(), message: message.clone() },
            TranslationEvent::Error { entry_id: "y".to_string(), message },
        ]
    );
    assert_eq!((translated, failed), (0, 2));

    let single = job_with(TranslationOutput::Single { entry_id: "s".to_string() });
    let (events, translated, failed) = job_outcome_events(&single, &Ok("火球".to_string()));
    assert_eq!(events, vec![TranslationEvent::Done { entry_id: "s".to_string(), text: "火球".to_string() }]);
    assert_eq!((translated, failed), (1, 0));
}
