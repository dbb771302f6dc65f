//! The since filter and the bookkeeping of a replay run, driven here by a
//! stand-in agent that answers every question with a fixed record.

use mqo_replay::record::DecisionRecord;
use mqo_replay::replay::{passes_since_filter, replay_config_from, ReplayConfig, ReplayRun};

fn make_record(question: &str, outcome: &str) -> DecisionRecord {
    DecisionRecord {
        ts: "2026-01-01T00:00:00Z".to_string(),
        session: "s1".to_string(),
        question: question.to_string(),
        plan: vec![],
        access_verdict: "allow".to_string(),
        budget_consumed: 1.0f64.to_bits(),
        pillars_fired: vec![],
        outcome: outcome.to_string(),
        credential_id: None,
        answer_value: None,
        bound_measure: None,
        bound_grain: None,
    }
}

#[test]
fn test_since_filter_passes_equal() {
    let r = make_record("q?", "answered");
    let since = Some("2026-01-01T00:00:00Z".to_string());
    assert!(passes_since_filter(&r, &since));
}

#[test]
fn test_since_filter_rejects_earlier() {
    let r = make_record("q?", "answered");
    let since = Some("2026-01-02T00:00:00Z".to_string());
    assert!(!passes_since_filter(&r, &since));
}

#[test]
fn test_since_filter_none_passes_all() {
    let r = make_record("q?", "answered");
    assert!(passes_since_filter(&r, &None));
}

fn stamped(ts: &str) -> DecisionRecord {
    let mut r = make_record("q?", "answered");
    r.ts = ts.to_string();
    r
}

#[test]
fn test_since_filter_compares_instants() {
    let since = |s: &str| Some(s.to_string());
    // A fraction after the same second is later.
    assert!(passes_since_filter(&stamped("2026-01-01T00:00:00.5Z"), &since("2026-01-01T00:00:00Z")));
    assert!(!passes_since_filter(&stamped("2026-01-01T00:00:00Z"), &since("2026-01-01T00:00:00.5Z")));
    // Fractions compare as decimals, whatever their length.
    assert!(passes_since_filter(&stamped("2026-01-01T00:00:00.50Z"), &since("2026-01-01T00:00:00.5Z")));
    assert!(!passes_since_filter(&stamped("2026-01-01T00:00:00.49999Z"), &since("2026-01-01T00:00:00.5Z")));
    // Offsets are taken into account: 01:00+01:00 is 00:00Z.
    assert!(passes_since_filter(&stamped("2026-01-01T01:00:00+01:00"), &since("2026-01-01T00:00:00Z")));
    assert!(!passes_since_filter(&stamped("2026-01-01T00:30:00+01:00"), &since("2026-01-01T00:00:00Z")));
    assert!(passes_since_filter(&stamped("2025-12-31T23:00:00-01:00"), &since("2026-01-01T00:00:00Z")));
    // Month, year and leap-day boundaries.
    assert!(passes_since_filter(&stamped("2024-03-01T00:00:00Z"), &since("2024-02-29T23:59:59Z")));
    assert!(!passes_since_filter(&stamped("2023-12-31T23:59:59Z"), &since("2024-01-01T00:00:00Z")));
    assert!(passes_since_filter(&stamped("2026-01-01t00:00:00z"), &since("2026-01-01 00:00:00Z")));
}

#[test]
fn test_since_filter_falls_back_to_string_order() {
    let since = |s: &str| Some(s.to_string());
    // Not timestamps (a bare date, a day out of range): compared as strings.
    assert!(passes_since_filter(&stamped("2026-01-01T00:00:00Z"), &since("2026-01-01")));
    assert!(!passes_since_filter(&stamped("2026-01-01"), &since("2026-01-01T00:00:00Z")));
    assert!(passes_since_filter(&stamped("2026-02-30T00:00:00Z"), &since("2026-02-29T00:00:00Z")));
    assert!(passes_since_filter(&stamped("anything"), &since("")));
    assert!(passes_since_filter(&stamped("\u{e9}"), &since("z")));
}

/// The stand-in agent: a fixed record whatever the question.
fn fixed_agent(_question: &str) -> DecisionRecord {
    let mut r = make_record("x", "answered");
    r.session = "replay".to_string();
    r
}

fn fixture_log() -> Vec<DecisionRecord> {
    let mut a = make_record("what is revenue?", "answered");
    a.ts = "2026-01-01T00:00:00Z".to_string();
    let mut b = make_record("what is margin?", "answered");
    b.ts = "2026-01-01T00:01:00Z".to_string();
    let mut c = make_record("show me costs", "clarify");
    c.ts = "2026-01-01T00:02:00Z".to_string();
    vec![a, b, c]
}

fn drive(baseline: &Vec<DecisionRecord>, config: &ReplayConfig) -> Vec<mqo_replay::replay::ReplayRecord> {
    let mut run = ReplayRun::new(baseline, config);
    while let Some(q) = run.next_question() {
        let fresh = fixed_agent(&q);
        run.record_fresh(fresh);
    }
    run.finish()
}

#[test]
fn test_run_produces_one_record_per_question() {
    let baseline = fixture_log();
    assert_eq!(baseline.len(), 3, "fixture has 3 questions");
    let config = ReplayConfig { agent_cmd: "stand-in".to_string(), since: None };
    let replays = drive(&baseline, &config);
    assert_eq!(replays.len(), 3, "should produce one record per question");
    for (i, r) in replays.iter().enumerate() {
        assert_eq!(
            r.baseline.question, baseline[i].question,
            "baseline question should be preserved at index {}", i
        );
        assert!(!r.fresh.outcome.is_empty(), "fresh record should have an outcome");
    }
}

#[test]
fn test_run_since_filter_reduces_count() {
    let baseline = fixture_log();
    let config = ReplayConfig {
        agent_cmd: "stand-in".to_string(),
        since: Some("2026-01-01T00:01:00Z".to_string()),
    };
    let replays = drive(&baseline, &config);
    assert_eq!(replays.len(), 2, "since filter should exclude the first record");
    assert_eq!(replays[0].baseline.question, "what is margin?");
}

#[test]
fn test_run_questions_in_order_and_extra_answers_ignored() {
    let baseline = fixture_log();
    let mut run = ReplayRun::new(&baseline, &ReplayConfig::default());
    let mut asked = vec![];
    while let Some(q) = run.next_question() {
        asked.push(q.clone());
        run.record_fresh(fixed_agent(&q));
    }
    assert_eq!(asked, vec!["what is revenue?", "what is margin?", "show me costs"]);
    run.record_fresh(fixed_agent("late"));
    assert_eq!(run.next_question(), None);
    assert_eq!(run.finish().len(), 3);
}

#[test]
fn test_run_abandon_names_pending_question() {
    let baseline = fixture_log();
    let mut run = ReplayRun::new(&baseline, &ReplayConfig::default());
    let q = run.next_question().expect("pending");
    run.record_fresh(fixed_agent(&q));
    let failure = run.abandon().expect("a question was pending");
    assert_eq!(failure.question, "what is margin?");
    assert_eq!(failure.message(), "replaying question: what is margin?");

    let empty: Vec<DecisionRecord> = vec![];
    let run = ReplayRun::new(&empty, &ReplayConfig::default());
    assert!(run.abandon().is_none());
}

#[test]
fn test_replay_config_defaults() {
    let d = ReplayConfig::default();
    assert_eq!(d.agent_cmd, "mqo-agent");
    assert!(d.since.is_none());
    let c = replay_config_from(None, Some("2026".to_string()));
    assert_eq!(c.agent_cmd, "mqo-agent");
    assert_eq!(c.since.as_deref(), Some("2026"));
    let c = replay_config_from(Some("my-agent".to_string()), None);
    assert_eq!(c.agent_cmd, "my-agent");
}
