//! Report summaries, fail-on parsing and the text rendering.

use mqo_replay::diff::{DiffClass, DiffRow};
use mqo_replay::record::DecisionRecord;
use mqo_replay::report::{generate_report, render_report, ClassCounts, ReportConfig};
use mqo_replay::serve::report_call;

fn make_row(question: &str, class: DiffClass) -> DiffRow {
    let rec = DecisionRecord {
        ts: "2026-01-01T00:00:00Z".to_string(),
        session: "s1".to_string(),
        question: question.to_string(),
        plan: vec![],
        access_verdict: "allow".to_string(),
        budget_consumed: 1.0f64.to_bits(),
        pillars_fired: vec![],
        outcome: "answered".to_string(),
        credential_id: None,
        answer_value: None,
        bound_measure: None,
        bound_grain: None,
    };
    DiffRow {
        question: question.to_string(),
        class,
        baseline: rec.clone(),
        replay: rec,
    }
}

#[test]
fn test_report_fail_on_bind_drift_when_present() {
    let rows = vec![
        make_row("q1?", DiffClass::BindDrift),
        make_row("q2?", DiffClass::PlanDrift),
    ];
    let config = ReportConfig {
        fail_on: vec![DiffClass::BindDrift, DiffClass::ValueDrift],
    };
    let summary = generate_report(&rows, &config);
    assert!(summary.should_fail);
    assert!(summary.failing_classes.contains(&"bind_drift".to_string()));
}

#[test]
fn test_report_no_fail_on_plan_drift_only() {
    let rows = vec![make_row("q1?", DiffClass::PlanDrift)];
    let config = ReportConfig {
        fail_on: vec![DiffClass::BindDrift, DiffClass::ValueDrift],
    };
    let summary = generate_report(&rows, &config);
    assert!(!summary.should_fail);
}

#[test]
fn test_report_counts_correctly() {
    let rows = vec![
        make_row("q1?", DiffClass::Unchanged),
        make_row("q2?", DiffClass::Unchanged),
        make_row("q3?", DiffClass::PlanDrift),
    ];
    let config = ReportConfig::default();
    let summary = generate_report(&rows, &config);
    assert_eq!(*summary.counts.get("unchanged").unwrap(), 2);
    assert_eq!(*summary.counts.get("plan_drift").unwrap(), 1);
    assert_eq!(summary.total, 3);
}

#[test]
fn test_parse_fail_on() {
    let classes = ReportConfig::parse_fail_on("bind_drift,value_drift").expect("should parse");
    assert_eq!(classes.len(), 2);
    assert!(classes.contains(&DiffClass::BindDrift));
    assert!(classes.contains(&DiffClass::ValueDrift));
}

#[test]
fn test_parse_fail_on_unknown() {
    assert!(ReportConfig::parse_fail_on("unknown_class").is_err());
}

#[test]
fn test_parse_fail_on_trims_and_keeps_order() {
    let classes = ReportConfig::parse_fail_on(" value_drift , unchanged,plan_drift\t").expect("parse");
    assert_eq!(classes, vec![DiffClass::ValueDrift, DiffClass::Unchanged, DiffClass::PlanDrift]);
    assert_eq!(ReportConfig::parse_fail_on("").expect("empty"), vec![]);
}

#[test]
fn test_parse_fail_on_reports_first_unknown() {
    let err = ReportConfig::parse_fail_on("bind_drift, bogus ,other").unwrap_err();
    assert_eq!(err.name, "bogus");
    assert_eq!(err.message(), "unknown drift class: bogus");
    let err = ReportConfig::parse_fail_on("bind_drift,").unwrap_err();
    assert_eq!(err.name, "");
    let err = ReportConfig::parse_fail_on(" ").unwrap_err();
    assert_eq!(err.name, "");
}

#[test]
fn test_report_fail_on_exit_codes() {
    let fail_on = ReportConfig::parse_fail_on("bind_drift,value_drift").expect("parse fail_on");

    let rows_bind = vec![make_row("q?", DiffClass::BindDrift)];
    let config = ReportConfig { fail_on: fail_on.clone() };
    let summary = generate_report(&rows_bind, &config);
    assert!(summary.should_fail, "bind_drift should trigger failure");
    assert!(
        summary.failing_classes.contains(&"bind_drift".to_string()),
        "failing_classes should include bind_drift"
    );

    let rows_value = vec![make_row("q?", DiffClass::ValueDrift)];
    let config = ReportConfig { fail_on: fail_on.clone() };
    let summary = generate_report(&rows_value, &config);
    assert!(summary.should_fail, "value_drift should trigger failure");

    let rows_plan = vec![make_row("q?", DiffClass::PlanDrift)];
    let config = ReportConfig { fail_on: fail_on.clone() };
    let summary = generate_report(&rows_plan, &config);
    assert!(!summary.should_fail, "plan_drift alone should not trigger failure");

    let rows_clean = vec![make_row("q?", DiffClass::Unchanged)];
    let config = ReportConfig { fail_on };
    let summary = generate_report(&rows_clean, &config);
    assert!(!summary.should_fail, "unchanged should not trigger failure");

    let rows_both = vec![
        make_row("q1?", DiffClass::BindDrift),
        make_row("q2?", DiffClass::ValueDrift),
    ];
    let fail_on2 = ReportConfig::parse_fail_on("bind_drift,value_drift").expect("parse");
    let config = ReportConfig { fail_on: fail_on2 };
    let summary = generate_report(&rows_both, &config);
    assert!(summary.should_fail, "both classes present should trigger failure");
    assert_eq!(summary.failing_classes.len(), 2, "both classes should be in failing_classes");
}

#[test]
fn test_report_counts_sorted_and_sum_to_total() {
    let rows = vec![
        make_row("a", DiffClass::ValueDrift),
        make_row("b", DiffClass::Unchanged),
        make_row("c", DiffClass::BindDrift),
        make_row("d", DiffClass::ValueDrift),
        make_row("e", DiffClass::OutcomeDrift),
    ];
    let summary = generate_report(&rows, &ReportConfig::default());
    let keys: Vec<&str> = summary.counts.entries().iter().map(|e| e.0.as_str()).collect();
    assert_eq!(keys, vec!["bind_drift", "outcome_drift", "unchanged", "value_drift"]);
    let sum: usize = summary.counts.entries().iter().map(|e| e.1).sum();
    assert_eq!(sum, summary.total);
    assert_eq!(summary.counts.get("plan_drift"), None);
    assert_eq!(summary.counts.count_of_name("plan_drift"), 0);
    assert_eq!(summary.counts.count_of_name("value_drift"), 2);
}

#[test]
fn test_class_counts_from_sorted() {
    let e = |v: &[(&str, usize)]| v.iter().map(|(k, n)| (k.to_string(), *n)).collect::<Vec<_>>();
    let c = ClassCounts::from_sorted(e(&[("bind_drift", 1), ("unchanged", 4)])).expect("sorted");
    assert_eq!(c.get("unchanged"), Some(&4));
    assert_eq!(c.entries().len(), 2);
    assert!(ClassCounts::from_sorted(e(&[("unchanged", 4), ("bind_drift", 1)])).is_none());
    assert!(ClassCounts::from_sorted(e(&[("a", 1), ("a", 2)])).is_none());
    assert!(ClassCounts::from_sorted(e(&[])).is_some());
}

#[test]
fn test_report_worst_offenders_first_ten_drifted() {
    let mut rows = vec![make_row("ok", DiffClass::Unchanged)];
    for i in 0..12 {
        rows.push(make_row(&format!("q{}", i), DiffClass::PlanDrift));
    }
    let summary = generate_report(&rows, &ReportConfig::default());
    assert_eq!(summary.worst.len(), 10);
    assert_eq!(summary.worst[0].question, "q0");
    assert_eq!(summary.worst[9].question, "q9");
    assert!(summary.worst.iter().all(|w| w.class == "plan_drift"));
    assert!(summary.failing_classes.is_empty());
    assert!(!summary.should_fail);
}

#[test]
fn test_failing_classes_follow_fail_on_order() {
    let rows = vec![make_row("a", DiffClass::BindDrift), make_row("b", DiffClass::ValueDrift)];
    let config = ReportConfig {
        fail_on: vec![DiffClass::ValueDrift, DiffClass::PlanDrift, DiffClass::BindDrift, DiffClass::ValueDrift],
    };
    let summary = generate_report(&rows, &config);
    assert_eq!(summary.failing_classes, vec!["value_drift", "bind_drift", "value_drift"]);
}

#[test]
fn test_render_report_pass() {
    let rows = vec![
        make_row("q1?", DiffClass::Unchanged),
        make_row("what was Q3 revenue by region?", DiffClass::BindDrift),
    ];
    let summary = generate_report(&rows, &ReportConfig::default());
    let text = render_report(&summary);
    let rule = "\u{2500}".repeat(33);
    let expected = format!(
        "mqo-replay report: 2 questions\n{}\n  bind_drift      1\n  unchanged       1\n\nWorst offenders:\n  [bind_drift   ] what was Q3 revenue by region?\n\nPASS\n",
        rule
    );
    assert_eq!(text, expected);
}

#[test]
fn test_render_report_fail_and_unchanged_zero() {
    let rows = vec![
        make_row("a?", DiffClass::OutcomeDrift),
        make_row("b?", DiffClass::ValueDrift),
    ];
    let config = ReportConfig { fail_on: vec![DiffClass::OutcomeDrift, DiffClass::ValueDrift] };
    let summary = generate_report(&rows, &config);
    let text = render_report(&summary);
    let rule = "\u{2500}".repeat(33);
    let expected = format!(
        "mqo-replay report: 2 questions\n{}\n  outcome_drift   1\n  unchanged       0\n  value_drift     1\n\nWorst offenders:\n  [outcome_drift] a?\n  [value_drift  ] b?\n\nFAIL: drift classes present: outcome_drift, value_drift\n",
        rule
    );
    assert_eq!(text, expected);
}

#[test]
fn test_render_report_empty() {
    let summary = generate_report(&vec![], &ReportConfig::default());
    let rule = "\u{2500}".repeat(33);
    assert_eq!(
        render_report(&summary),
        format!("mqo-replay report: 0 questions\n{}\n  unchanged       0\n\nPASS\n", rule)
    );
}

#[test]
fn test_render_report_large_counts() {
    let rows: Vec<DiffRow> = (0..1234).map(|i| make_row(&format!("{}", i), DiffClass::Unchanged)).collect();
    let summary = generate_report(&rows, &ReportConfig::default());
    let text = render_report(&summary);
    assert!(text.starts_with("mqo-replay report: 1234 questions\n"));
    assert!(text.contains("\n  unchanged       1234\n"));
}

#[test]
fn test_report_call() {
    let rows = vec![make_row("x?", DiffClass::OutcomeDrift)];
    let (summary, rendered) = report_call(&rows, "outcome_drift").expect("report");
    assert!(summary.should_fail);
    assert_eq!(summary.total, 1);
    assert!(rendered.ends_with("FAIL: drift classes present: outcome_drift\n"));
    let err = report_call(&rows, "nope").unwrap_err();
    assert_eq!(err.message(), "unknown drift class: nope");
    let (summary, _) = report_call(&vec![], "").expect("empty");
    assert_eq!(summary.total, 0);
    assert!(!summary.should_fail);
}
