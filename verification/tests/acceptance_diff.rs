//! Diffs of whole logs: the no-change diff, the drifted diff, the value
//! tolerance boundary, and the order and determinism of the output.

use mqo_replay::diff::{classify, diff_logs, diff_records, DiffClass};
use mqo_replay::record::DecisionRecord;
use mqo_replay::replay::ReplayRecord;
use mqo_replay::report::{generate_report, render_report, ReportConfig};

fn rec(
    question: &str,
    outcome: &str,
    pillars: &[&str],
    measure: Option<&str>,
    grain: Option<&str>,
    value: Option<f64>,
) -> DecisionRecord {
    DecisionRecord {
        ts: "2026-01-01T00:00:00Z".to_string(),
        session: "s1".to_string(),
        question: question.to_string(),
        plan: vec![],
        access_verdict: "allow".to_string(),
        budget_consumed: 1.0f64.to_bits(),
        pillars_fired: pillars.iter().map(|s| s.to_string()).collect(),
        outcome: outcome.to_string(),
        credential_id: None,
        answer_value: value.map(f64::to_bits),
        bound_measure: measure.map(|s| s.to_string()),
        bound_grain: grain.map(|s| s.to_string()),
    }
}

fn within(a: f64, b: f64, tol: f64, relative: bool) -> bool {
    if relative {
        let denom = a.abs().max(b.abs());
        if denom == 0.0 {
            return true;
        }
        (a - b).abs() / denom <= tol
    } else {
        (a - b).abs() <= tol
    }
}

/// The default convention: absolute tolerance 1e-6.
fn default_close(a: u64, b: u64) -> bool {
    within(f64::from_bits(a), f64::from_bits(b), 1e-6, false)
}

fn fixture_records() -> Vec<DecisionRecord> {
    let mut a = rec("what is revenue?", "answered", &["pillar_measure"], Some("revenue"), Some("month"), Some(1000.0));
    a.ts = "2026-01-01T00:00:00Z".to_string();
    let mut b = rec("what is margin?", "answered", &["pillar_measure"], Some("margin"), Some("quarter"), Some(250.0));
    b.ts = "2026-01-01T00:01:00Z".to_string();
    vec![a, b]
}

#[test]
fn test_diff_no_change_all_unchanged() {
    let baseline = fixture_records();
    // "fresh" is identical to baseline
    let fresh = baseline.clone();

    let rows = diff_logs(&baseline, &fresh, &default_close);

    assert_eq!(rows.len(), baseline.len(), "should have one row per question");
    for row in &rows {
        assert_eq!(
            row.class,
            DiffClass::Unchanged,
            "no-change diff should classify as unchanged for question: {}",
            row.question
        );
    }
}

#[test]
fn test_diff_drifted_labels_all_categories() {
    let baseline = vec![
        rec("q_outcome?", "answered", &["pillar_a"], None, None, None),
        rec("q_bind?", "answered", &["pillar_a"], Some("revenue"), Some("month"), None),
        rec("q_plan?", "answered", &["pillar_a"], None, None, None),
        rec("q_unchanged?", "answered", &["pillar_a"], Some("cost"), None, None),
    ];
    let fresh = vec![
        rec("q_outcome?", "clarify", &["pillar_a"], None, None, None),
        rec("q_bind?", "answered", &["pillar_a"], Some("margin"), Some("month"), None),
        rec("q_plan?", "answered", &["pillar_b"], None, None, None),
        rec("q_unchanged?", "answered", &["pillar_a"], Some("cost"), None, None),
    ];

    let rows = diff_logs(&baseline, &fresh, &default_close);

    let find = |q: &str| {
        rows.iter()
            .find(|r| r.question == q)
            .unwrap_or_else(|| panic!("missing row for {}", q))
    };

    assert_eq!(find("q_outcome?").class, DiffClass::OutcomeDrift, "q_outcome? should be outcome_drift");
    assert_eq!(find("q_bind?").class, DiffClass::BindDrift, "q_bind? should be bind_drift");
    assert_eq!(find("q_plan?").class, DiffClass::PlanDrift, "q_plan? should be plan_drift");
    assert_eq!(find("q_unchanged?").class, DiffClass::Unchanged, "q_unchanged? should be unchanged");

    assert_eq!(find("q_outcome?").question, "q_outcome?");
    assert_eq!(find("q_bind?").question, "q_bind?");
    assert_eq!(find("q_plan?").question, "q_plan?");
}

fn rec_with_value(value: Option<f64>) -> DecisionRecord {
    rec("what is revenue?", "answered", &[], None, None, value)
}

fn verdict(b: &DecisionRecord, f: &DecisionRecord, tol: f64, relative: bool) -> bool {
    match (b.answer_value, f.answer_value) {
        (Some(x), Some(y)) => within(f64::from_bits(x), f64::from_bits(y), tol, relative),
        _ => true,
    }
}

#[test]
fn test_value_drift_boundary() {
    let tol = 0.5_f64;
    let base = rec_with_value(Some(100.0));

    let at_tol = rec_with_value(Some(100.0 + tol));
    assert_eq!(
        classify(&base, &at_tol, verdict(&base, &at_tol, tol, false)),
        DiffClass::Unchanged,
        "exactly at tolerance boundary should be unchanged"
    );

    let beyond_tol = rec_with_value(Some(100.0 + tol + f64::EPSILON * 1000.0));
    assert_eq!(
        classify(&base, &beyond_tol, verdict(&base, &beyond_tol, tol, false)),
        DiffClass::ValueDrift,
        "just beyond tolerance should be value_drift"
    );

    let within_tol = rec_with_value(Some(100.0 + tol * 0.1));
    assert_eq!(
        classify(&base, &within_tol, verdict(&base, &within_tol, tol, false)),
        DiffClass::Unchanged,
        "well within tolerance should be unchanged"
    );

    let neg_beyond = rec_with_value(Some(100.0 - tol - f64::EPSILON * 1000.0));
    assert_eq!(
        classify(&base, &neg_beyond, verdict(&base, &neg_beyond, tol, false)),
        DiffClass::ValueDrift,
        "negative direction beyond tolerance should be value_drift"
    );

    let no_val_base = rec_with_value(None);
    let no_val_fresh = rec_with_value(None);
    assert_eq!(
        classify(&no_val_base, &no_val_fresh, verdict(&no_val_base, &no_val_fresh, tol, false)),
        DiffClass::Unchanged,
        "both None should be unchanged"
    );

    let fresh_no_val = rec_with_value(None);
    assert_eq!(
        classify(&base, &fresh_no_val, verdict(&base, &fresh_no_val, tol, false)),
        DiffClass::ValueDrift,
        "base has value, fresh doesn't: should be value_drift"
    );
}

fn make_records() -> Vec<DecisionRecord> {
    let mut a = rec("what is revenue?", "answered", &["pillar_measure"], Some("revenue"), Some("month"), Some(1000.0));
    a.ts = "2026-01-01T00:00:00Z".to_string();
    let mut b = rec(
        "what is margin?",
        "answered",
        &["pillar_measure", "pillar_grain"],
        Some("margin"),
        Some("quarter"),
        Some(250.5),
    );
    b.ts = "2026-01-01T00:01:00Z".to_string();
    vec![a, b]
}

#[test]
fn test_determinism() {
    let baseline = make_records();

    // Fresh has one drift
    let mut fresh = baseline.clone();
    fresh[1].outcome = "clarify".to_string();

    // Run diff twice
    let rows1 = diff_logs(&baseline, &fresh, &default_close);
    let rows2 = diff_logs(&baseline, &fresh, &default_close);

    let json1 = format!("{:?}", rows1);
    let json2 = format!("{:?}", rows2);
    assert_eq!(json1, json2, "diff output should be deterministic");

    // Report should also be deterministic
    let report_config = ReportConfig { fail_on: vec![] };
    let summary1 = generate_report(&rows1, &report_config);
    let summary2 = generate_report(&rows2, &report_config);

    let rs1 = format!("{:?}", summary1);
    let rs2 = format!("{:?}", summary2);
    assert_eq!(rs1, rs2, "report output should be deterministic");
    assert_eq!(render_report(&summary1), render_report(&summary2));

    // Classes should not contain any timestamp or wall-clock fields
    for row in &rows1 {
        let json = row.class.name();
        assert!(
            !json.contains("2026") && !json.contains("clock"),
            "drift class should not contain timestamps: {}",
            json
        );
    }
}

#[test]
fn test_diff_order_matches_baseline_order() {
    let baseline = make_records();
    let fresh = baseline.clone();
    let rows = diff_logs(&baseline, &fresh, &default_close);

    assert_eq!(rows.len(), baseline.len());
    for (i, row) in rows.iter().enumerate() {
        assert_eq!(row.question, baseline[i].question,
            "row {} question should match baseline order", i);
    }
}

#[test]
fn test_diff_skips_unanswered_and_uses_first_match() {
    let baseline = vec![
        rec("a?", "answered", &[], None, None, None),
        rec("b?", "answered", &[], None, None, None),
        rec("c?", "answered", &[], None, None, None),
    ];
    let fresh = vec![
        rec("c?", "clarify", &[], None, None, None),
        rec("a?", "blocked", &[], None, None, None),
        rec("a?", "answered", &[], None, None, None),
    ];
    let rows = diff_logs(&baseline, &fresh, &default_close);
    assert_eq!(rows.len(), 2);
    assert_eq!(rows[0].question, "a?");
    assert_eq!(rows[0].class, DiffClass::OutcomeDrift);
    assert_eq!(rows[0].replay.outcome, "blocked");
    assert_eq!(rows[1].question, "c?");
    assert_eq!(rows[1].class, DiffClass::OutcomeDrift);
}

#[test]
fn test_diff_logs_asks_tolerance_only_when_reached() {
    let baseline = vec![
        rec("a?", "answered", &["p"], None, None, Some(1.0)),
        rec("b?", "answered", &["p"], None, None, Some(1.0)),
    ];
    let fresh = vec![
        rec("a?", "clarify", &["p"], None, None, Some(1.0)),
        rec("b?", "answered", &["p"], None, None, Some(1.0)),
    ];
    let asked = std::cell::Cell::new(0u32);
    let never_close = |_a: u64, _b: u64| {
        asked.set(asked.get() + 1);
        false
    };
    let rows = diff_logs(&baseline, &fresh, &never_close);
    assert_eq!(rows[0].class, DiffClass::OutcomeDrift);
    assert_eq!(rows[1].class, DiffClass::ValueDrift);
    assert_eq!(asked.get(), 1);
}

#[test]
fn test_diff_records_one_row_per_replay() {
    let replays = vec![
        ReplayRecord {
            baseline: rec("a?", "answered", &["x"], None, None, Some(10.0)),
            fresh: rec("zzz", "answered", &["x"], None, None, Some(10.5)),
        },
        ReplayRecord {
            baseline: rec("b?", "answered", &["x"], Some("m"), None, None),
            fresh: rec("b?", "answered", &["x"], Some("m"), None, None),
        },
    ];
    let close = |a: u64, b: u64| within(f64::from_bits(a), f64::from_bits(b), 0.1, false);
    let rows = diff_records(&replays, &close);
    assert_eq!(rows.len(), 2);
    assert_eq!(rows[0].question, "a?");
    assert_eq!(rows[0].class, DiffClass::ValueDrift);
    assert_eq!(rows[0].replay.question, "zzz");
    assert_eq!(rows[1].class, DiffClass::Unchanged);
}
