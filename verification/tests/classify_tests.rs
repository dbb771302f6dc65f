//! Drift classification of record pairs. Answer values are carried as the
//! bit patterns of doubles; the tolerance verdict is computed here with the
//! absolute/relative convention and handed to `classify`.

use mqo_replay::diff::{classify, pillars_equal, DiffClass};
use mqo_replay::record::DecisionRecord;

fn rec(
    question: &str,
    outcome: &str,
    pillars: &[&str],
    measure: Option<&str>,
    grain: Option<&str>,
    value: Option<f64>,
) -> DecisionRecord {
    DecisionRecord {
        ts: "2026-01-01T00:00:00Z".to_string(),
        session: "s1".to_string(),
        question: question.to_string(),
        plan: vec![],
        access_verdict: "allow".to_string(),
        budget_consumed: 1.0f64.to_bits(),
        pillars_fired: pillars.iter().map(|s| s.to_string()).collect(),
        outcome: outcome.to_string(),
        credential_id: None,
        answer_value: value.map(f64::to_bits),
        bound_measure: measure.map(|s| s.to_string()),
        bound_grain: grain.map(|s| s.to_string()),
    }
}

fn within(a: f64, b: f64, tol: f64, relative: bool) -> bool {
    if relative {
        let denom = a.abs().max(b.abs());
        if denom == 0.0 {
            return true;
        }
        (a - b).abs() / denom <= tol
    } else {
        (a - b).abs() <= tol
    }
}

/// The tolerance verdict on the two records' answers (true when either is
/// absent: it is then not consulted).
fn verdict(b: &DecisionRecord, f: &DecisionRecord, tol: f64, relative: bool) -> bool {
    match (b.answer_value, f.answer_value) {
        (Some(x), Some(y)) => within(f64::from_bits(x), f64::from_bits(y), tol, relative),
        _ => true,
    }
}

const DEFAULT_TOL: f64 = 1e-6;

#[test]
fn test_unchanged() {
    let b = rec("q?", "answered", &["pillar_a"], Some("revenue"), Some("month"), Some(100.0));
    let f = b.clone();
    let class = classify(&b, &f, verdict(&b, &f, DEFAULT_TOL, false));
    assert_eq!(class, DiffClass::Unchanged);
}

#[test]
fn test_outcome_drift() {
    let b = rec("q?", "answered", &["pillar_a"], None, None, None);
    let f = rec("q?", "clarify", &["pillar_a"], None, None, None);
    let class = classify(&b, &f, verdict(&b, &f, DEFAULT_TOL, false));
    assert_eq!(class, DiffClass::OutcomeDrift);
}

#[test]
fn test_bind_drift_measure() {
    let b = rec("q?", "answered", &["pillar_a"], Some("revenue"), None, None);
    let f = rec("q?", "answered", &["pillar_a"], Some("margin"), None, None);
    let class = classify(&b, &f, verdict(&b, &f, DEFAULT_TOL, false));
    assert_eq!(class, DiffClass::BindDrift);
}

#[test]
fn test_plan_drift() {
    let b = rec("q?", "answered", &["pillar_a"], None, None, None);
    let f = rec("q?", "answered", &["pillar_b"], None, None, None);
    let class = classify(&b, &f, verdict(&b, &f, DEFAULT_TOL, false));
    assert_eq!(class, DiffClass::PlanDrift);
}

#[test]
fn test_value_drift_beyond_tolerance() {
    let b = rec("q?", "answered", &[], None, None, Some(100.0));
    let f = rec("q?", "answered", &[], None, None, Some(101.0));
    let class = classify(&b, &f, verdict(&b, &f, 0.5, false));
    assert_eq!(class, DiffClass::ValueDrift);
}

#[test]
fn test_value_within_tolerance() {
    let b = rec("q?", "answered", &[], None, None, Some(100.0));
    let f = rec("q?", "answered", &[], None, None, Some(100.0000001));
    let class = classify(&b, &f, verdict(&b, &f, DEFAULT_TOL, false));
    assert_eq!(class, DiffClass::Unchanged);
}

#[test]
fn test_value_drift_boundary_exact() {
    // At exactly tol: within (not drift)
    let b = rec("q?", "answered", &[], None, None, Some(100.0));
    let f = rec("q?", "answered", &[], None, None, Some(100.5));
    let class = classify(&b, &f, verdict(&b, &f, 0.5, false));
    assert_eq!(class, DiffClass::Unchanged, "exactly at tolerance should be unchanged");
}

#[test]
fn test_value_drift_boundary_beyond() {
    // Just beyond tol: drift
    let b = rec("q?", "answered", &[], None, None, Some(100.0));
    let f = rec("q?", "answered", &[], None, None, Some(100.500001));
    let class = classify(&b, &f, verdict(&b, &f, 0.5, false));
    assert_eq!(class, DiffClass::ValueDrift, "just beyond tolerance should be value_drift");
}

#[test]
fn test_relative_tolerance() {
    // 1% relative tolerance: 100.0 vs 101.0 = 1% diff (at boundary)
    let b = rec("q?", "answered", &[], None, None, Some(100.0));
    let f = rec("q?", "answered", &[], None, None, Some(101.0));
    let class = classify(&b, &f, verdict(&b, &f, 0.01, true));
    assert_eq!(class, DiffClass::Unchanged, "1% diff at 1% relative tol = unchanged");
}

#[test]
fn test_plan_drift_order_independent() {
    // Order of pillars_fired doesn't matter
    let b = rec("q?", "answered", &["a", "b", "c"], None, None, None);
    let f = rec("q?", "answered", &["c", "a", "b"], None, None, None);
    let class = classify(&b, &f, verdict(&b, &f, DEFAULT_TOL, false));
    assert_eq!(class, DiffClass::Unchanged);
}

#[test]
fn test_priority_outcome_before_bind_and_plan() {
    let b = rec("q?", "answered", &["a"], Some("revenue"), None, Some(1.0));
    let f = rec("q?", "blocked", &["b"], Some("margin"), None, None);
    assert_eq!(classify(&b, &f, false), DiffClass::OutcomeDrift);
}

#[test]
fn test_priority_bind_before_plan() {
    let b = rec("q?", "answered", &["a"], None, Some("month"), None);
    let f = rec("q?", "answered", &["b"], None, Some("quarter"), None);
    assert_eq!(classify(&b, &f, true), DiffClass::BindDrift);
}

#[test]
fn test_bind_drift_grain_present_on_one_side() {
    let b = rec("q?", "answered", &[], None, Some("month"), None);
    let f = rec("q?", "answered", &[], None, None, None);
    assert_eq!(classify(&b, &f, true), DiffClass::BindDrift);
}

#[test]
fn test_value_present_on_one_side_drifts() {
    let b = rec("q?", "answered", &[], None, None, None);
    let f = rec("q?", "answered", &[], None, None, Some(3.0));
    assert_eq!(classify(&b, &f, true), DiffClass::ValueDrift);
    assert_eq!(classify(&f, &b, true), DiffClass::ValueDrift);
}

#[test]
fn test_verdict_only_counts_when_both_values_present() {
    let b = rec("q?", "answered", &[], None, None, None);
    let f = rec("q?", "answered", &[], None, None, None);
    assert_eq!(classify(&b, &f, false), DiffClass::Unchanged);
    let b2 = rec("q?", "answered", &[], None, None, Some(1.0));
    let f2 = rec("q?", "answered", &[], None, None, Some(1.0));
    assert_eq!(classify(&b2, &f2, false), DiffClass::ValueDrift);
}

#[test]
fn test_pillars_equal_compares_sets() {
    let s = |v: &[&str]| v.iter().map(|x| x.to_string()).collect::<Vec<String>>();
    assert!(pillars_equal(&s(&["a", "b", "a"]), &s(&["a", "a", "b"])));
    assert!(pillars_equal(&s(&["a", "b", "a"]), &s(&["b", "a"])));
    assert!(pillars_equal(&s(&["pillar_a", "pillar_a"]), &s(&["pillar_a"])));
    assert!(!pillars_equal(&s(&["a", "b"]), &s(&["a"])));
    assert!(!pillars_equal(&s(&["a"]), &s(&["a", "c"])));
    assert!(pillars_equal(&s(&[]), &s(&[])));
    assert!(!pillars_equal(&s(&[]), &s(&["a"])));
}

#[test]
fn test_repeated_pillar_is_not_plan_drift() {
    let b = rec("q?", "answered", &["pillar_a", "pillar_a"], None, None, None);
    let f = rec("q?", "answered", &["pillar_a"], None, None, None);
    assert_eq!(classify(&b, &f, true), DiffClass::Unchanged);
}

#[test]
fn test_class_names() {
    let all = [
        DiffClass::Unchanged,
        DiffClass::PlanDrift,
        DiffClass::BindDrift,
        DiffClass::OutcomeDrift,
        DiffClass::ValueDrift,
    ];
    let names = ["unchanged", "plan_drift", "bind_drift", "outcome_drift", "value_drift"];
    for (c, n) in all.iter().zip(names.iter()) {
        assert_eq!(c.name(), *n);
        assert_eq!(c.to_string(), n.to_string());
        assert_eq!(DiffClass::from_name(n), Some(*c));
    }
    assert_eq!(DiffClass::from_name("Unchanged"), None);
    assert_eq!(DiffClass::from_name(" unchanged"), None);
}
