//! Record validation and the framing and assembly of a log.

use mqo_replay::record::{assemble_log, frame_log, DecisionRecord, LogError, ParsedLine, RecordError};

fn make_record(question: &str, outcome: &str) -> DecisionRecord {
    DecisionRecord {
        ts: "2026-01-01T00:00:00Z".to_string(),
        session: "s1".to_string(),
        question: question.to_string(),
        plan: vec![],
        access_verdict: "allow".to_string(),
        budget_consumed: 1.0f64.to_bits(),
        pillars_fired: vec![],
        outcome: outcome.to_string(),
        credential_id: None,
        answer_value: None,
        bound_measure: None,
        bound_grain: None,
    }
}

#[test]
fn test_validate_accepts_known_outcomes() {
    for o in ["answered", "clarify", "blocked"] {
        assert!(make_record("q?", o).validate().is_ok());
    }
}

#[test]
fn test_validate_errors_in_order() {
    let mut r = make_record("", "unknown");
    r.ts = String::new();
    assert!(matches!(r.validate(), Err(RecordError::MissingTs)));
    let r = make_record("", "unknown");
    assert!(matches!(r.validate(), Err(RecordError::MissingQuestion)));
    let r = make_record("q?", "unknown");
    match r.validate() {
        Err(RecordError::BadOutcome { outcome }) => assert_eq!(outcome, "unknown"),
        other => panic!("unexpected {:?}", other),
    }
    let r = make_record("q?", "Answered");
    assert!(r.validate().is_err());
}

#[test]
fn test_frame_log_skips_blank_lines_and_numbers_by_line() {
    let content = "\n  {\"a\":1}  \r\n\t\n{\"b\":2}\n   \n";
    let lines = frame_log(content);
    assert_eq!(lines.len(), 2);
    assert_eq!(lines[0].number, 2);
    assert_eq!(lines[0].text, "{\"a\":1}");
    assert_eq!(lines[1].number, 4);
    assert_eq!(lines[1].text, "{\"b\":2}");
}

#[test]
fn test_frame_log_empty_and_unicode_space() {
    assert!(frame_log("").is_empty());
    assert!(frame_log("\n\n\r\n").is_empty());
    let lines = frame_log("\u{a0}x\u{3000}");
    assert_eq!(lines.len(), 1);
    assert_eq!(lines[0].number, 1);
    assert_eq!(lines[0].text, "x");
}

#[test]
fn test_assemble_log_all_good() {
    let parsed: Vec<ParsedLine> = vec![
        (1, Ok(make_record("q1?", "answered"))),
        (3, Ok(make_record("q2?", "clarify"))),
    ];
    let recs = assemble_log(&parsed).expect("valid");
    assert_eq!(recs.len(), 2);
    assert_eq!(recs[1].question, "q2?");
    assert!(assemble_log(&vec![]).expect("empty").is_empty());
}

#[test]
fn test_assemble_log_first_error_wins() {
    let parsed: Vec<ParsedLine> = vec![
        (1, Ok(make_record("q1?", "answered"))),
        (2, Ok(make_record("q2?", "unknown"))),
        (5, Err("expected value".to_string())),
    ];
    match assemble_log(&parsed) {
        Err(LogError::Invalid(RecordError::BadOutcome { outcome })) => assert_eq!(outcome, "unknown"),
        other => panic!("unexpected {:?}", other),
    }
    let parsed: Vec<ParsedLine> = vec![
        (4, Err("expected value".to_string())),
        (7, Ok(make_record("q2?", "unknown"))),
    ];
    match assemble_log(&parsed) {
        Err(LogError::Syntax { line, message }) => {
            assert_eq!(line, 4);
            assert_eq!(message, "expected value");
        }
        other => panic!("unexpected {:?}", other),
    }
}

#[test]
fn test_error_messages() {
    assert_eq!(RecordError::MissingTs.message(), "record missing required field: ts");
    assert_eq!(RecordError::MissingQuestion.message(), "record missing required field: question");
    let e = RecordError::BadOutcome { outcome: "un\"known".to_string() };
    assert_eq!(
        e.message(),
        "record.outcome must be one of: answered, clarify, blocked (got \"un\\\"known\")"
    );
    let e = LogError::Syntax { line: 12, message: "expected value".to_string() };
    assert_eq!(e.message(), "line 12: expected value");
    let e = LogError::Invalid(RecordError::MissingTs);
    assert_eq!(e.message(), "record missing required field: ts");
}

#[test]
fn test_record_clone_keeps_fields() {
    let mut r = make_record("q?", "answered");
    r.pillars_fired = vec!["a".to_string(), "b".to_string()];
    r.answer_value = Some(2.5f64.to_bits());
    r.bound_grain = Some("month".to_string());
    let c = r.clone();
    assert_eq!(c.pillars_fired, r.pillars_fired);
    assert_eq!(c.answer_value, r.answer_value);
    assert_eq!(c.bound_grain, r.bound_grain);
    assert_eq!(format!("{:?}", c), format!("{:?}", r));
}
