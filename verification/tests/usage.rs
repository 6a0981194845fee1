use codescout::usage::{classify_result, CallOutcome, UsageRecorder};

#[test]
fn classify_error_result() {
    let r = CallOutcome::Failed { message: "boom".to_string() };
    let (outcome, overflowed, msg) = classify_result(&r);
    assert_eq!(outcome, "error");
    assert!(!overflowed);
    assert_eq!(msg.as_deref(), Some("boom"));
}

#[test]
fn classify_recoverable_error() {
    // { "error": "path not found", "hint": "check path" }
    let r = CallOutcome::Returned { error_field: Some("path not found".to_string()), has_overflow: false };
    let (outcome, overflowed, msg) = classify_result(&r);
    assert_eq!(outcome, "recoverable_error");
    assert!(!overflowed);
    assert_eq!(msg.as_deref(), Some("path not found"));
}

#[test]
fn classify_overflow_success() {
    // { "symbols": [], "overflow": { "shown": 200, "total": 500 } }
    let r = CallOutcome::Returned { error_field: None, has_overflow: true };
    let (outcome, overflowed, _msg) = classify_result(&r);
    assert_eq!(outcome, "success");
    assert!(overflowed);
}

#[test]
fn classify_clean_success() {
    // { "symbols": [{"name": "foo"}] }
    let r = CallOutcome::Returned { error_field: None, has_overflow: false };
    let (outcome, overflowed, msg) = classify_result(&r);
    assert_eq!(outcome, "success");
    assert!(!overflowed);
    assert!(msg.is_none());
}

#[test]
fn classify_error_field_wins_over_overflow() {
    let r = CallOutcome::Returned { error_field: Some("bad".to_string()), has_overflow: true };
    let (outcome, overflowed, msg) = classify_result(&r);
    assert_eq!(outcome, "recoverable_error");
    assert!(!overflowed);
    assert_eq!(msg.as_deref(), Some("bad"));
}

#[test]
fn recorder_keeps_project_root() {
    let rec = UsageRecorder::new("/work/project".to_string());
    assert_eq!(rec.project_root(), "/work/project");
}
