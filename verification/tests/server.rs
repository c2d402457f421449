//! The decisions of the HTTP interface, with the regex method, on the
//! requests of the handler tests.

use email_validator::cli::Method;
use email_validator::server::{plan_batch, plan_single, summarize, ValidationPlan, BAD_REQUEST};
use email_validator::validation::{begin, Probe, ValidationResult};

fn run_plan(plan: &ValidationPlan) -> Vec<ValidationResult> {
    plan.emails
        .iter()
        .map(|e| match begin(plan.method, e) {
            Probe::Done(r) => r,
            other => panic!("regex method needs no lookup: {other:?}"),
        })
        .collect()
}

fn strings(v: &[&str]) -> Vec<String> {
    v.iter().map(|s| s.to_string()).collect()
}

#[test]
fn server_test_validate_single_regex() {
    let plan = plan_single("test@example.com", Some(Method::Regex), None).unwrap();
    let results = run_plan(&plan);
    let s = summarize(&results);
    assert_eq!(s.total, 1);
    assert_eq!(s.valid_count, 1);
    assert_eq!(results[0].email, "test@example.com");
    assert_eq!(results[0].valid, true);
}

#[test]
fn test_validate_single_missing_email() {
    let err = plan_single("", None, None).unwrap_err();
    assert_eq!(err.status, BAD_REQUEST);
    assert_eq!(err.message, "email parameter is required");
    // Only white space counts as missing too.
    assert!(plan_single(" \t\n", None, None).is_err());
}

#[test]
fn server_test_validate_batch_empty() {
    let err = plan_batch(Vec::new(), None, None).unwrap_err();
    assert_eq!(err.status, 400);
    assert_eq!(err.message, "email list is empty");
}

#[test]
fn test_validate_batch_too_many() {
    let emails: Vec<String> = (0..1001).map(|i| format!("x{i}@y.com")).collect();
    let err = plan_batch(emails, None, None).unwrap_err();
    assert_eq!(err.status, 400);
    assert_eq!(err.message, "too many emails, max 1000");
    // Exactly the limit is accepted.
    let emails: Vec<String> = (0..1000).map(|i| format!("x{i}@y.com")).collect();
    assert_eq!(plan_batch(emails, None, None).unwrap().emails.len(), 1000);
}

#[test]
fn test_validate_batch_ok() {
    let plan = plan_batch(strings(&["a@b.de", "c@d.com"]), Some(Method::Regex), None).unwrap();
    let s = summarize(&run_plan(&plan));
    assert_eq!(s.total, 2);
    assert_eq!(s.valid_count, 2);
}

#[test]
fn test_validate_batch_regex_flags_invalid_emails() {
    let plan = plan_batch(strings(&["a@b.de", "bogus", "c@d.com"]), Some(Method::Regex), None).unwrap();
    let results = run_plan(&plan);
    let s = summarize(&results);
    assert_eq!(s.total, 3);
    assert_eq!(s.valid_count, 2);
    assert_eq!(s.invalid_count, 1);

    let valid_emails: Vec<&str> = results.iter().filter(|r| r.valid).map(|r| r.email.as_str()).collect();
    assert_eq!(valid_emails, vec!["a@b.de", "c@d.com"]);
}

#[test]
fn test_validate_single_regex_invalid_email() {
    let plan = plan_single("bogus", Some(Method::Regex), None).unwrap();
    let results = run_plan(&plan);
    let s = summarize(&results);
    assert_eq!(s.total, 1);
    assert_eq!(s.valid_count, 0);
    assert_eq!(s.invalid_count, 1);
    assert_eq!(results[0].valid, false);
}

#[test]
fn server_test_validate_batch_deduplication() {
    let plan = plan_batch(strings(&["a@b.de", "a@b.de", "A@B.DE"]), Some(Method::Regex), None).unwrap();
    let s = summarize(&run_plan(&plan));
    assert_eq!(s.total, 1, "duplicates should be collapsed");
    assert_eq!(s.valid_count, 1);
}

#[test]
fn plans_take_defaults_and_trim() {
    let plan = plan_single("  x@y.de \n", None, None).unwrap();
    assert_eq!(plan.emails, vec!["x@y.de".to_string()]);
    assert_eq!(plan.method, Method::Smtp);
    assert!(!plan.disable_wildcard);
    let plan = plan_batch(strings(&["B@x.de", "a@x.de"]), Some(Method::Mx), Some(true)).unwrap();
    assert_eq!(plan.emails, strings(&["a@x.de", "b@x.de"]));
    assert_eq!(plan.method, Method::Mx);
    assert!(plan.disable_wildcard);
}

#[test]
fn batch_lowercases_beyond_ascii() {
    let plan = plan_batch(strings(&["ÄRGER@X.DE", "ärger@x.de"]), Some(Method::Regex), None).unwrap();
    assert_eq!(plan.emails, strings(&["ärger@x.de"]));
}

#[test]
fn summary_counts_catch_all() {
    let r = |e: &str, valid: bool, catch_all: bool| ValidationResult { email: e.to_string(), valid, catch_all };
    let s = summarize(&vec![r("a@b.de", true, true), r("c@b.de", true, false), r("d", false, false)]);
    assert_eq!((s.total, s.valid_count, s.invalid_count, s.catch_all_count), (3, 2, 1, 1));
}
