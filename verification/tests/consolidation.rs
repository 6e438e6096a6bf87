use getdoc::consolidate::tool_error_diagnostic;
use getdoc::consolidate::AggregatedDiagnosticInstance;
use getdoc::consolidate::SessionState;
use getdoc::diag::DisplayableDiagnostic;

fn record(
    level: &str,
    code: Option<&str>,
    loc: &str,
    rendered: &str,
    implicated: Vec<(&str, &str)>,
) -> DisplayableDiagnostic {
    DisplayableDiagnostic {
        level: level.to_string(),
        code: code.map(|c| c.to_string()),
        code_explanation: None,
        rendered: rendered.to_string(),
        primary_location_of_diagnostic: loc.to_string(),
        implicated_third_party_files_details: implicated
            .into_iter()
            .map(|(a, b)| (a.to_string(), b.to_string()))
            .collect(),
    }
}

#[test]
fn identical_records_from_two_configurations_merge() {
    // The same diagnostic seen under two configurations becomes one
    // aggregate carrying both descriptors.
    let mut session = SessionState::new();
    let rec = record("error", Some("E0001"), "src/a.rs:1", "boom", vec![("/d/f.rs", "f.rs:1")]);
    session.consolidate_record(&rec, "default features");
    session.consolidate_record(&rec, "--all-features");
    assert_eq!(session.consolidated.len(), 1);
    let mut descs = session.consolidated[0].feature_set_descriptors.clone();
    descs.sort();
    assert_eq!(descs, vec!["--all-features".to_string(), "default features".to_string()]);
}

#[test]
fn repeated_descriptor_is_kept_once() {
    let mut session = SessionState::new();
    let rec = record("error", None, "src/a.rs:1", "boom", vec![]);
    session.consolidate_record(&rec, "default features");
    session.consolidate_record(&rec, "default features");
    assert_eq!(session.consolidated.len(), 1);
    assert_eq!(
        session.consolidated[0].feature_set_descriptors,
        vec!["default features".to_string()]
    );
}

#[test]
fn different_implicated_files_stay_apart() {
    // Identical level, code, location and text, but different implicated
    // sets: two distinct aggregates.
    let mut session = SessionState::new();
    let r1 = record("error", Some("E0001"), "src/a.rs:1", "boom", vec![("/d/f.rs", "f.rs:1")]);
    let r2 = record("error", Some("E0001"), "src/a.rs:1", "boom", vec![("/d/g.rs", "g.rs:2")]);
    session.consolidate_record(&r1, "default features");
    session.consolidate_record(&r2, "default features");
    assert_eq!(session.consolidated.len(), 2);
}

#[test]
fn different_rendered_text_stays_apart() {
    let mut session = SessionState::new();
    let r1 = record("error", None, "src/a.rs:1", "first", vec![]);
    let r2 = record("error", None, "src/a.rs:1", "second", vec![]);
    session.consolidate_record(&r1, "default features");
    session.consolidate_record(&r2, "default features");
    assert_eq!(session.consolidated.len(), 2);
}

#[test]
fn first_non_empty_explanation_is_kept() {
    let mut session = SessionState::new();
    let mut r1 = record("error", Some("E0308"), "a:1", "x", vec![]);
    r1.code_explanation = Some("first explanation".to_string());
    let mut r2 = record("error", Some("E0308"), "b:2", "y", vec![]);
    r2.code_explanation = Some("second explanation".to_string());
    session.consolidate_record(&r1, "default features");
    session.consolidate_record(&r2, "default features");
    assert_eq!(session.unique_explanations.len(), 1);
    assert_eq!(session.unique_explanations[0].0, "E0308");
    assert_eq!(session.unique_explanations[0].1, "first explanation");
}

#[test]
fn blank_explanations_are_ignored() {
    let mut session = SessionState::new();
    let mut r1 = record("error", Some("E0308"), "a:1", "x", vec![]);
    r1.code_explanation = Some("   ".to_string());
    session.consolidate_record(&r1, "default features");
    assert_eq!(session.unique_explanations.len(), 0);
}

#[test]
fn final_order_is_by_location_code_and_text() {
    let mut session = SessionState::new();
    session.consolidate_record(&record("error", Some("E2"), "b.rs:2", "m", vec![]), "d");
    session.consolidate_record(&record("error", None, "b.rs:2", "m", vec![]), "d");
    session.consolidate_record(&record("error", Some("E1"), "b.rs:2", "z", vec![]), "d");
    session.consolidate_record(&record("error", Some("E1"), "b.rs:2", "a", vec![]), "d");
    session.consolidate_record(&record("warning", Some("E9"), "a.rs:9", "w", vec![]), "d");
    let sorted = session.sorted_diagnostics();
    let keys: Vec<(String, Option<String>, String)> = sorted
        .iter()
        .map(|a| (a.primary_location.clone(), a.code.clone(), a.rendered_message.clone()))
        .collect();
    assert_eq!(
        keys,
        vec![
            ("a.rs:9".to_string(), Some("E9".to_string()), "w".to_string()),
            ("b.rs:2".to_string(), None, "m".to_string()),
            ("b.rs:2".to_string(), Some("E1".to_string()), "a".to_string()),
            ("b.rs:2".to_string(), Some("E1".to_string()), "z".to_string()),
            ("b.rs:2".to_string(), Some("E2".to_string()), "m".to_string()),
        ]
    );
}

#[test]
fn tied_sort_triples_order_deterministically() {
    // Two aggregates equal in location, code and rendered text differ
    // only in their implicated lists; the final order does not depend on
    // the order the probes produced them.
    let r1 = record("error", None, "a.rs:1", "same", vec![("/d/f.rs", "f.rs:1")]);
    let r2 = record("error", None, "a.rs:1", "same", vec![("/d/g.rs", "g.rs:2")]);

    let mut first = SessionState::new();
    first.consolidate_record(&r1, "d");
    first.consolidate_record(&r2, "d");
    let mut second = SessionState::new();
    second.consolidate_record(&r2, "d");
    second.consolidate_record(&r1, "d");

    let lists = |s: &SessionState| -> Vec<Vec<(String, String)>> {
        s.sorted_diagnostics()
            .iter()
            .map(|a| a.implicated_third_party_files_details.clone())
            .collect()
    };
    assert_eq!(lists(&first), lists(&second));
    assert_eq!(lists(&first)[0][0].0, "/d/f.rs");
}

#[test]
fn probe_failure_becomes_a_synthetic_record() {
    let mut session = SessionState::new();
    session.record_probe_failure("--all-features", "no such tool");
    assert_eq!(session.consolidated.len(), 1);
    let agg = &session.consolidated[0];
    assert_eq!(agg.level, "TOOL_ERROR");
    assert_eq!(agg.primary_location, "N/A");
    assert_eq!(
        agg.rendered_message,
        "Error running cargo check with configuration '--all-features': no such tool"
    );
    assert_eq!(agg.code, None);
    assert!(agg.implicated_third_party_files_details.is_empty());
}

#[test]
fn tool_error_record_shape() {
    let rec = tool_error_diagnostic("default features", "exec failed");
    assert_eq!(rec.level, "TOOL_ERROR");
    assert_eq!(rec.primary_location_of_diagnostic, "N/A");
    assert_eq!(
        rec.rendered,
        "Error running cargo check with configuration 'default features': exec failed"
    );
}

#[test]
fn aggregate_copies_the_record_fields() {
    let rec = record("warning", Some("W1"), "c.rs:3", "careful", vec![("/d/f.rs", "f.rs:3")]);
    let agg = AggregatedDiagnosticInstance::new(&rec, "default features");
    assert_eq!(agg.level, "warning");
    assert_eq!(agg.code.as_deref(), Some("W1"));
    assert_eq!(agg.primary_location, "c.rs:3");
    assert_eq!(agg.rendered_message, "careful");
    assert_eq!(
        agg.implicated_third_party_files_details,
        vec![("/d/f.rs".to_string(), "f.rs:3".to_string())]
    );
    assert_eq!(agg.feature_set_descriptors, vec!["default features".to_string()]);
}
