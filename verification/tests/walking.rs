use getdoc::classify::Environment;
use getdoc::classify::FsEntry;
use getdoc::diag::DisplayableDiagnostic;
use getdoc::diag::RustcDiagnosticData;
use getdoc::diag::RustcErrorCode;
use getdoc::diag::RustcSpan;
use getdoc::walker::collect_span_paths;
use getdoc::walker::process_single_diagnostic_data;
use getdoc::walker::BackrefIndex;
use getdoc::walker::ImplicatedFileSet;

const DEP_FILE: &str = "/cargo/registry/src/index/foo-1.0.0/src/lib.rs";

fn walk_env() -> Environment {
    Environment {
        project_root: "/proj".to_string(),
        dep_roots: vec!["/cargo/registry/src".to_string(), "/cargo/git/checkouts".to_string()],
        fs: vec![
            FsEntry {
                path: DEP_FILE.to_string(),
                canonical: Some(DEP_FILE.to_string()),
                is_regular_file: true,
            },
            FsEntry {
                path: "src/main.rs".to_string(),
                canonical: Some("/proj/src/main.rs".to_string()),
                is_regular_file: true,
            },
        ],
    }
}

fn span(file: &str, primary: bool, line: u64) -> RustcSpan {
    RustcSpan { file_name: file.to_string(), is_primary: primary, line_start: line }
}

fn node(
    level: &str,
    spans: Vec<RustcSpan>,
    children: Vec<RustcDiagnosticData>,
    rendered: Option<&str>,
) -> RustcDiagnosticData {
    RustcDiagnosticData {
        level: level.to_string(),
        code: None,
        spans,
        children,
        rendered: rendered.map(|r| r.to_string()),
    }
}

fn walk_one(
    tree: &RustcDiagnosticData,
    env: &Environment,
    desc: &str,
) -> (Vec<DisplayableDiagnostic>, ImplicatedFileSet, BackrefIndex) {
    let mut records = Vec::new();
    let mut files = ImplicatedFileSet::new();
    let mut refs = BackrefIndex::new();
    process_single_diagnostic_data(tree, &mut records, &mut files, &mut refs, env, desc);
    (records, files, refs)
}

#[test]
fn first_primary_span_fixes_the_location() {
    // Scenario: two primary-flagged spans; only the first one counts.
    let tree = node(
        "error",
        vec![span("src/main.rs", true, 3), span("src/main.rs", true, 9)],
        vec![],
        Some("boom"),
    );
    let (records, _, _) = walk_one(&tree, &walk_env(), "default features");
    assert_eq!(records.len(), 1);
    assert_eq!(records[0].primary_location_of_diagnostic, "src/main.rs:3");
}

#[test]
fn duplicate_span_pair_is_listed_once() {
    // Scenario: the same (path, line) pair occurs as a primary span and
    // again as a non-primary note span of the same diagnostic.
    let tree = node(
        "error",
        vec![span(DEP_FILE, true, 10), span(DEP_FILE, false, 10)],
        vec![],
        Some("dup"),
    );
    let (records, files, _) = walk_one(&tree, &walk_env(), "default features");
    assert_eq!(records.len(), 1);
    assert_eq!(records[0].implicated_third_party_files_details.len(), 1);
    assert_eq!(records[0].implicated_third_party_files_details[0].0, DEP_FILE);
    assert_eq!(records[0].implicated_third_party_files_details[0].1, "lib.rs:10");
    assert_eq!(files.paths.len(), 1);
}

#[test]
fn child_reference_reaches_the_file_set_without_a_record() {
    // A note below an error carries its own dependency reference; the
    // note emits no standalone record, but the file is still captured.
    let child = node("note", vec![span(DEP_FILE, true, 4)], vec![], Some("see here"));
    let tree = node("error", vec![span("src/main.rs", true, 1)], vec![child], Some("boom"));
    let (records, files, refs) = walk_one(&tree, &walk_env(), "default features");
    assert_eq!(records.len(), 1);
    assert_eq!(records[0].level, "error");
    assert_eq!(files.paths, vec![DEP_FILE.to_string()]);
    assert_eq!(refs.entries.len(), 1);
    assert_eq!(refs.entries[0].0, DEP_FILE);
    assert_eq!(refs.entries[0].1.len(), 1);
    assert_eq!(refs.entries[0].1[0].level, "note");
    assert_eq!(refs.entries[0].1[0].originating_diagnostic_span_location, DEP_FILE.to_string() + ":4");
}

#[test]
fn every_reportable_node_emits_exactly_one_record() {
    // Three nested levels, all reportable: one record each, parent first.
    let grandchild = node("warning", vec![], vec![], Some("w2"));
    let child = node("warning", vec![], vec![grandchild], Some("w1"));
    let tree = node("error", vec![], vec![child], Some("e0"));
    let (records, _, _) = walk_one(&tree, &walk_env(), "default features");
    let rendered: Vec<&str> = records.iter().map(|r| r.rendered.as_str()).collect();
    assert_eq!(rendered, vec!["e0", "w1", "w2"]);
}

#[test]
fn blank_rendered_text_emits_no_record() {
    let tree = node("error", vec![], vec![], Some("   \n"));
    let (records, _, _) = walk_one(&tree, &walk_env(), "default features");
    assert_eq!(records.len(), 0);
}

#[test]
fn help_level_emits_no_record() {
    let tree = node("help", vec![], vec![], Some("try this"));
    let (records, _, _) = walk_one(&tree, &walk_env(), "default features");
    assert_eq!(records.len(), 0);
}

#[test]
fn rendered_text_keeps_leading_and_loses_trailing_whitespace() {
    let tree = node("warning", vec![], vec![], Some("  text body\n\n"));
    let (records, _, _) = walk_one(&tree, &walk_env(), "default features");
    assert_eq!(records[0].rendered, "  text body");
}

#[test]
fn missing_spans_give_the_unknown_location() {
    let tree = node("error", vec![], vec![], Some("boom"));
    let (records, _, _) = walk_one(&tree, &walk_env(), "default features");
    assert_eq!(records[0].primary_location_of_diagnostic, "Unknown diagnostic location");
}

#[test]
fn non_primary_first_span_is_marked() {
    let tree = node("error", vec![span("src/main.rs", false, 7)], vec![], Some("boom"));
    let (records, _, _) = walk_one(&tree, &walk_env(), "default features");
    assert_eq!(records[0].primary_location_of_diagnostic, "src/main.rs:7 (non-primary)");
}

#[test]
fn implicated_list_is_sorted_by_path_then_detail() {
    let other = "/cargo/registry/src/index/bar-2.0.0/src/x.rs";
    let mut env = walk_env();
    env.fs.push(FsEntry {
        path: other.to_string(),
        canonical: Some(other.to_string()),
        is_regular_file: true,
    });
    let tree = node(
        "error",
        vec![span(DEP_FILE, true, 9), span(other, false, 2), span(DEP_FILE, false, 3)],
        vec![],
        Some("multi"),
    );
    let (records, _, _) = walk_one(&tree, &env, "default features");
    let details: Vec<(String, String)> =
        records[0].implicated_third_party_files_details.clone();
    assert_eq!(
        details,
        vec![
            (other.to_string(), "x.rs:2".to_string()),
            (DEP_FILE.to_string(), "lib.rs:3".to_string()),
            (DEP_FILE.to_string(), "lib.rs:9".to_string()),
        ]
    );
}

#[test]
fn implicated_files_signature_sorts_and_joins() {
    let tree = node(
        "error",
        vec![span(DEP_FILE, true, 9), span(DEP_FILE, false, 3)],
        vec![],
        Some("sig"),
    );
    let (records, _, _) = walk_one(&tree, &walk_env(), "default features");
    let sig = records[0].get_implicated_files_signature();
    assert_eq!(sig, format!("{}:lib.rs:3;{}:lib.rs:9", DEP_FILE, DEP_FILE));
}

#[test]
fn collect_span_paths_gathers_every_span_in_walk_order() {
    let child = node("note", vec![span("b.rs", true, 1)], vec![], None);
    let tree = node("error", vec![span("a.rs", true, 1), span("a.rs", false, 2)], vec![child], None);
    let paths = collect_span_paths(&vec![tree]);
    assert_eq!(paths, vec!["a.rs".to_string(), "a.rs".to_string(), "b.rs".to_string()]);
}

#[test]
fn codes_travel_into_records_and_origins() {
    let mut tree = node("error", vec![span(DEP_FILE, true, 5)], vec![], Some("coded"));
    tree.code = Some(RustcErrorCode {
        code: "E0308".to_string(),
        explanation: Some("mismatched types".to_string()),
    });
    let (records, _, refs) = walk_one(&tree, &walk_env(), "default features");
    assert_eq!(records[0].code.as_deref(), Some("E0308"));
    assert_eq!(records[0].code_explanation.as_deref(), Some("mismatched types"));
    assert_eq!(refs.entries[0].1[0].code.as_deref(), Some("E0308"));
    assert_eq!(refs.entries[0].1[0].feature_set_desc, "default features");
}
