use getdoc::classify::Environment;
use getdoc::classify::FsEntry;
use getdoc::consolidate::SessionState;
use getdoc::probe::decode_compiler_message_line;
use getdoc::probe::decode_probe_output;

const DEP: &str = "/cargo/registry/src/index/foo-1.0.0/src/lib.rs";

fn message_line(level: &str, file: &str, line: u64, rendered: &str) -> String {
    let mut s = String::new();
    s.push_str("{\"reason\":\"compiler-message\",\"message\":{\"level\":\"");
    s.push_str(level);
    s.push_str("\",\"code\":{\"code\":\"E0308\",\"explanation\":\"types differ\"},");
    s.push_str("\"spans\":[{\"file_name\":\"");
    s.push_str(file);
    s.push_str("\",\"is_primary\":true,\"line_start\":");
    s.push_str(&line.to_string());
    s.push_str("}],\"children\":[{\"level\":\"note\",\"spans\":[],\"children\":[],");
    s.push_str("\"rendered\":null}],\"rendered\":\"");
    s.push_str(rendered);
    s.push_str("\"}}");
    s
}

#[test]
fn compiler_message_line_decodes_to_a_tree() {
    let line = message_line("error", "src/main.rs", 12, "boom");
    let tree = decode_compiler_message_line(&line).expect("line should decode");
    assert_eq!(tree.level, "error");
    assert_eq!(tree.spans.len(), 1);
    assert_eq!(tree.spans[0].file_name, "src/main.rs");
    assert!(tree.spans[0].is_primary);
    assert_eq!(tree.spans[0].line_start, 12);
    assert_eq!(tree.children.len(), 1);
    assert_eq!(tree.children[0].level, "note");
    assert_eq!(tree.rendered.as_deref(), Some("boom"));
    let code = tree.code.expect("code should decode");
    assert_eq!(code.code, "E0308");
    assert_eq!(code.explanation.as_deref(), Some("types differ"));
}

#[test]
fn other_message_kinds_are_ignored() {
    let line = "{\"reason\":\"build-finished\",\"success\":true}";
    assert!(decode_compiler_message_line(line).is_none());
}

#[test]
fn malformed_lines_are_skipped_silently() {
    let stdout = "Compiling foo v1.0.0\n{not json at all\n\n{\"reason\":\"compiler-message\",\"message\":{\"level\":\"error\",\"spans\":[],\"children\":[],\"rendered\":\"kept\"}}\n{\"reason\":\"compiler-message\",\"message\":{\"level\":\"error\",\"spans\":\"bad\",\"children\":[],\"rendered\":\"dropped\"}}\n";
    let trees = decode_probe_output(stdout);
    assert_eq!(trees.len(), 1);
    assert_eq!(trees[0].rendered.as_deref(), Some("kept"));
}

#[test]
fn missing_level_rejects_the_line() {
    let line = "{\"reason\":\"compiler-message\",\"message\":{\"spans\":[],\"children\":[],\"rendered\":\"x\"}}";
    assert!(decode_compiler_message_line(line).is_none());
}

#[test]
fn null_code_and_missing_rendered_decode_as_absent() {
    let line = "{\"reason\":\"compiler-message\",\"message\":{\"level\":\"warning\",\"code\":null,\"spans\":[],\"children\":[]}}";
    let tree = decode_compiler_message_line(line).expect("line should decode");
    assert!(tree.code.is_none());
    assert!(tree.rendered.is_none());
}

#[test]
fn identical_trees_across_probes_merge_into_one_aggregate() {
    let stdout = message_line("error", DEP, 7, "dependency broke");
    let env = Environment {
        project_root: "/proj".to_string(),
        dep_roots: vec!["/cargo/registry/src".to_string()],
        fs: vec![FsEntry {
            path: DEP.to_string(),
            canonical: Some(DEP.to_string()),
            is_regular_file: true,
        }],
    };
    let mut session = SessionState::new();
    session.absorb_probe_output(&stdout, &env, "default features");
    session.absorb_probe_output(&stdout, &env, "--all-features");
    assert_eq!(session.consolidated.len(), 1);
    let mut descs = session.consolidated[0].feature_set_descriptors.clone();
    descs.sort();
    assert_eq!(descs, vec!["--all-features".to_string(), "default features".to_string()]);
}

#[test]
fn a_whole_probe_flows_into_the_session() {
    let stdout = format!(
        "{}\n{}\n",
        message_line("error", DEP, 7, "dependency broke"),
        "{\"reason\":\"build-finished\",\"success\":false}"
    );
    let env = Environment {
        project_root: "/proj".to_string(),
        dep_roots: vec!["/cargo/registry/src".to_string()],
        fs: vec![FsEntry {
            path: DEP.to_string(),
            canonical: Some(DEP.to_string()),
            is_regular_file: true,
        }],
    };
    let mut session = SessionState::new();
    session.absorb_probe_output(&stdout, &env, "default features");
    assert_eq!(session.consolidated.len(), 1);
    assert_eq!(session.consolidated[0].rendered_message, "dependency broke");
    assert_eq!(
        session.consolidated[0].implicated_third_party_files_details,
        vec![(DEP.to_string(), "lib.rs:7".to_string())]
    );
    assert_eq!(session.global_files.paths, vec![DEP.to_string()]);
    assert_eq!(session.unique_explanations.len(), 1);
    assert_eq!(session.unique_explanations[0].0, "E0308");
    assert_eq!(session.referencers.entries.len(), 1);
    assert_eq!(session.referencers.entries[0].0, DEP);
}
