use getdoc::classify::classify;
use getdoc::classify::Classification;
use getdoc::classify::Environment;
use getdoc::classify::FsEntry;

fn env_with(entries: Vec<FsEntry>) -> Environment {
    Environment {
        project_root: "/home/dev/proj".to_string(),
        dep_roots: vec![
            "/home/dev/.cargo/registry/src".to_string(),
            "/home/dev/.cargo/git/checkouts".to_string(),
        ],
        fs: entries,
    }
}

fn entry(path: &str, canonical: Option<&str>, is_regular_file: bool) -> FsEntry {
    FsEntry {
        path: path.to_string(),
        canonical: canonical.map(|c| c.to_string()),
        is_regular_file,
    }
}

#[test]
fn path_under_project_root_is_in_project() {
    let env = env_with(vec![entry(
        "src/main.rs",
        Some("/home/dev/proj/src/main.rs"),
        true,
    )]);
    assert!(matches!(classify(&env, "src/main.rs"), Classification::InProject));
}

#[test]
fn dependency_file_is_third_party_with_canonical_path() {
    let dep = "/home/dev/.cargo/registry/src/index/foo-1.0.0/src/lib.rs";
    let env = env_with(vec![entry(dep, Some(dep), true)]);
    match classify(&env, dep) {
        Classification::ThirdParty(c) => assert_eq!(c, dep),
        _ => panic!("expected a third-party classification"),
    }
}

#[test]
fn missing_file_is_unclassifiable() {
    let env = env_with(vec![entry("gone.rs", None, false)]);
    assert!(matches!(classify(&env, "gone.rs"), Classification::Unclassifiable));
}

#[test]
fn unknown_path_is_unclassifiable() {
    let env = env_with(vec![]);
    assert!(matches!(classify(&env, "anything.rs"), Classification::Unclassifiable));
}

#[test]
fn dependency_directory_is_not_third_party() {
    // Under a recognized root, but not an existing regular file.
    let dep = "/home/dev/.cargo/registry/src/index/foo-1.0.0/src";
    let env = env_with(vec![entry(dep, Some(dep), false)]);
    assert!(matches!(classify(&env, dep), Classification::Unclassifiable));
}

#[test]
fn project_root_wins_over_dependency_roots() {
    // Never third-party for a path under the project root, even if some
    // recognized root also covers it.
    let mut env = env_with(vec![entry(
        "src/lib.rs",
        Some("/home/dev/proj/src/lib.rs"),
        true,
    )]);
    env.dep_roots.push("/home/dev/proj".to_string());
    assert!(matches!(classify(&env, "src/lib.rs"), Classification::InProject));
}

#[test]
fn path_outside_every_root_is_unclassifiable() {
    let env = env_with(vec![entry("/etc/hosts", Some("/etc/hosts"), true)]);
    assert!(matches!(classify(&env, "/etc/hosts"), Classification::Unclassifiable));
}

#[test]
fn sibling_directory_with_shared_prefix_is_not_under_root() {
    // "/home/dev/projX" shares the text prefix but not the component.
    let env = env_with(vec![entry(
        "/home/dev/projX/a.rs",
        Some("/home/dev/projX/a.rs"),
        true,
    )]);
    assert!(matches!(classify(&env, "/home/dev/projX/a.rs"), Classification::Unclassifiable));
}
