use getdoc::config::build_matrix;
use getdoc::config::canonical_key_of;
use getdoc::config::descriptor_of_flags;

fn strings(v: &[&str]) -> Vec<String> {
    v.iter().map(|s| s.to_string()).collect()
}

fn flag_lists(configs: &Vec<getdoc::config::Configuration>) -> Vec<Vec<String>> {
    configs.iter().map(|c| c.flags.clone()).collect()
}

#[test]
fn comprehensive_mode_with_two_groups() {
    // Scenario: the manifest declares the groups "x" and "y".
    let groups = strings(&["x", "y"]);
    let configs = build_matrix(None, Some(&groups));
    let expected: Vec<Vec<String>> = vec![
        strings(&[]),
        strings(&["--no-default-features"]),
        strings(&["--no-default-features", "--features", "x"]),
        strings(&["--no-default-features", "--features", "y"]),
        strings(&["--all-features"]),
    ];
    assert_eq!(flag_lists(&configs), expected);
    assert_eq!(configs.len(), 5);
    let mut keys: Vec<String> = configs.iter().map(|c| canonical_key_of(&c.flags)).collect();
    let before = keys.clone();
    keys.dedup();
    assert_eq!(keys.len(), 5, "no duplicates: {:?}", before);
}

#[test]
fn targeted_mode_with_one_focus_feature() {
    // Scenario: targeted mode with the focus list ["x"].
    let focus = strings(&["x"]);
    let configs = build_matrix(Some(&focus), None);
    let expected: Vec<Vec<String>> = vec![
        strings(&["--features", "x"]),
        strings(&["--no-default-features", "--features", "x"]),
        strings(&[]),
    ];
    assert_eq!(flag_lists(&configs), expected);
}

#[test]
fn targeted_mode_with_empty_focus_list() {
    let focus = strings(&[]);
    let configs = build_matrix(Some(&focus), None);
    assert_eq!(flag_lists(&configs), vec![strings(&[])]);
    assert_eq!(configs[0].descriptor, "default features");
}

#[test]
fn comprehensive_mode_without_manifest() {
    let configs = build_matrix(None, None);
    assert_eq!(flag_lists(&configs), vec![strings(&[])]);
}

#[test]
fn comprehensive_mode_with_empty_group_list() {
    let groups = strings(&[]);
    let configs = build_matrix(None, Some(&groups));
    assert_eq!(flag_lists(&configs), vec![strings(&[])]);
}

#[test]
fn default_group_is_skipped_but_counts_as_declared() {
    let groups = strings(&["default"]);
    let configs = build_matrix(None, Some(&groups));
    let expected: Vec<Vec<String>> = vec![
        strings(&[]),
        strings(&["--no-default-features"]),
        strings(&["--all-features"]),
    ];
    assert_eq!(flag_lists(&configs), expected);
}

#[test]
fn matrix_builder_is_deterministic() {
    let groups = strings(&["b", "a", "default", "c"]);
    let first = build_matrix(None, Some(&groups));
    let second = build_matrix(None, Some(&groups));
    let first_keys: Vec<String> = first.iter().map(|c| canonical_key_of(&c.flags)).collect();
    let second_keys: Vec<String> = second.iter().map(|c| canonical_key_of(&c.flags)).collect();
    assert_eq!(first_keys, second_keys);
    assert_eq!(flag_lists(&first), flag_lists(&second));
}

#[test]
fn canonical_key_sorts_and_joins_flags() {
    let flags = strings(&["--no-default-features", "--features", "x"]);
    assert_eq!(canonical_key_of(&flags), "--features --no-default-features x");
    let reordered = strings(&["x", "--no-default-features", "--features"]);
    assert_eq!(canonical_key_of(&reordered), "--features --no-default-features x");
}

#[test]
fn descriptor_joins_flags_with_blanks() {
    let flags = strings(&["--no-default-features", "--features", "x"]);
    assert_eq!(descriptor_of_flags(&flags), "--no-default-features --features x");
    assert_eq!(descriptor_of_flags(&strings(&[])), "default features");
}
