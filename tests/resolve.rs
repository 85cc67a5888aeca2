use target_manifest::manifest::{Manifest, ManifestError};
use target_manifest::target::{Target, Targets};

fn strings(items: &[&str]) -> Vec<String> {
    items.iter().map(|s| s.to_string()).collect()
}

fn target(path: &str, globs: &[&str], activated_by: &[&str]) -> Target {
    Target { path: path.to_string(), globs: strings(globs), activated_by: strings(activated_by) }
}

fn load(base: &str, targets: Vec<(&str, Target)>) -> Manifest {
    let targets = Targets {
        base: base.to_string(),
        targets: targets.into_iter().map(|(n, t)| (n.to_string(), t)).collect(),
    };
    Manifest::from_targets(targets).expect("valid configuration")
}

fn activated(m: &Manifest) -> Vec<String> {
    let mut names: Vec<String> =
        m.activated_targets().into_iter().filter(|(_, a)| *a).map(|(n, _)| n).collect();
    names.sort();
    names
}

fn chain() -> Manifest {
    load(
        "main",
        vec![
            ("service-a", target("file-a", &[], &[])),
            ("service-b", target("file-b", &[], &["service-a"])),
            ("service-c", target("file-c", &[], &["service-b"])),
            ("service-d", target("file-d", &[], &["service-c"])),
        ],
    )
}

fn fan_in() -> Manifest {
    load(
        "main",
        vec![
            ("service-a", target("file-a", &[], &[])),
            ("service-b", target("file-b", &[], &[])),
            ("common", target("dep-file", &[], &["service-a", "service-b"])),
        ],
    )
}

#[test]
fn chain_propagates_from_the_head() {
    let mut m = chain();
    let n = m.resolve(&strings(&["file-a"]));
    assert_eq!(activated(&m), strings(&["service-a", "service-b", "service-c", "service-d"]));
    assert_eq!(n, 3);
}

#[test]
fn chain_propagates_from_the_middle() {
    let mut m = chain();
    m.resolve(&strings(&["file-c"]));
    assert_eq!(activated(&m), strings(&["service-c", "service-d"]));
}

#[test]
fn chain_from_the_tail_activates_only_the_tail() {
    let mut m = chain();
    let n = m.resolve(&strings(&["file-d"]));
    assert_eq!(activated(&m), strings(&["service-d"]));
    assert_eq!(n, 0);
}

#[test]
fn fan_in_does_not_flow_upstream() {
    let mut m = fan_in();
    m.resolve(&strings(&["dep-file"]));
    assert_eq!(activated(&m), strings(&["common"]));
}

#[test]
fn fan_in_activates_the_shared_dependency() {
    let mut m = fan_in();
    m.resolve(&strings(&["file-b"]));
    assert_eq!(activated(&m), strings(&["common", "service-b"]));
}

#[test]
fn empty_input_activates_nothing() {
    let mut m = chain();
    let n = m.resolve(&Vec::new());
    assert!(activated(&m).is_empty());
    assert_eq!(n, 0);
    assert_eq!(m.activated_targets().len(), 4);
}

#[test]
fn resolving_twice_gives_the_same_result() {
    let mut m = chain();
    m.resolve(&strings(&["file-b"]));
    let first = activated(&m);
    m.resolve(&strings(&["file-b"]));
    assert_eq!(activated(&m), first);
    assert_eq!(first, strings(&["service-b", "service-c", "service-d"]));
}

#[test]
fn earlier_resolution_is_discarded() {
    let mut m = chain();
    m.resolve(&strings(&["file-a"]));
    m.resolve(&strings(&["file-d"]));
    assert_eq!(activated(&m), strings(&["service-d"]));
}

#[test]
fn order_of_changed_files_does_not_matter() {
    let mut m = fan_in();
    m.resolve(&strings(&["file-a", "unrelated", "dep-file"]));
    let first = activated(&m);
    m.resolve(&strings(&["dep-file", "file-a", "unrelated"]));
    assert_eq!(activated(&m), first);
    assert_eq!(first, strings(&["common", "service-a"]));
}

#[test]
fn cycle_terminates_within_the_target_count() {
    let mut m = load(
        "main",
        vec![
            ("a", target("a-file", &[], &["c"])),
            ("b", target("b-file", &[], &["a"])),
            ("c", target("c-file", &[], &["b"])),
            ("d", target("d-file", &[], &[])),
        ],
    );
    let n = m.resolve(&strings(&["b-file"]));
    assert_eq!(activated(&m), strings(&["a", "b", "c"]));
    assert!(n <= 4);
    assert_eq!(n, 2);
}

#[test]
fn dangling_activator_is_inert() {
    let mut m = load("main", vec![("a", target("a-file", &[], &["missing"]))]);
    m.resolve(&strings(&["missing", "other"]));
    assert!(activated(&m).is_empty());
}

#[test]
fn single_segment_wildcard_stays_in_its_segment() {
    let mut m = load(
        "main",
        vec![
            ("flat", target("flat", &["src/*"], &[])),
            ("deep", target("deep", &["src/**/*.rs"], &[])),
        ],
    );
    m.resolve(&strings(&["src/a/b.rs"]));
    assert_eq!(activated(&m), strings(&["deep"]));
    m.resolve(&strings(&["src/main.rs"]));
    assert_eq!(activated(&m), strings(&["deep", "flat"]));
}

#[test]
fn question_mark_and_classes_match_one_character() {
    let m = load("main", vec![("t", target("t", &["log?.[0-9]"], &[]))]);
    assert_eq!(m.test_path("log1.7"), strings(&["t"]));
    assert!(m.test_path("log12.7").is_empty());
    assert!(m.test_path("log1.x").is_empty());
}

#[test]
fn literal_path_matches_only_itself() {
    let m = load("main", vec![("svc", target("services/api", &[], &[]))]);
    assert_eq!(m.test_path("services/api"), strings(&["svc"]));
    assert!(m.test_path("services/api/main.rs").is_empty());
}

#[test]
fn test_path_names_each_target_once() {
    let m = load(
        "main",
        vec![
            ("a", target("lib/*.rs", &["lib/**", "lib/x.rs"], &[])),
            ("b", target("other", &[], &[])),
            ("c", target("lib/x.rs", &[], &[])),
        ],
    );
    assert_eq!(m.test_path("lib/x.rs"), strings(&["a", "c"]));
    assert!(m.test_path("nothing").is_empty());
}

#[test]
fn target_matches_through_its_globs() {
    let t = target("docs", &["*.md", "src/**/*.rs"], &[]);
    assert!(t.matches("README.md"));
    assert!(t.matches("src/a/b/c.rs"));
    assert!(t.matches("docs"));
    assert!(!t.matches("docs/index.html"));
    assert!(!t.matches("src/a/b/c.txt"));
}

#[test]
fn invalid_glob_is_a_load_error() {
    let targets = Targets {
        base: "main".to_string(),
        targets: vec![
            ("ok".to_string(), target("ok", &["a/*"], &[])),
            ("bad".to_string(), target("bad", &["a/**b"], &[])),
        ],
    };
    match Manifest::from_targets(targets) {
        Err(ManifestError::InvalidPattern(p)) => assert_eq!(p, "a/**b"),
        other => panic!("unexpected: {:?}", other.map(|_| ())),
    }
}

#[test]
fn invalid_path_pattern_is_a_load_error() {
    let targets = Targets {
        base: "main".to_string(),
        targets: vec![("bad".to_string(), target("x***", &[], &[]))],
    };
    match Manifest::from_targets(targets) {
        Err(ManifestError::InvalidPattern(p)) => assert_eq!(p, "x***"),
        other => panic!("unexpected: {:?}", other.map(|_| ())),
    }
}

#[test]
fn duplicate_target_name_is_a_load_error() {
    let targets = Targets {
        base: "main".to_string(),
        targets: vec![
            ("a".to_string(), target("x", &[], &[])),
            ("b".to_string(), target("y", &[], &[])),
            ("a".to_string(), target("z", &[], &[])),
        ],
    };
    match Manifest::from_targets(targets) {
        Err(ManifestError::DuplicateTarget(n)) => assert_eq!(n, "a"),
        other => panic!("unexpected: {:?}", other.map(|_| ())),
    }
}

#[test]
fn base_is_the_configured_reference() {
    let m = load("develop", vec![]);
    assert_eq!(m.base(), "develop");
}

#[test]
fn fresh_manifest_has_nothing_activated() {
    let m = chain();
    let all = m.activated_targets();
    assert_eq!(all.len(), 4);
    assert!(all.iter().all(|(_, a)| !*a));
    assert_eq!(all[0].0, "service-a");
}

#[test]
fn outputs_pick_the_commit_by_activation() {
    let mut m = fan_in();
    m.resolve(&strings(&["file-a"]));
    let head = "h123".to_string();
    let merge_base = "m456".to_string();
    let out = m.target_outputs(&head, &merge_base, false);
    assert_eq!(out.len(), 3);
    assert_eq!(out[0].0, "service-a");
    assert!(out[0].1.changed);
    assert_eq!(out[0].1.sha, "h123");
    assert_eq!(out[1].0, "service-b");
    assert!(!out[1].1.changed);
    assert_eq!(out[1].1.sha, "m456");
    assert!(out[2].1.changed);
}

#[test]
fn forced_outputs_mark_every_target_changed() {
    let m = fan_in();
    let out = m.target_outputs(&"h".to_string(), &"m".to_string(), true);
    assert!(out.iter().all(|(_, o)| o.changed && o.sha == "h"));
}

#[test]
fn activation_is_a_value_that_leaves_the_manifest_alone() {
    let m = chain();
    let (flags, n) = m.activation(&strings(&["file-b"]));
    assert_eq!(flags, vec![false, true, true, true]);
    assert_eq!(n, 2);
    assert!(activated(&m).is_empty());
}
