use vscode_pmu::scan::should_visit_dir;

#[test]
fn depth_zero_always_visited() {
    assert!(should_visit_dir("anything", 0));
    assert!(should_visit_dir(".hidden", 0));
    assert!(should_visit_dir("node_modules", 0));
}

#[test]
fn hidden_dirs_are_pruned() {
    assert!(!should_visit_dir(".cache", 1));
    assert!(!should_visit_dir(".tmp", 1));
    assert!(!should_visit_dir(".next", 1));
    assert!(!should_visit_dir(".gitlab-ci-local", 2));
}

#[test]
fn dot_git_is_not_pruned() {
    assert!(should_visit_dir(".git", 1));
    assert!(should_visit_dir(".git", 3));
}

#[test]
fn prune_dirs_are_excluded() {
    for name in &[
        "node_modules", "vendor", "build", "dist", "out",
        "debug", "release", "target", "coverage",
    ] {
        assert!(!should_visit_dir(name, 1), "{name} should be pruned");
    }
}

#[test]
fn normal_dirs_are_visited() {
    assert!(should_visit_dir("src", 1));
    assert!(should_visit_dir("github", 2));
    assert!(should_visit_dir("my-project", 3));
}
