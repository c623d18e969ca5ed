//! Concrete instances of the library's laws.
use vscode_pmu::cache::{cache_path_in, read_paths, write_paths};
use vscode_pmu::config::Config;
use vscode_pmu::projects::{
    add_to, compute_tags, managed_names, path_skip_map, remove_from, skip_for, Project,
};

#[test]
fn law_cache_round_trip() {
    let paths = vec![
        "/a b/c".to_string(),
        " /leading space".to_string(),
        "/with\rcarriage".to_string(),
        "/ünïcödé/パス".to_string(),
    ];
    assert_eq!(read_paths(&write_paths(&paths)), paths);
}

#[test]
fn law_distinct_roots_get_distinct_cache_files() {
    let a = cache_path_in("/h", "/foo/bar-baz");
    let b = cache_path_in("/h", "/foo/bar_baz");
    assert_ne!(a, b);
}

#[test]
fn law_host_always_skipped_name_never() {
    let paths = vec![
        "/p/github/a/b/c/repo".to_string(),
        "/p/gitlab/x/repo1".to_string(),
        "/p/gitlab/x/repo2".to_string(),
        "/p/direct".to_string(),
    ];
    let map = path_skip_map(&paths, "/p");
    assert_eq!(skip_for(&map, "/p/github/a/b/c/repo"), Some(4));
    assert_eq!(skip_for(&map, "/p/gitlab/x/repo1"), Some(1));
    assert_eq!(skip_for(&map, "/p/direct"), Some(0));
}

#[test]
fn law_skip_is_per_host() {
    let base = vec!["/p/gitlab/org/team-a/r1".to_string(), "/p/gitlab/org/team-b/r2".to_string()];
    let mut more = base.clone();
    more.push("/p/github/org/team-a/r3".to_string());
    more.push("/p/github/other/r4".to_string());
    let m1 = path_skip_map(&base, "/p");
    let m2 = path_skip_map(&more, "/p");
    for p in &base {
        assert_eq!(skip_for(&m1, p), skip_for(&m2, p));
    }
}

#[test]
fn law_tags_are_intermediate_components() {
    let p = "/p/h/a/b/c/name";
    for skip in 0..8 {
        let tags = compute_tags(p, "/p", skip);
        assert!(!tags.is_empty());
        assert!(!tags.iter().any(|t| t == "name"));
    }
}

#[test]
fn law_add_twice_is_add_once() {
    let cfg = Config::default();
    let mut projects = vec![Project::new("/p/h/a/x".to_string(), vec![])];
    assert!(add_to(&mut projects, "/p/h/a/y", "/p", &cfg));
    let len = projects.len();
    assert!(!add_to(&mut projects, "/p/h/a/y", "/p", &cfg));
    assert_eq!(projects.len(), len);
}

#[test]
fn law_remove_keeps_everything_else() {
    let mut projects = vec![
        Project::new("/p/h/x".to_string(), vec![]),
        Project::new("/q/h/x".to_string(), vec![]),
        Project::new("/p/h/y".to_string(), vec![]),
    ];
    assert!(remove_from(&mut projects, "x", "/p"));
    assert!(!remove_from(&mut projects, "x", "/p"));
    let roots: Vec<&str> = projects.iter().map(|p| p.root_path.as_str()).collect();
    assert_eq!(roots, vec!["/q/h/x", "/p/h/y"]);
}

#[test]
fn law_set_host_skip_then_floor() {
    let mut cfg = Config::default();
    cfg.set_host_skip("a".to_string(), 2);
    cfg.set_host_skip("b".to_string(), 7);
    assert_eq!(cfg.floor_for("a"), 2);
    assert_eq!(cfg.floor_for("b"), 7);
}

#[test]
fn config_entries_are_sorted_and_deduplicated() {
    let mut cfg = Config::default();
    cfg.set_host_skip("gitlab".to_string(), 3);
    cfg.set_host_skip("bitbucket".to_string(), 1);
    cfg.set_host_skip("gitlab".to_string(), 2);
    assert_eq!(
        cfg.host_skip_entries(),
        vec![("bitbucket".to_string(), 1), ("gitlab".to_string(), 2)]
    );
    cfg.tag_rename.push(("work".to_string(), vec!["zeta".to_string(), "acme".to_string()]));
    cfg.tag_rename.push(("home".to_string(), vec!["me".to_string()]));
    assert_eq!(
        cfg.tag_rename_entries(),
        vec![
            ("home".to_string(), vec!["me".to_string()]),
            ("work".to_string(), vec!["acme".to_string(), "zeta".to_string()]),
        ]
    );
}

#[test]
fn law_remove_iff_name_is_managed() {
    let projects = vec![
        Project::new("/p/h/x".to_string(), vec![]),
        Project::new("/q/h/z".to_string(), vec![]),
    ];
    for name in ["x", "z", "w"] {
        let mut ps = projects.clone();
        let offered = managed_names(&projects, "/p").iter().any(|n| n == name);
        assert_eq!(remove_from(&mut ps, name, "/p"), offered);
    }
}

#[test]
fn law_skip_map_ignores_input_order() {
    let paths = vec![
        "/p/github/a/b/c/repo".to_string(),
        "/p/gitlab/x/repo1".to_string(),
        "/outside/q".to_string(),
        "/p/gitlab/x/repo2".to_string(),
        "/p/direct".to_string(),
    ];
    let mut reversed = paths.clone();
    reversed.reverse();
    let a = path_skip_map(&paths, "/p");
    let b = path_skip_map(&reversed, "/p");
    for p in paths.iter().chain(["/p/none".to_string()].iter()) {
        assert_eq!(skip_for(&a, p), skip_for(&b, p), "path {p}");
    }
}

#[test]
fn law_add_twice_changes_nothing() {
    let cfg = Config::default();
    let mut projects = vec![Project::new("/elsewhere/x".to_string(), vec![])];
    assert!(add_to(&mut projects, "/r/github/org/repo", "/r", &cfg));
    assert_eq!(projects.len(), 2);
    let names: Vec<String> = projects.iter().map(|p| p.root_path.clone()).collect();
    assert!(!add_to(&mut projects, "/r/github/org/repo", "/r", &cfg));
    let again: Vec<String> = projects.iter().map(|p| p.root_path.clone()).collect();
    assert_eq!(names, again);
}
