use vscode_pmu::config::Config;
use vscode_pmu::projects::Project;
use vscode_pmu::scan::{effective_skip, reconcile};

fn project(root_path: &str, tags: &[&str]) -> Project {
    Project::new(root_path.to_string(), tags.iter().map(|t| t.to_string()).collect())
}

#[test]
fn reconcile_keeps_outside_drops_dead_retags_and_adds_found() {
    let existing = vec![
        project("/r/github/acme/old-a", &["stale"]),
        project("/elsewhere/ext", &["mine"]),
        project("/r/github/acme/gone", &[]),
    ];
    let alive = vec![true, false, false];
    let found = vec![
        "/r/github/acme/old-a".to_string(),
        "/r/github/acme/new-b".to_string(),
        "/r/gitlab/solo/new-c".to_string(),
        "/r/github/acme/missing".to_string(),
    ];
    let found_alive = vec![true, true, true, false];
    let merged = reconcile(existing, &alive, &found, &found_alive, "/r", &Config::default());
    let roots: Vec<&str> = merged.iter().map(|p| p.root_path.as_str()).collect();
    assert_eq!(
        roots,
        vec!["/elsewhere/ext", "/r/github/acme/old-a", "/r/github/acme/new-b", "/r/gitlab/solo/new-c"]
    );
    // Outside projects are left untouched, even when their directory is gone.
    assert_eq!(merged[0].tags, vec!["mine"]);
    // acme holds old-a, new-b (and missing), so it is meaningful.
    assert_eq!(merged[1].tags, vec!["acme"]);
    assert_eq!(merged[2].tags, vec!["acme"]);
    assert_eq!(merged[2].name, "new-b");
    // solo holds one project: noise, fall back to the host.
    assert_eq!(merged[3].tags, vec!["gitlab"]);
}

#[test]
fn reconcile_applies_host_floor() {
    let mut cfg = Config::default();
    cfg.set_host_skip("gitlab".to_string(), 3);
    let found = vec![
        "/r/gitlab/co/platform/team-a/x".to_string(),
        "/r/gitlab/co/platform/team-b/y".to_string(),
        "/r/gitlab/co/other/z".to_string(),
    ];
    let merged = reconcile(vec![], &vec![], &found, &vec![true, true, true], "/r", &cfg);
    assert_eq!(merged.len(), 3);
    assert_eq!(merged[0].tags, vec!["team-a"]);
    assert_eq!(merged[1].tags, vec!["team-b"]);
    assert_eq!(merged[2].tags, vec!["gitlab"]);
}

#[test]
fn reconcile_adds_a_found_duplicate_once_per_occurrence() {
    let found = vec!["/r/a/x".to_string(), "/r/a/x".to_string()];
    let merged = reconcile(vec![], &vec![], &found, &vec![true, true], "/r", &Config::default());
    assert_eq!(merged.len(), 2);
}

#[test]
fn effective_skip_takes_larger_of_trie_and_floor() {
    let mut cfg = Config::default();
    cfg.set_host_skip("gitlab".to_string(), 3);
    assert_eq!(effective_skip("/r/gitlab/a/b/c", "/r", 1, &cfg), 3);
    assert_eq!(effective_skip("/r/gitlab/a/b/c", "/r", 4, &cfg), 4);
    assert_eq!(effective_skip("/r/github/a/b", "/r", 1, &cfg), 1);
    assert_eq!(effective_skip("/elsewhere/x", "/r", 2, &cfg), 2);
}

#[test]
fn reconcile_applies_tag_renames() {
    let mut cfg = Config::default();
    cfg.tag_rename.push(("personal".to_string(), vec!["me".to_string()]));
    let existing = vec![project("/r/github/me/a", &["github"])];
    let found = vec!["/r/github/me/a".to_string(), "/r/github/me/b".to_string()];
    let merged = reconcile(existing, &vec![true], &found, &vec![true, true], "/r", &cfg);
    assert_eq!(merged.len(), 2);
    assert_eq!(merged[0].tags, vec!["personal"]);
    assert_eq!(merged[1].tags, vec!["personal"]);
}

#[test]
fn readme_tag_table() {
    // A lone project under each layout of the README's table.
    for (path, expected) in [
        ("/root/Projects/github/org/repo", vec!["github"]),
        ("/root/Projects/gitlab/group/sub/repo", vec!["gitlab"]),
        ("/root/Projects/my-repo", vec![]),
    ] {
        let merged = reconcile(
            vec![],
            &vec![],
            &vec![path.to_string()],
            &vec![true],
            "/root/Projects",
            &Config::default(),
        );
        assert_eq!(merged.len(), 1);
        assert_eq!(merged[0].tags, expected, "tags of {path}");
    }
}

#[test]
fn reconcile_ignores_found_paths_outside_the_root() {
    // A rescan from a cache that still lists a project outside the root must
    // not list that project a second time.
    let existing = vec![project("/elsewhere/ext", &["mine"])];
    let found = vec!["/elsewhere/ext".to_string(), "/elsewhere/other".to_string(), "/r/a/x".to_string()];
    let merged = reconcile(existing, &vec![true], &found, &vec![true, true, true], "/r", &Config::default());
    let roots: Vec<&str> = merged.iter().map(|p| p.root_path.as_str()).collect();
    assert_eq!(roots, vec!["/elsewhere/ext", "/r/a/x"]);
    assert_eq!(merged[0].tags, vec!["mine"]);
}
