use vscode_pmu::config::Config;
use vscode_pmu::projects::{
    add_to, compute_tags, managed_names, path_skip_map, remove_from, skip_for, Project,
};

fn skip(map: &Vec<(String, usize)>, path: &str) -> usize {
    skip_for(map, path).expect("path missing from skip map")
}

// ── compute_tags ──────────────────────────────────────────────────────────────

#[test]
fn tags_empty_for_direct_child() {
    let root = "/home/user/Projects";
    let project = "/home/user/Projects/my-repo";
    assert_eq!(compute_tags(project, root, 1), Vec::<String>::new());
}

#[test]
fn tags_fallback_to_host_for_shallow_nested() {
    let root = "/home/user/Projects";
    let project = "/home/user/Projects/github/my-repo";
    assert_eq!(compute_tags(project, root, 1), vec!["github"]);
}

#[test]
fn tags_empty_for_path_outside_watch_root() {
    let root = "/home/user/Projects";
    let project = "/home/user/other/my-repo";
    assert_eq!(compute_tags(project, root, 1), Vec::<String>::new());
}

#[test]
fn tags_intermediate_segments_after_skip() {
    let root = "/home/user/Projects";
    let project = "/home/user/Projects/gitlab/org/ns/group/my-repo";
    assert_eq!(compute_tags(project, root, 3), vec!["group"]);
}

#[test]
fn tags_multiple_segments_when_deep_enough() {
    let root = "/home/user/Projects";
    let project = "/home/user/Projects/gitlab/org/ns/infra/images/my-app";
    assert_eq!(compute_tags(project, root, 3), vec!["infra", "images"]);
}

#[test]
fn tags_ignore_trailing_and_repeated_separators() {
    let root = "/home/user/Projects/";
    let project = "/home/user//Projects/./github/org/my-repo/";
    assert_eq!(compute_tags(project, root, 1), vec!["org"]);
}

#[test]
fn tags_skip_zero_keeps_host() {
    let root = "/p";
    assert_eq!(compute_tags("/p/github/org/repo", root, 0), vec!["github", "org"]);
}

#[test]
fn tags_prefix_must_match_whole_components() {
    assert_eq!(compute_tags("/home/user/Projects2/github/repo", "/home/user/Projects", 1), Vec::<String>::new());
}

// ── path_skip_map / trie_skip_depth ──────────────────────────────────────────

#[test]
fn skip_depth_1_for_single_project_under_host() {
    let root = "/Projects";
    let paths = vec!["/Projects/github/my-repo".to_string()];
    let map = path_skip_map(&paths, root);
    assert_eq!(skip(&map, "/Projects/github/my-repo"), 1);
}

#[test]
fn skip_depth_strips_passthrough_org_segments() {
    let root = "/Projects";
    let paths = vec![
        "/Projects/gitlab/org/ns/group-a/repo-a".to_string(),
        "/Projects/gitlab/org/ns/group-b/repo-b".to_string(),
    ];
    let map = path_skip_map(&paths, root);
    assert_eq!(skip(&map, "/Projects/gitlab/org/ns/group-a/repo-a"), 2);
    assert_eq!(skip(&map, "/Projects/gitlab/org/ns/group-b/repo-b"), 2);
}

#[test]
fn skip_depth_2_for_singleton_leaf_groups() {
    let root = "/Projects";
    let paths = vec![
        "/Projects/github/group-a/repo-a".to_string(),
        "/Projects/github/group-b/repo-b".to_string(),
    ];
    let map = path_skip_map(&paths, root);
    assert_eq!(skip(&map, "/Projects/github/group-a/repo-a"), 2);
    assert_eq!(skip(&map, "/Projects/github/group-b/repo-b"), 2);
}

#[test]
fn skip_depth_1_when_group_has_direct_and_nested_projects() {
    let root = "/Projects";
    let paths = vec![
        "/Projects/github/group/repo-a".to_string(),
        "/Projects/github/group/repo-b".to_string(),
        "/Projects/github/group/sub-group/repo-c".to_string(),
    ];
    let map = path_skip_map(&paths, root);
    assert_eq!(skip(&map, "/Projects/github/group/repo-a"), 1);
    assert_eq!(skip(&map, "/Projects/github/group/repo-b"), 1);
    assert_eq!(skip(&map, "/Projects/github/group/sub-group/repo-c"), 1);
}

#[test]
fn skip_depth_1_when_group_has_multiple_projects() {
    let root = "/Projects";
    let paths = vec![
        "/Projects/github/group-a/repo-a".to_string(),
        "/Projects/github/group-a/repo-b".to_string(),
    ];
    let map = path_skip_map(&paths, root);
    assert_eq!(skip(&map, "/Projects/github/group-a/repo-a"), 1);
    assert_eq!(skip(&map, "/Projects/github/group-a/repo-b"), 1);
}

#[test]
fn skip_depth_per_branch_not_global() {
    let root = "/Projects";
    let paths = vec![
        "/Projects/gitlab/acme/platform/team-a/repo-a".to_string(),
        "/Projects/gitlab/acme/platform/team-b/repo-b".to_string(),
        "/Projects/gitlab/oss/group-x/repo-c".to_string(),
        "/Projects/gitlab/oss/group-y/repo-d".to_string(),
    ];
    let map = path_skip_map(&paths, root);
    assert_eq!(skip(&map, "/Projects/gitlab/acme/platform/team-a/repo-a"), 2);
    assert_eq!(skip(&map, "/Projects/gitlab/acme/platform/team-b/repo-b"), 2);
    assert_eq!(skip(&map, "/Projects/gitlab/oss/group-x/repo-c"), 1);
    assert_eq!(skip(&map, "/Projects/gitlab/oss/group-y/repo-d"), 1);
}

#[test]
fn skip_map_leaves_out_paths_outside_root_and_gives_direct_children_zero() {
    let paths = vec![
        "/elsewhere/repo".to_string(),
        "/Projects/my-repo".to_string(),
        "/Projects/github/org/deep/repo".to_string(),
    ];
    let map = path_skip_map(&paths, "/Projects");
    assert_eq!(map.len(), 2);
    assert_eq!(skip_for(&map, "/elsewhere/repo"), None);
    assert_eq!(skip(&map, "/Projects/my-repo"), 0);
    // github → org → deep is a single chain ending in one project: all noise.
    assert_eq!(skip(&map, "/Projects/github/org/deep/repo"), 3);
}

// ── Project::new ──────────────────────────────────────────────────────────────

#[test]
fn project_new_sets_name_from_last_segment() {
    let p = Project::new("/tmp/work/my-project".to_string(), vec![]);
    assert_eq!(p.name, "my-project");
}

#[test]
fn project_new_enabled_by_default() {
    let p = Project::new("/tmp/work/repo".to_string(), vec![]);
    assert!(p.enabled);
}

#[test]
fn project_new_empty_paths_and_profile() {
    let p = Project::new("/tmp/work/repo".to_string(), vec![]);
    assert!(p.paths.is_empty());
    assert_eq!(p.profile, "");
}

#[test]
fn project_new_name_ignores_trailing_separator_and_is_empty_for_parent_dir() {
    assert_eq!(Project::new("/a/b/repo/".to_string(), vec![]).name, "repo");
    assert_eq!(Project::new("/a/b/..".to_string(), vec![]).name, "");
    assert_eq!(Project::new("/".to_string(), vec![]).name, "");
}

#[test]
fn project_retag_recomputes_tags() {
    let mut p = Project::new("/Projects/gitlab/org/team/repo".to_string(), vec!["old".to_string()]);
    p.retag("/Projects", 2);
    assert_eq!(p.tags, vec!["team"]);
    assert_eq!(p.name, "repo");
}

// ── add_to ────────────────────────────────────────────────────────────────────

#[test]
fn add_to_adds_new_project() {
    let mut projects: Vec<Project> = vec![];
    let cfg = Config::default();
    let added = add_to(&mut projects, "/tmp/x/root/github/org/my-repo", "/tmp/x/root", &cfg);
    assert!(added);
    assert_eq!(projects.len(), 1);
    assert_eq!(projects[0].name, "my-repo");
    // Single project: github and org are noise, tags fall back to the host.
    assert_eq!(projects[0].tags, vec!["github"]);
}

#[test]
fn add_to_is_no_op_when_already_present() {
    let mut projects: Vec<Project> = vec![];
    let cfg = Config::default();
    add_to(&mut projects, "/tmp/x/root/github/org/my-repo", "/tmp/x/root", &cfg);
    let again = add_to(&mut projects, "/tmp/x/root/github/org/my-repo", "/tmp/x/root", &cfg);
    assert!(!again);
    assert_eq!(projects.len(), 1, "duplicate add must be a no-op");
}

#[test]
fn add_to_uses_existing_projects_floor_and_renames() {
    let mut projects = vec![Project::new("/r/github/acme/repo-a".to_string(), vec![])];
    let mut cfg = Config::default();
    cfg.tag_rename.push(("work".to_string(), vec!["acme".to_string()]));
    add_to(&mut projects, "/r/github/acme/repo-b", "/r", &cfg);
    assert_eq!(projects.len(), 2);
    // acme now holds two projects, so it is a meaningful group.
    assert_eq!(projects[1].tags, vec!["work"]);
    let mut projects2 = vec![Project::new("/r/github/acme/repo-a".to_string(), vec![])];
    let mut cfg2 = Config::default();
    cfg2.set_host_skip("github".to_string(), 2);
    add_to(&mut projects2, "/r/github/acme/repo-b", "/r", &cfg2);
    assert_eq!(projects2[1].tags, vec!["github"]);
}

// ── remove_from ───────────────────────────────────────────────────────────────

#[test]
fn remove_from_removes_existing_project() {
    let root = "/tmp/x/root";
    let mut projects = vec![Project::new("/tmp/x/root/my-repo".to_string(), vec![])];
    let removed = remove_from(&mut projects, "my-repo", root);
    assert!(removed);
    assert!(projects.is_empty());
}

#[test]
fn remove_from_returns_false_when_project_absent() {
    let mut projects: Vec<Project> = vec![];
    let removed = remove_from(&mut projects, "nonexistent", "/tmp/x/root");
    assert!(!removed);
}

#[test]
fn remove_from_preserves_projects_outside_root() {
    let root = "/tmp/x/root";
    let inside = Project::new("/tmp/x/root/my-repo".to_string(), vec![]);
    let outside = Project {
        name: "external".to_string(),
        root_path: "/some/other/path/external".to_string(),
        paths: vec![],
        tags: vec![],
        enabled: true,
        profile: String::new(),
    };
    let mut projects = vec![inside, outside];
    remove_from(&mut projects, "my-repo", root);
    assert_eq!(projects.len(), 1);
    assert_eq!(projects[0].name, "external");
}

#[test]
fn remove_from_keeps_same_name_outside_root() {
    let mut projects = vec![
        Project::new("/elsewhere/my-repo".to_string(), vec![]),
        Project::new("/r/a/my-repo".to_string(), vec![]),
        Project::new("/r/b/other".to_string(), vec![]),
        Project::new("/r/c/my-repo".to_string(), vec![]),
    ];
    assert!(remove_from(&mut projects, "my-repo", "/r"));
    let roots: Vec<&str> = projects.iter().map(|p| p.root_path.as_str()).collect();
    assert_eq!(roots, vec!["/elsewhere/my-repo", "/r/b/other"]);
}

#[test]
fn managed_names_lists_projects_under_root() {
    let projects = vec![
        Project::new("/elsewhere/x".to_string(), vec![]),
        Project::new("/r/a/y".to_string(), vec![]),
        Project::new("/r/z".to_string(), vec![]),
    ];
    assert_eq!(managed_names(&projects, "/r"), vec!["y", "z"]);
}

#[test]
fn projects_json_path_in_joins_vscode_storage() {
    assert_eq!(
        vscode_pmu::projects::projects_json_path_in("/Users/me"),
        "/Users/me/Library/Application Support/Code/User/globalStorage/alefragnani.project-manager/projects.json"
    );
}
