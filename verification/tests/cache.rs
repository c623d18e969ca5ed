use std::collections::hash_map::DefaultHasher;
use std::hash::{Hash, Hasher};
use std::path::Path;
use vscode_pmu::cache::{
    cache_path_for, cache_path_in, hex, is_fresh, read_paths, update_paths, write_paths, CACHE_TTL,
};
use vscode_pmu::projects::Project;

#[test]
fn cache_path_for_is_under_cache_dir() {
    let expected_dir = dirs::home_dir().unwrap().join(".cache/vscode-pmu");
    let path = cache_path_for("/home/user/Projects").unwrap();
    assert_eq!(Path::new(&path).parent().unwrap(), expected_dir);
}

#[test]
fn cache_path_for_differs_per_root() {
    let a = cache_path_for("/home/user/Projects").unwrap();
    let b = cache_path_for("/home/user/Work").unwrap();
    assert_ne!(a, b);
}

#[test]
fn cache_path_for_is_deterministic() {
    let root = "/home/user/Projects";
    assert_eq!(cache_path_for(root).unwrap(), cache_path_for(root).unwrap());
}

#[test]
fn cache_path_for_no_collision_on_char_substitution() {
    let a = cache_path_for("/foo/bar-baz").unwrap();
    let b = cache_path_for("/foo/bar_baz").unwrap();
    assert_ne!(a, b);
}

#[test]
fn cache_path_in_uses_hashed_file_name() {
    let p = cache_path_in("/home/u", "/home/u/Projects");
    assert!(p.starts_with("/home/u/.cache/vscode-pmu/"));
    let name = p.rsplit('/').next().unwrap();
    assert_eq!(name.len(), 16 + ".cache".len());
    assert!(name.ends_with(".cache"));
    assert!(name[..16].chars().all(|c| c.is_ascii_hexdigit() && !c.is_ascii_uppercase()));
}

#[test]
fn hex_is_zero_padded_lower_case() {
    assert_eq!(hex(0, 16), "0000000000000000");
    assert_eq!(hex(0xbeef, 16), "000000000000beef");
    assert_eq!(hex(u64::MAX, 16), "ffffffffffffffff");
    assert_eq!(hex(0x1234_5678_9abc_def0, 16), format!("{:016x}", 0x1234_5678_9abc_def0u64));
}

#[test]
fn is_fresh_returns_false_when_file_absent() {
    assert!(!is_fresh(None));
}

#[test]
fn is_fresh_returns_true_for_newly_created_file() {
    assert!(is_fresh(Some(0)));
}

#[test]
fn is_fresh_expires_after_ttl() {
    assert!(is_fresh(Some(CACHE_TTL - 1)));
    assert!(!is_fresh(Some(CACHE_TTL)));
    assert!(!is_fresh(Some(CACHE_TTL + 10)));
}

#[test]
fn write_then_read_round_trips_paths() {
    let paths = vec![
        "/home/user/Projects/foo".to_string(),
        "/home/user/Projects/bar".to_string(),
    ];
    let content = write_paths(&paths);
    let got = read_paths(&content);
    assert_eq!(got, paths);
}

#[test]
fn write_then_read_filters_blank_lines() {
    let got = read_paths("\n/foo/bar\n\n/baz/qux\n\n");
    assert_eq!(got, vec!["/foo/bar", "/baz/qux"]);
}

#[test]
fn write_empty_slice_produces_empty_read() {
    let content = write_paths(&vec![]);
    assert_eq!(content, "\n");
    let got = read_paths(&content);
    assert!(got.is_empty());
}

#[test]
fn write_paths_joins_with_newlines() {
    let paths = vec!["/a".to_string(), "/b".to_string()];
    assert_eq!(write_paths(&paths), "/a\n/b\n");
}

#[test]
fn read_paths_matches_str_lines() {
    let content = "a\r\nb\n  \n\t\nc\r\n\rd\n last";
    let expected: Vec<String> = content
        .lines()
        .filter(|l| !l.trim().is_empty())
        .map(str::to_string)
        .collect();
    assert_eq!(read_paths(content), expected);
    assert_eq!(read_paths("x\r"), vec!["x\r"]);
}

#[test]
fn update_paths_writes_root_paths_from_projects() {
    let projects = vec![
        Project {
            name: "foo".to_string(),
            root_path: "/projects/foo".to_string(),
            paths: vec![],
            tags: vec![],
            enabled: true,
            profile: String::new(),
        },
        Project {
            name: "bar".to_string(),
            root_path: "/projects/bar".to_string(),
            paths: vec![],
            tags: vec![],
            enabled: true,
            profile: String::new(),
        },
    ];
    let roots: Vec<String> = projects.iter().map(|p| p.root_path.clone()).collect();
    let got = read_paths(&write_paths(&roots));
    assert_eq!(got, vec!["/projects/foo", "/projects/bar"]);
    assert_eq!(read_paths(&update_paths("/projects", &projects)), got);
}

#[test]
fn update_paths_records_only_roots_under_the_watch_root() {
    let projects = vec![
        Project::new("/projects/foo".to_string(), vec![]),
        Project::new("/elsewhere/ext".to_string(), vec![]),
        Project::new("/projects/bar".to_string(), vec![]),
    ];
    assert_eq!(update_paths("/projects", &projects), "/projects/foo\n/projects/bar\n");
}

#[test]
fn cache_path_is_shared_by_spellings_of_one_root() {
    let a = cache_path_in("/h", "/home/user/Projects");
    assert_eq!(a, cache_path_in("/h", "/home/user/Projects/"));
    assert_eq!(a, cache_path_in("/h", "/home/user//Projects/./"));
    assert_eq!(cache_path_for("/home/user/Projects"), cache_path_for("/home/user/Projects/"));
    assert_ne!(a, cache_path_in("/h", "/home/user/Projects/sub"));
}

#[test]
fn cache_file_name_is_std_hash_of_the_root() {
    let root = "/home/user/Projects";
    let mut hasher = DefaultHasher::new();
    root.hash(&mut hasher);
    let expected = format!("/h/.cache/vscode-pmu/{:016x}.cache", hasher.finish());
    assert_eq!(cache_path_in("/h", root), expected);
    assert_eq!(cache_path_in("/h", "/home/user/Projects/"), expected);
}
