use vscode_pmu::config::{Config, DEFAULT_MAX_DEPTH};

#[test]
fn scan_max_depth_returns_default_when_unset() {
    let cfg = Config::default();
    assert_eq!(cfg.scan_max_depth(), DEFAULT_MAX_DEPTH);
}

#[test]
fn scan_max_depth_returns_configured_value() {
    let cfg = Config { max_depth: Some(3), ..Default::default() };
    assert_eq!(cfg.scan_max_depth(), 3);
}

#[test]
fn rename_tags_passes_through_when_map_empty() {
    let cfg = Config::default();
    let tags = vec!["user1".to_string(), "github".to_string()];
    assert_eq!(cfg.rename_tags(tags.clone()), tags);
}

#[test]
fn rename_tags_substitutes_matching_entry() {
    let mut cfg = Config::default();
    cfg.tag_rename.push(("personal".to_string(), vec!["user1".to_string()]));
    let result = cfg.rename_tags(vec!["user1".to_string()]);
    assert_eq!(result, vec!["personal".to_string()]);
}

#[test]
fn rename_tags_multiple_sources_map_to_one_label() {
    let mut cfg = Config::default();
    cfg.tag_rename.push(("personal".to_string(), vec!["user1".to_string(), "user2".to_string()]));
    let result = cfg.rename_tags(vec!["user1".to_string(), "user2".to_string()]);
    assert_eq!(result, vec!["personal".to_string(), "personal".to_string()]);
}

#[test]
fn rename_tags_leaves_unmatched_tags_unchanged() {
    let mut cfg = Config::default();
    cfg.tag_rename.push(("personal".to_string(), vec!["user1".to_string()]));
    let result = cfg.rename_tags(vec!["user1".to_string(), "acme".to_string()]);
    assert_eq!(result, vec!["personal".to_string(), "acme".to_string()]);
}

#[test]
fn floor_for_returns_zero_when_host_absent() {
    let cfg = Config::default();
    assert_eq!(cfg.floor_for("gitlab"), 0);
}

#[test]
fn floor_for_returns_configured_depth() {
    let mut cfg = Config::default();
    cfg.set_host_skip("gitlab".to_string(), 3);
    assert_eq!(cfg.floor_for("gitlab"), 3);
}

#[test]
fn set_host_skip_replaces_earlier_value() {
    let mut cfg = Config::default();
    cfg.set_host_skip("gitlab".to_string(), 3);
    cfg.set_host_skip("github".to_string(), 1);
    cfg.set_host_skip("gitlab".to_string(), 5);
    assert_eq!(cfg.floor_for("gitlab"), 5);
    assert_eq!(cfg.floor_for("github"), 1);
    assert_eq!(cfg.floor_for("bitbucket"), 0);
}

#[test]
fn rename_tags_later_entry_for_a_label_replaces_earlier_one() {
    let mut cfg = Config::default();
    cfg.tag_rename.push(("personal".to_string(), vec!["user1".to_string()]));
    cfg.tag_rename.push(("personal".to_string(), vec!["user2".to_string()]));
    let result = cfg.rename_tags(vec!["user1".to_string(), "user2".to_string()]);
    assert_eq!(result, vec!["user1".to_string(), "personal".to_string()]);
}

#[test]
fn rename_tags_keeps_length_and_order() {
    let mut cfg = Config::default();
    cfg.tag_rename.push(("work".to_string(), vec!["acme".to_string(), "infra".to_string()]));
    let result = cfg.rename_tags(vec![
        "infra".to_string(),
        "other".to_string(),
        "acme".to_string(),
    ]);
    assert_eq!(result, vec!["work".to_string(), "other".to_string(), "work".to_string()]);
}

#[test]
fn config_path_in_joins_config_file() {
    assert_eq!(
        vscode_pmu::config::config_path_in("/home/u"),
        "/home/u/.config/vscode-pmu/config.toml"
    );
}
