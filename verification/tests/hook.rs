use vscode_pmu::hook::{hook_path_in, template_dir_in, HOOK_CONTENT};

#[test]
fn hook_content_has_shebang() {
    assert!(HOOK_CONTENT.starts_with("#!/usr/bin/env bash"));
}

#[test]
fn hook_content_calls_vscode_pmu_add() {
    assert!(HOOK_CONTENT.contains("vscode-pmu add"));
}

#[test]
fn hook_content_guards_on_null_sha() {
    assert!(HOOK_CONTENT.contains("0000000000000000000000000000000000000000"));
}

#[test]
fn hook_content_guards_on_branch_checkout() {
    assert!(HOOK_CONTENT.contains("IS_BRANCH_CHECKOUT"));
}

#[test]
fn hook_path_is_inside_template_dir() {
    assert_eq!(template_dir_in("/home/u"), "/home/u/.config/git/templates");
    assert_eq!(hook_path_in("/home/u"), "/home/u/.config/git/templates/hooks/post-checkout");
    assert_eq!(hook_path_in("/home/u/"), "/home/u/.config/git/templates/hooks/post-checkout");
}
