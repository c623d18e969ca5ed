use vscode_pmu::cli::{
    default_root_in, plan, run, Action, Cli, ConfigAction, DaemonAction, HooksAction, Subcommands,
};
use vscode_pmu::launchd::{build_plist, log_dir_in, plist_path_in, PLIST_LABEL};

#[test]
fn run_uses_given_root() {
    let cli = Cli { root: Some("/work".to_string()), subcommand: Subcommands::Scan };
    match run(cli) {
        Ok(Action::Scan { root }) => assert_eq!(root, "/work"),
        _ => panic!("expected a scan of /work"),
    }
}

#[test]
fn run_defaults_root_to_home_projects() {
    let cli = Cli { root: None, subcommand: Subcommands::Refresh };
    let expected = dirs::home_dir().unwrap().join("Projects");
    match run(cli) {
        Ok(Action::Refresh { root }) => assert_eq!(std::path::Path::new(&root), expected),
        _ => panic!("expected a refresh"),
    }
}

#[test]
fn plan_maps_every_subcommand() {
    let r = || "/r".to_string();
    assert!(matches!(plan(Subcommands::Add { path: Some("p".to_string()) }, r()),
        Action::Add { path: Some(ref p), ref root } if p == "p" && root == "/r"));
    assert!(matches!(plan(Subcommands::Remove { name: None }, r()), Action::Remove { name: None, .. }));
    assert!(matches!(plan(Subcommands::Daemon { action: DaemonAction::Install }, r()), Action::DaemonInstall));
    assert!(matches!(plan(Subcommands::Daemon { action: DaemonAction::Remove }, r()), Action::DaemonRemove));
    assert!(matches!(plan(Subcommands::Hooks { action: HooksAction::Install }, r()), Action::HooksInstall));
    assert!(matches!(plan(Subcommands::Hooks { action: HooksAction::Remove }, r()), Action::HooksRemove));
    assert!(matches!(
        plan(Subcommands::Config { action: ConfigAction::SetSkip { host: "gitlab".to_string(), depth: 3 } }, r()),
        Action::SetSkip { ref host, depth: 3 } if host == "gitlab"));
    assert!(matches!(plan(Subcommands::Config { action: ConfigAction::Show }, r()), Action::ShowConfig));
    assert!(matches!(plan(Subcommands::Watch, r()), Action::Watch { .. }));
}

#[test]
fn default_root_in_is_projects_under_home() {
    assert_eq!(default_root_in("/Users/me"), "/Users/me/Projects");
}

#[test]
fn plist_runs_watch_and_logs_under_log_dir() {
    let plist = build_plist("/usr/local/bin/vscode-pmu", "/Users/me/.cache/vscode-pmu");
    assert!(plist.starts_with("<?xml version=\"1.0\" encoding=\"UTF-8\"?>\n"));
    assert!(plist.contains(&format!("<string>{PLIST_LABEL}</string>")));
    assert!(plist.contains("<string>/usr/local/bin/vscode-pmu</string>\n    <string>watch</string>"));
    assert_eq!(plist.matches("<string>/Users/me/.cache/vscode-pmu/watch.log</string>").count(), 2);
    assert!(plist.ends_with("</dict>\n</plist>\n"));
}

#[test]
fn launchd_paths_under_home() {
    assert_eq!(
        plist_path_in("/Users/me"),
        "/Users/me/Library/LaunchAgents/com.thomasroche.vscode-project-manager-updater.plist"
    );
    assert_eq!(log_dir_in("/Users/me"), "/Users/me/.cache/vscode-pmu");
}
