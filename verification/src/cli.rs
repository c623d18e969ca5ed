//! The command line: its commands, and what running one comes to.
use vstd::prelude::*;
use crate::paths::{home_dir, join, spec_join};

verus! {

/// The parsed command line.
pub struct Cli {
    /// Root directory to scan for git repositories; `~/Projects` when absent.
    pub root: Option<String>,
    pub subcommand: Subcommands,
}

#[allow(inconsistent_fields)]
pub enum Subcommands {
    /// Scan the root and update `projects.json` (using the cache when fresh).
    Scan,
    /// Add a git repository; the path is asked for when not given.
    Add { path: Option<String> },
    /// Remove a project; a pick-list is shown when no name is given.
    Remove { name: Option<String> },
    /// Invalidate the cache and scan again.
    Refresh,
    /// Manage the launchd background agent.
    Daemon { action: DaemonAction },
    /// Manage the git post-checkout hook.
    Hooks { action: HooksAction },
    /// Manage the configuration.
    Config { action: ConfigAction },
    /// Watch the root for changes (run by the agent).
    Watch,
}

pub enum DaemonAction {
    Install,
    Remove,
}

pub enum HooksAction {
    Install,
    Remove,
}

pub enum ConfigAction {
    /// Set the minimum tag-skip depth for a VCS host.
    SetSkip { host: String, depth: usize },
    /// Print the current configuration.
    Show,
}

/// What a command comes to, with the root it works on resolved.
pub enum Action {
    Scan { root: String },
    Add { path: Option<String>, root: String },
    Remove { name: Option<String>, root: String },
    Refresh { root: String },
    DaemonInstall,
    DaemonRemove,
    HooksInstall,
    HooksRemove,
    SetSkip { host: String, depth: usize },
    ShowConfig,
    Watch { root: String },
}

/// Why a command cannot run.
#[derive(Debug)]
pub enum CliError {
    /// No root was given and the home directory is unknown.
    HomeDirUnknown,
}

/// `a` is what the subcommand `sub` comes to on the root `root`.
pub open spec fn is_plan(sub: Subcommands, root: String, a: Action) -> bool {
    match sub {
        Subcommands::Scan => a == Action::Scan { root },
        Subcommands::Add { path } => a == Action::Add { path, root },
        Subcommands::Remove { name } => a == Action::Remove { name, root },
        Subcommands::Refresh => a == Action::Refresh { root },
        Subcommands::Daemon { action } => match action {
            DaemonAction::Install => a == Action::DaemonInstall,
            DaemonAction::Remove => a == Action::DaemonRemove,
        },
        Subcommands::Hooks { action } => match action {
            HooksAction::Install => a == Action::HooksInstall,
            HooksAction::Remove => a == Action::HooksRemove,
        },
        Subcommands::Config { action } => match action {
            ConfigAction::SetSkip { host, depth } => a == Action::SetSkip { host, depth },
            ConfigAction::Show => a == Action::ShowConfig,
        },
        Subcommands::Watch => a == Action::Watch { root },
    }
}

/// What `sub` comes to on `root` (see [`is_plan`]).
pub fn plan(sub: Subcommands, root: String) -> (a: Action)
    ensures
        is_plan(sub, root, a),
{
    match sub {
        Subcommands::Scan => Action::Scan { root },
        Subcommands::Add { path } => Action::Add { path, root },
        Subcommands::Remove { name } => Action::Remove { name, root },
        Subcommands::Refresh => Action::Refresh { root },
        Subcommands::Daemon { action } => match action {
            DaemonAction::Install => Action::DaemonInstall,
            DaemonAction::Remove => Action::DaemonRemove,
        },
        Subcommands::Hooks { action } => match action {
            HooksAction::Install => Action::HooksInstall,
            HooksAction::Remove => Action::HooksRemove,
        },
        Subcommands::Config { action } => match action {
            ConfigAction::SetSkip { host, depth } => Action::SetSkip { host, depth },
            ConfigAction::Show => Action::ShowConfig,
        },
        Subcommands::Watch => Action::Watch { root },
    }
}

/// The default root under `home`: `~/Projects`.
pub fn default_root_in(home: &str) -> (r: String)
    ensures
        r@ == spec_join(home@, "Projects"@),
{
    join(home, "Projects")
}

/// The default root, or nothing when the home directory is unknown.
pub fn default_root() -> (r: Option<String>)
    ensures
        r matches Some(p) ==> exists|h: Seq<char>| h.len() > 0 && p@ == spec_join(h, "Projects"@),
{
    match home_dir() {
        Some(h) => Some(default_root_in(h.as_str())),
        None => None,
    }
}

/// Resolves the root (the given one, else the default) and says what the
/// command comes to. Fails only when no root is given and the home directory
/// is unknown.
pub fn run(cli: Cli) -> (r: Result<Action, CliError>)
    ensures
        cli.root matches Some(root) ==> (r matches Ok(a) && is_plan(cli.subcommand, root, a)),
        cli.root is None ==> match r {
            Ok(a) => exists|root: String|
                is_plan(cli.subcommand, root, a) && exists|h: Seq<char>| h.len() > 0 && root@ == spec_join(h, "Projects"@),
            Err(e) => e is HomeDirUnknown,
        },
{
    let root = match cli.root {
        Some(r) => r,
        None => match default_root() {
            Some(r) => r,
            None => {
                return Err(CliError::HomeDirUnknown);
            },
        },
    };
    Ok(plan(cli.subcommand, root))
}

} // verus!
