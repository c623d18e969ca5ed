//! The launchd agent that runs the watcher at login.
use vstd::prelude::*;
use crate::paths::{home_dir, join, spec_join};

verus! {

/// The label of the launchd agent.
pub const PLIST_LABEL: &'static str = "com.thomasroche.vscode-project-manager-updater";

pub const PLIST_HEAD: &'static str = "<?xml version=\"1.0\" encoding=\"UTF-8\"?>
<!DOCTYPE plist PUBLIC \"-//Apple//DTD PLIST 1.0//EN\" \"http://www.apple.com/DTDs/PropertyList-1.0.dtd\">
<plist version=\"1.0\">
<dict>
  <key>Label</key>
  <string>";

pub const PLIST_PROGRAM: &'static str = "</string>
  <key>ProgramArguments</key>
  <array>
    <string>";

pub const PLIST_STDOUT: &'static str = "</string>
    <string>watch</string>
  </array>
  <key>RunAtLoad</key>
  <true/>
  <key>KeepAlive</key>
  <true/>
  <key>StandardOutPath</key>
  <string>";

pub const PLIST_STDERR: &'static str = "/watch.log</string>
  <key>StandardErrorPath</key>
  <string>";

pub const PLIST_TAIL: &'static str = "/watch.log</string>
</dict>
</plist>
";

/// The agent definition: run `<binary_path> watch` at load and keep it
/// alive, logging to `<log_path>/watch.log`.
pub open spec fn spec_plist(binary_path: Seq<char>, log_path: Seq<char>) -> Seq<char> {
    PLIST_HEAD@ + PLIST_LABEL@ + PLIST_PROGRAM@ + binary_path + PLIST_STDOUT@ + log_path
        + PLIST_STDERR@ + log_path + PLIST_TAIL@
}

/// The agent definition (see [`spec_plist`]).
pub fn build_plist(binary_path: &str, log_path: &str) -> (r: String)
    ensures
        r@ == spec_plist(binary_path@, log_path@),
{
    let mut r = String::from_str(PLIST_HEAD);
    r.append(PLIST_LABEL);
    r.append(PLIST_PROGRAM);
    r.append(binary_path);
    r.append(PLIST_STDOUT);
    r.append(log_path);
    r.append(PLIST_STDERR);
    r.append(log_path);
    r.append(PLIST_TAIL);
    r
}

/// The file name of the agent definition, below `~/Library/LaunchAgents`.
pub open spec fn spec_plist_rel() -> Seq<char> {
    "Library/LaunchAgents/"@ + PLIST_LABEL@ + ".plist"@
}

/// Where the agent definition is written under `home`.
pub fn plist_path_in(home: &str) -> (r: String)
    ensures
        r@ == spec_join(home@, spec_plist_rel()),
{
    let mut rel = String::from_str("Library/LaunchAgents/");
    rel.append(PLIST_LABEL);
    rel.append(".plist");
    join(home, rel.as_str())
}

/// Where the agent's log goes under `home`.
pub fn log_dir_in(home: &str) -> (r: String)
    ensures
        r@ == spec_join(home@, ".cache/vscode-pmu"@),
{
    join(home, ".cache/vscode-pmu")
}

/// Where the agent definition is written, or nothing when the home directory
/// is unknown.
pub fn plist_path() -> (r: Option<String>)
    ensures
        r matches Some(p) ==> exists|h: Seq<char>| h.len() > 0 && p@ == spec_join(h, spec_plist_rel()),
{
    match home_dir() {
        Some(h) => Some(plist_path_in(h.as_str())),
        None => None,
    }
}

/// Where the agent's log goes, or nothing when the home directory is unknown.
pub fn log_dir() -> (r: Option<String>)
    ensures
        r matches Some(p) ==> exists|h: Seq<char>| h.len() > 0 && p@ == spec_join(h, ".cache/vscode-pmu"@),
{
    match home_dir() {
        Some(h) => Some(log_dir_in(h.as_str())),
        None => None,
    }
}

} // verus!
