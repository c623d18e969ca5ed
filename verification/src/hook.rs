//! The git `post-checkout` hook that registers fresh clones.
use vstd::prelude::*;
use crate::paths::{home_dir, join, spec_join};

verus! {

/// The hook script: on a branch checkout that follows a fresh clone (previous
/// HEAD all zeros) it runs `vscode-pmu add` on the new working tree.
pub const HOOK_CONTENT: &'static str = "#!/usr/bin/env bash
# post-checkout hook — auto-register new git clones with VSCode Project Manager
# Managed by vscode-pmu. Run `vscode-pmu hooks remove` to remove.
#
# Git passes:
#   $1 = previous HEAD (all-zeros SHA on a fresh clone)
#   $2 = new HEAD
#   $3 = 1 (branch checkout) | 0 (file checkout)

PREV_HEAD=\"$1\"
IS_BRANCH_CHECKOUT=\"$3\"
NULL_SHA=\"0000000000000000000000000000000000000000\"

# Only act on branch checkouts
[[ \"${IS_BRANCH_CHECKOUT}\" != \"1\" ]] && exit 0

# Only act on fresh clones (no previous HEAD)
[[ \"${PREV_HEAD}\" != \"${NULL_SHA}\" ]] && exit 0

if command -v vscode-pmu &>/dev/null; then
  vscode-pmu add \"$(pwd)\"
fi
";

/// The git template directory under `home` (set as `init.templateDir`).
pub fn template_dir_in(home: &str) -> (r: String)
    ensures
        r@ == spec_join(home@, ".config/git/templates"@),
{
    join(home, ".config/git/templates")
}

/// Where the hook is written under `home`: inside the template directory.
pub fn hook_path_in(home: &str) -> (r: String)
    ensures
        r@ == spec_join(spec_join(home@, ".config/git/templates"@), "hooks/post-checkout"@),
{
    let dir = template_dir_in(home);
    join(dir.as_str(), "hooks/post-checkout")
}

/// The git template directory, or nothing when the home directory is unknown.
pub fn template_dir() -> (r: Option<String>)
    ensures
        r matches Some(p) ==> exists|h: Seq<char>| h.len() > 0 && p@ == spec_join(h, ".config/git/templates"@),
{
    match home_dir() {
        Some(h) => Some(template_dir_in(h.as_str())),
        None => None,
    }
}

/// Where the hook is written, or nothing when the home directory is unknown.
pub fn hook_path() -> (r: Option<String>)
    ensures
        r matches Some(p) ==> exists|h: Seq<char>|
            h.len() > 0 && p@ == spec_join(spec_join(h, ".config/git/templates"@), "hooks/post-checkout"@),
{
    match home_dir() {
        Some(h) => Some(hook_path_in(h.as_str())),
        None => None,
    }
}

} // verus!
