# vscode_pmu

Keeps the VSCode Project Manager `projects.json` in sync with the git
repositories found under a root directory (default `~/Projects`).

The library (`src/`) is written in Verus; every function in it carries a
contract that Verus checks:

- `paths` — Unix path components, `strip_prefix`, `starts_with`, `join` and
  `file_name` over strings, with their specifications.
- `tags` — tag derivation (`compute_tags`) and the per-path noise depth of the
  prefix tree of all project paths (`path_skip_map`), with the laws that the
  host is always skipped, the project name never, that depths are decided
  per host, and that the map does not depend on the order of the paths.
- `config` — the configuration as maps (scan depth, tag renames, host floors),
  renaming, floors, and the sorted listing that `config show` prints.
- `projects` — the project entries and the `add` / `remove` list changes.
- `scan` — which directories the walk visits, and how a scan's findings are
  merged into the project list (outside projects kept first and untouched,
  missing ones dropped, found ones under the root added, all retagged).
- `cache` — freshness, the line format of the path cache with its round-trip
  law, and the hashed cache file name, which two spellings of one root share.
- `hook`, `launchd`, `cli` — the hook script, the launchd agent definition,
  the locations under the home directory, and what each command comes to.
- `order` — the character order of strings and sorting by it.

The program (`app/`) parses the command line, reads and writes files, walks the
directory tree, watches for changes and talks to `git` and `launchctl`; it
hands the library plain values and acts on what it returns.
