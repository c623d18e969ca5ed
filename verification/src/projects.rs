//! The projects of the VSCode Project Manager list, and the changes `add` and
//! `remove` make to that list.
use vstd::prelude::*;
use crate::config::{is_renaming, Config};
use crate::paths::{file_name, home_dir, join, spec_file_name, spec_join, spec_starts_with, starts_with};
use crate::scan::{effective_skip, spec_effective_skip};
pub use crate::tags::{compute_tags, path_skip_map, skip_for};
use crate::tags::{lemma_skip_map_lookup, spec_compute_tags, spec_skip_or_default};

verus! {

/// One entry of `projects.json`.
#[derive(Clone, Debug)]
pub struct Project {
    pub name: String,
    pub root_path: String,
    pub paths: Vec<String>,
    pub tags: Vec<String>,
    pub enabled: bool,
    pub profile: String,
}

pub struct ProjectView {
    pub name: Seq<char>,
    pub root_path: Seq<char>,
    pub paths: Seq<Seq<char>>,
    pub tags: Seq<Seq<char>>,
    pub enabled: bool,
    pub profile: Seq<char>,
}

impl View for Project {
    type V = ProjectView;

    open spec fn view(&self) -> ProjectView {
        ProjectView {
            name: self.name@,
            root_path: self.root_path@,
            paths: self.paths.deep_view(),
            tags: self.tags.deep_view(),
            enabled: self.enabled,
            profile: self.profile@,
        }
    }
}

/// The views of a list of projects.
pub open spec fn projects_view(ps: Seq<Project>) -> Seq<ProjectView> {
    ps.map_values(|p: Project| p@)
}

/// The value `enabled` takes when `projects.json` leaves it out.
pub fn default_true() -> (r: bool)
    ensures
        r,
{
    true
}

/// The name of a project at `root_path`: its last component, or empty.
pub open spec fn spec_project_name(root_path: Seq<char>) -> Seq<char> {
    match spec_file_name(root_path) {
        Some(n) => n,
        None => Seq::empty(),
    }
}

/// A new enabled project at `root_path` with `tags`, no extra paths and no profile.
pub open spec fn spec_new_project(root_path: Seq<char>, tags: Seq<Seq<char>>) -> ProjectView {
    ProjectView {
        name: spec_project_name(root_path),
        root_path,
        paths: seq![],
        tags,
        enabled: true,
        profile: seq![],
    }
}

impl Project {
    /// A new project at `root_path`, named after its last component.
    pub fn new(root_path: String, tags: Vec<String>) -> (r: Project)
        ensures
            r@ == spec_new_project(root_path@, tags.deep_view()),
    {
        let name = match file_name(root_path.as_str()) {
            Some(n) => n,
            None => String::new(),
        };
        let r = Project {
            name,
            root_path,
            paths: Vec::new(),
            tags,
            enabled: true,
            profile: String::new(),
        };
        assert(r.paths.deep_view() =~= Seq::<Seq<char>>::empty());
        r
    }

    /// Recomputes the tags from the root path with the given skip depth.
    pub fn retag(&mut self, watch_root: &str, skip: usize)
        ensures
            final(self)@ == (ProjectView {
                tags: spec_compute_tags(old(self)@.root_path, watch_root@, skip as int),
                ..old(self)@
            }),
    {
        let tags = compute_tags(self.root_path.as_str(), watch_root, skip);
        self.tags = tags;
    }
}

/// The root paths of the projects under `root`, in order.
pub open spec fn spec_managed_roots(ps: Seq<ProjectView>, root: Seq<char>) -> Seq<Seq<char>>
    decreases ps.len(),
{
    if ps.len() == 0 {
        seq![]
    } else {
        let prev = spec_managed_roots(ps.drop_last(), root);
        if spec_starts_with(ps.last().root_path, root) {
            prev.push(ps.last().root_path)
        } else {
            prev
        }
    }
}

/// The names of the projects under `root`, in order.
pub open spec fn spec_managed_names(ps: Seq<ProjectView>, root: Seq<char>) -> Seq<Seq<char>>
    decreases ps.len(),
{
    if ps.len() == 0 {
        seq![]
    } else {
        let prev = spec_managed_names(ps.drop_last(), root);
        if spec_starts_with(ps.last().root_path, root) {
            prev.push(ps.last().name)
        } else {
            prev
        }
    }
}

/// The root paths of the projects under `root` (see [`spec_managed_roots`]).
pub fn managed_roots(projects: &Vec<Project>, root: &str) -> (r: Vec<String>)
    ensures
        r.deep_view() == spec_managed_roots(projects_view(projects@), root@),
{
    let ghost ps = projects_view(projects@);
    let mut r: Vec<String> = Vec::new();
    let mut k: usize = 0;
    while k < projects.len()
        invariant
            ps == projects_view(projects@),
            k <= projects.len(),
            r.deep_view() == spec_managed_roots(ps.take(k as int), root@),
        decreases projects.len() - k,
    {
        proof {
            assert(ps.take(k + 1).drop_last() =~= ps.take(k as int));
            assert(ps.take(k + 1).last() == projects[k as int]@);
        }
        if starts_with(projects[k].root_path.as_str(), root) {
            let ghost before = r.deep_view();
            r.push(projects[k].root_path.clone());
            assert(r.deep_view() =~= before.push(projects[k as int].root_path@));
        }
        k = k + 1;
    }
    proof {
        assert(ps.take(projects.len() as int) =~= ps);
    }
    r
}

/// The names of the projects under `root`, offered when `remove` is given no
/// name (see [`spec_managed_names`]).
pub fn managed_names(projects: &Vec<Project>, root: &str) -> (r: Vec<String>)
    ensures
        r.deep_view() == spec_managed_names(projects_view(projects@), root@),
{
    let ghost ps = projects_view(projects@);
    let mut r: Vec<String> = Vec::new();
    let mut k: usize = 0;
    while k < projects.len()
        invariant
            ps == projects_view(projects@),
            k <= projects.len(),
            r.deep_view() == spec_managed_names(ps.take(k as int), root@),
        decreases projects.len() - k,
    {
        proof {
            assert(ps.take(k + 1).drop_last() =~= ps.take(k as int));
            assert(ps.take(k + 1).last() == projects[k as int]@);
        }
        if starts_with(projects[k].root_path.as_str(), root) {
            let ghost before = r.deep_view();
            r.push(projects[k].name.clone());
            assert(r.deep_view() =~= before.push(projects[k as int].name@));
        }
        k = k + 1;
    }
    proof {
        assert(ps.take(projects.len() as int) =~= ps);
    }
    r
}

// ── add ───────────────────────────────────────────────────────────────────────

/// Some project of `ps` has its root at `p`.
pub open spec fn spec_is_listed(ps: Seq<ProjectView>, p: Seq<char>) -> bool {
    exists|i: int| 0 <= i < ps.len() && (#[trigger] ps[i]).root_path == p
}

/// The paths among which a new project's noise depth is computed: the roots of
/// the projects already under `root`, then the new one.
pub open spec fn spec_add_candidates(ps: Seq<ProjectView>, root: Seq<char>, resolved: Seq<char>) -> Seq<Seq<char>> {
    spec_managed_roots(ps, root).push(resolved)
}

/// The skip depth used for a new project at `resolved`: the larger of its
/// noise depth among the candidates and the floor configured for its host.
pub open spec fn spec_add_skip(ps: Seq<ProjectView>, root: Seq<char>, resolved: Seq<char>, floors: Map<Seq<char>, usize>) -> int {
    spec_effective_skip(
        resolved,
        root,
        spec_skip_or_default(spec_add_candidates(ps, root, resolved), root, resolved),
        floors,
    )
}

/// A host floor only raises the skip `add` uses: it is the new project's
/// noise depth among the candidates or the floor configured for its host,
/// whichever is larger.
pub proof fn lemma_add_skip_is_larger(ps: Seq<ProjectView>, root: Seq<char>, resolved: Seq<char>, floors: Map<Seq<char>, usize>)
    ensures
        ({
            let depth = spec_skip_or_default(spec_add_candidates(ps, root, resolved), root, resolved);
            let host = crate::paths::spec_first_below(resolved, root);
            let floor = if floors.contains_key(host) { floors[host] as int } else { 0 };
            &&& spec_add_skip(ps, root, resolved, floors) >= depth
            &&& spec_add_skip(ps, root, resolved, floors) >= floor
            &&& (spec_add_skip(ps, root, resolved, floors) == depth || spec_add_skip(ps, root, resolved, floors)
                == floor)
        }),
{
    crate::scan::lemma_floor_only_raises(
        resolved,
        root,
        spec_skip_or_default(spec_add_candidates(ps, root, resolved), root, resolved),
        floors,
    );
}

/// `p` is the project `add` makes for `resolved`: named after its last
/// component, enabled, with the derived tags after the configured renames.
pub open spec fn is_added_project(p: ProjectView, ps: Seq<ProjectView>, root: Seq<char>, resolved: Seq<char>, cfg: crate::config::ConfigView) -> bool {
    let tags = spec_compute_tags(resolved, root, spec_add_skip(ps, root, resolved, cfg.host_skip));
    &&& p == spec_new_project(resolved, p.tags)
    &&& is_renaming(cfg.tag_rename, tags, p.tags)
}

/// Whether some project has its root at `path`.
pub fn is_listed(projects: &Vec<Project>, path: &str) -> (r: bool)
    ensures
        r == spec_is_listed(projects_view(projects@), path@),
{
    let ghost ps = projects_view(projects@);
    let mut k: usize = 0;
    while k < projects.len()
        invariant
            ps == projects_view(projects@),
            k <= projects.len(),
            forall|i: int| 0 <= i < k ==> (#[trigger] ps[i]).root_path != path@,
        decreases projects.len() - k,
    {
        if crate::paths::str_eq(projects[k].root_path.as_str(), path) {
            assert(ps[k as int].root_path == path@);
            return true;
        }
        k = k + 1;
    }
    false
}

/// Adds the git repository at `resolved` (a canonical path) to `projects`,
/// unless a project is already listed there. Its tags are derived below
/// `root` with the noise depth it has among the projects already under
/// `root`, raised to the configured floor for its host, then renamed.
/// Returns whether the list changed.
pub fn add_to(projects: &mut Vec<Project>, resolved: &str, root: &str, cfg: &Config) -> (added: bool)
    ensures
        added == !spec_is_listed(projects_view(old(projects)@), resolved@),
        !added ==> final(projects)@ == old(projects)@,
        added ==> final(projects)@.len() == old(projects)@.len() + 1,
        added ==> final(projects)@.drop_last() == old(projects)@ && is_added_project(
            final(projects)@.last()@,
            projects_view(old(projects)@),
            root@,
            resolved@,
            cfg@,
        ),
{
    if is_listed(projects, resolved) {
        return false;
    }
    let ghost ps = projects_view(projects@);
    let mut candidates = managed_roots(projects, root);
    candidates.push(String::from_str(resolved));
    let ghost cands = candidates.deep_view();
    assert(cands =~= spec_add_candidates(ps, root@, resolved@));
    let skip_map = path_skip_map(&candidates, root);
    let trie_skip = match skip_for(&skip_map, resolved) {
        Some(d) => d,
        None => 1,
    };
    proof {
        assert(cands.contains(resolved@)) by {
            assert(cands[cands.len() - 1] == resolved@);
        }
        lemma_skip_map_lookup(cands, root@, resolved@);
        assert(trie_skip as int == spec_skip_or_default(cands, root@, resolved@));
    }
    let skip = effective_skip(resolved, root, trie_skip, cfg);
    let derived = compute_tags(resolved, root, skip);
    let tags = cfg.rename_tags(derived);
    let project = Project::new(String::from_str(resolved), tags);
    let ghost before = projects@;
    projects.push(project);
    proof {
        assert(projects@.drop_last() =~= before);
    }
    true
}

/// Adding is idempotent: once `add` has put a project at `resolved`, that
/// path is listed, so adding it again changes nothing.
pub proof fn lemma_add_is_idempotent(
    ps: Seq<ProjectView>,
    root: Seq<char>,
    resolved: Seq<char>,
    cfg: crate::config::ConfigView,
    p: ProjectView,
)
    requires
        is_added_project(p, ps, root, resolved, cfg),
    ensures
        spec_is_listed(ps.push(p), resolved),
{
    assert(ps.push(p)[ps.len() as int] == p);
}

// ── remove ────────────────────────────────────────────────────────────────────

/// `p` is a project under `root` named `name`: what `remove` takes away.
pub open spec fn is_removed_by(p: ProjectView, name: Seq<char>, root: Seq<char>) -> bool {
    spec_starts_with(p.root_path, root) && p.name == name
}

/// The projects that `remove` keeps, in order.
pub open spec fn spec_retained(ps: Seq<Project>, name: Seq<char>, root: Seq<char>) -> Seq<Project>
    decreases ps.len(),
{
    if ps.len() == 0 {
        seq![]
    } else {
        let prev = spec_retained(ps.drop_last(), name, root);
        if is_removed_by(ps.last()@, name, root) {
            prev
        } else {
            prev.push(ps.last())
        }
    }
}

/// What `remove` keeps: none of the removed projects, every other project,
/// and fewer projects exactly when one of them was to be removed.
pub proof fn lemma_retained(ps: Seq<Project>, name: Seq<char>, root: Seq<char>)
    ensures
        forall|k: int|
            0 <= k < spec_retained(ps, name, root).len() ==> !is_removed_by(
                #[trigger] spec_retained(ps, name, root)[k]@,
                name,
                root,
            ),
        forall|i: int|
            0 <= i < ps.len() && !is_removed_by(#[trigger] ps[i]@, name, root) ==> spec_retained(
                ps,
                name,
                root,
            ).contains(ps[i]),
        spec_retained(ps, name, root).len() <= ps.len(),
        (spec_retained(ps, name, root).len() == ps.len()) == (forall|i: int|
            0 <= i < ps.len() ==> !is_removed_by(#[trigger] ps[i]@, name, root)),
    decreases ps.len(),
{
    if ps.len() > 0 {
        let init = ps.drop_last();
        lemma_retained(init, name, root);
        let r = spec_retained(ps, name, root);
        let pr = spec_retained(init, name, root);
        assert forall|k: int| 0 <= k < r.len() implies !is_removed_by(#[trigger] r[k]@, name, root) by {
            if k < pr.len() {
                assert(r[k] == pr[k]);
            }
        }
        assert forall|i: int|
            0 <= i < ps.len() && !is_removed_by(#[trigger] ps[i]@, name, root) implies r.contains(
            ps[i],
        ) by {
            if i < init.len() {
                assert(init[i] == ps[i]);
                let k = choose|k: int| 0 <= k < pr.len() && pr[k] == init[i];
                assert(r[k] == pr[k]);
            } else {
                assert(r[r.len() - 1] == ps[i]);
            }
        }
        if r.len() == ps.len() {
            assert forall|i: int| 0 <= i < ps.len() implies !is_removed_by(#[trigger] ps[i]@, name, root) by {
                if i < init.len() {
                    assert(init[i] == ps[i]);
                }
            }
        }
        if forall|i: int| 0 <= i < ps.len() ==> !is_removed_by(#[trigger] ps[i]@, name, root) {
            assert forall|i: int| 0 <= i < init.len() implies !is_removed_by(#[trigger] init[i]@, name, root) by {
                assert(init[i] == ps[i]);
            }
            assert(!is_removed_by(ps[ps.len() - 1]@, name, root));
        }
    }
}

/// `remove` takes something away exactly when the name is among the managed
/// names it offers.
pub proof fn lemma_remove_iff_managed(ps: Seq<Project>, name: Seq<char>, root: Seq<char>)
    ensures
        (exists|i: int| 0 <= i < ps.len() && is_removed_by(#[trigger] ps[i]@, name, root))
            == spec_managed_names(projects_view(ps), root).contains(name),
    decreases ps.len(),
{
    if ps.len() > 0 {
        let init = ps.drop_last();
        lemma_remove_iff_managed(init, name, root);
        assert(projects_view(ps).drop_last() =~= projects_view(init));
        assert(projects_view(ps).last() == ps.last()@);
        let mn = spec_managed_names(projects_view(ps), root);
        let pm = spec_managed_names(projects_view(init), root);
        if exists|i: int| 0 <= i < ps.len() && is_removed_by(#[trigger] ps[i]@, name, root) {
            let i = choose|i: int| 0 <= i < ps.len() && is_removed_by(#[trigger] ps[i]@, name, root);
            if i < init.len() {
                assert(init[i] == ps[i]);
                let k = choose|k: int| 0 <= k < pm.len() && pm[k] == name;
                assert(mn[k] == pm[k]);
            } else {
                assert(mn[mn.len() - 1] == name);
            }
        }
        if mn.contains(name) {
            let k = choose|k: int| 0 <= k < mn.len() && mn[k] == name;
            if k < pm.len() {
                assert(mn[k] == pm[k]);
                let i = choose|i: int| 0 <= i < init.len() && is_removed_by(#[trigger] init[i]@, name, root);
                assert(init[i] == ps[i]);
            } else {
                assert(is_removed_by(ps[ps.len() - 1]@, name, root));
            }
        }
    }
}

/// Removes from `projects` every project under `root` named `name`, keeping
/// the others in order. Returns whether any was removed.
pub fn remove_from(projects: &mut Vec<Project>, name: &str, root: &str) -> (removed: bool)
    ensures
        final(projects)@ == spec_retained(old(projects)@, name@, root@),
        removed == (final(projects)@.len() != old(projects)@.len()),
        removed == exists|i: int|
            0 <= i < old(projects)@.len() && is_removed_by(#[trigger] old(projects)@[i]@, name@, root@),
{
    let ghost ps = projects@;
    let mut kept: Vec<Project> = Vec::new();
    let n = projects.len();
    let mut k: usize = 0;
    while k < n
        invariant
            n == ps.len(),
            k <= n,
            projects@ == ps.skip(k as int),
            kept@ == spec_retained(ps.take(k as int), name@, root@),
            kept@.len() <= k,
        decreases n - k,
    {
        proof {
            assert(ps.take(k + 1).drop_last() =~= ps.take(k as int));
            assert(ps.take(k + 1).last() == ps[k as int]);
        }
        let p = projects.remove(0);
        proof {
            assert(projects@ =~= ps.skip(k + 1));
        }
        let drop = starts_with(p.root_path.as_str(), root) && crate::paths::str_eq(p.name.as_str(), name);
        if !drop {
            kept.push(p);
        }
        k = k + 1;
    }
    proof {
        assert(ps.take(n as int) =~= ps);
    }
    *projects = kept;
    proof {
        lemma_retained(ps, name@, root@);
    }
    projects.len() != n
}

/// Where VSCode Project Manager keeps its list under `home`.
pub fn projects_json_path_in(home: &str) -> (r: String)
    ensures
        r@ == spec_join(
            home@,
            "Library/Application Support/Code/User/globalStorage/alefragnani.project-manager/projects.json"@,
        ),
{
    join(
        home,
        "Library/Application Support/Code/User/globalStorage/alefragnani.project-manager/projects.json",
    )
}

/// Where VSCode Project Manager keeps its list, or nothing when the home
/// directory is unknown.
pub fn projects_json_path() -> (r: Option<String>)
    ensures
        r matches Some(p) ==> exists|h: Seq<char>|
            h.len() > 0 && p@ == spec_join(
                h,
                "Library/Application Support/Code/User/globalStorage/alefragnani.project-manager/projects.json"@,
            ),
{
    match home_dir() {
        Some(h) => Some(projects_json_path_in(h.as_str())),
        None => None,
    }
}

} // verus!
