//! Scanning: which directories the walk descends into, and how a scan's
//! findings are merged into the project list.
use vstd::prelude::*;
use crate::config::{is_renaming, spec_floor_of, Config, ConfigView};
use crate::paths::{contains_str, first_below, spec_first_below, spec_starts_with, starts_with, str_eq};
use crate::projects::{projects_view, spec_is_listed, spec_new_project, Project, ProjectView};
use crate::tags::{
    compute_tags, lemma_skip_map_lookup, lemma_skip_map_permutation, path_skip_map, skip_for,
    spec_compute_tags, spec_lookup, spec_path_skip_map, spec_skip_or_default,
};

verus! {

/// Directories never descended into: dependencies and build artifacts.
pub open spec fn is_pruned_name(name: Seq<char>) -> bool {
    ||| name == "node_modules"@
    ||| name == "vendor"@
    ||| name == "build"@
    ||| name == "dist"@
    ||| name == "out"@
    ||| name == "debug"@
    ||| name == "release"@
    ||| name == "target"@
    ||| name == "coverage"@
}

/// A hidden directory other than `.git`.
pub open spec fn is_hidden_name(name: Seq<char>) -> bool {
    name.len() > 0 && name[0] == '.' && name != ".git"@
}

/// The walk visits the root itself (depth 0) and every directory below it
/// that is neither hidden (except `.git`) nor a dependency or build directory.
pub open spec fn spec_should_visit_dir(name: Seq<char>, depth: int) -> bool {
    depth == 0 || !(is_hidden_name(name) || is_pruned_name(name))
}

fn is_prune_dir(name: &str) -> (r: bool)
    ensures
        r == is_pruned_name(name@),
{
    str_eq(name, "node_modules") || str_eq(name, "vendor") || str_eq(name, "build") || str_eq(
        name,
        "dist",
    ) || str_eq(name, "out") || str_eq(name, "debug") || str_eq(name, "release") || str_eq(
        name,
        "target",
    ) || str_eq(name, "coverage")
}

/// Whether the scan descends into the directory `name` found at `depth`
/// (see [`spec_should_visit_dir`]).
pub fn should_visit_dir(name: &str, depth: usize) -> (r: bool)
    ensures
        r == spec_should_visit_dir(name@, depth as int),
{
    if depth == 0 {
        return true;
    }
    if name.unicode_len() > 0 && name.get_char(0) == '.' && !str_eq(name, ".git") {
        return false;
    }
    if is_prune_dir(name) {
        return false;
    }
    true
}

/// The walk prunes exactly the hidden directories other than `.git` and the
/// directories named, as a whole, like a dependency or build directory; it
/// descends into every other directory, and always into the root.
pub proof fn lemma_only_listed_names_pruned(name: Seq<char>, depth: int)
    ensures
        depth == 0 ==> spec_should_visit_dir(name, depth),
        depth != 0 ==> (spec_should_visit_dir(name, depth) <==> {
            &&& !(name.len() > 0 && name[0] == '.' && name != ".git"@)
            &&& name != "node_modules"@
            &&& name != "vendor"@
            &&& name != "build"@
            &&& name != "dist"@
            &&& name != "out"@
            &&& name != "debug"@
            &&& name != "release"@
            &&& name != "target"@
            &&& name != "coverage"@
        }),
{
}

/// The floor configured for the host of `p` below `root` (0 when none).
pub open spec fn spec_floor(p: Seq<char>, root: Seq<char>, floors: Map<Seq<char>, usize>) -> int {
    spec_floor_of(floors, spec_first_below(p, root))
}

/// The larger of the noise depth `trie_skip` and the floor for `p`'s host.
pub open spec fn spec_effective_skip(p: Seq<char>, root: Seq<char>, trie_skip: int, floors: Map<Seq<char>, usize>) -> int {
    let floor = spec_floor(p, root, floors);
    if trie_skip >= floor {
        trie_skip
    } else {
        floor
    }
}

/// A host floor only raises the skip: the effective skip is the noise depth
/// or the floor configured for the path's host, whichever is larger.
pub proof fn lemma_floor_only_raises(p: Seq<char>, root: Seq<char>, trie_skip: int, floors: Map<Seq<char>, usize>)
    ensures
        ({
            let host = spec_first_below(p, root);
            let floor = if floors.contains_key(host) { floors[host] as int } else { 0 };
            &&& spec_effective_skip(p, root, trie_skip, floors) >= trie_skip
            &&& spec_effective_skip(p, root, trie_skip, floors) >= floor
            &&& (spec_effective_skip(p, root, trie_skip, floors) == trie_skip
                || spec_effective_skip(p, root, trie_skip, floors) == floor)
        }),
{
}

/// The skip depth for `abs_path`: the larger of the noise depth from the
/// prefix tree and the floor configured for its host (the first component
/// below `root`).
pub fn effective_skip(abs_path: &str, root: &str, trie_skip: usize, cfg: &Config) -> (r: usize)
    ensures
        r as int == spec_effective_skip(abs_path@, root@, trie_skip as int, cfg@.host_skip),
{
    let host = first_below(abs_path, root);
    let floor = cfg.floor_for(host.as_str());
    if trie_skip >= floor {
        trie_skip
    } else {
        floor
    }
}

// ── Merging a scan into the project list ──────────────────────────────────────

/// The projects outside `root`, in order: a scan leaves them as they are.
pub open spec fn spec_outside(ps: Seq<ProjectView>, root: Seq<char>) -> Seq<ProjectView>
    decreases ps.len(),
{
    if ps.len() == 0 {
        seq![]
    } else {
        let prev = spec_outside(ps.drop_last(), root);
        if spec_starts_with(ps.last().root_path, root) {
            prev
        } else {
            prev.push(ps.last())
        }
    }
}

/// The projects under `root` whose directory still exists (`alive` says so,
/// project by project), in order.
pub open spec fn spec_alive_inside(ps: Seq<ProjectView>, alive: Seq<bool>, root: Seq<char>) -> Seq<ProjectView>
    decreases ps.len(),
{
    if ps.len() == 0 {
        seq![]
    } else {
        let prev = spec_alive_inside(ps.drop_last(), alive.drop_last(), root);
        if spec_starts_with(ps.last().root_path, root) && alive.last() {
            prev.push(ps.last())
        } else {
            prev
        }
    }
}

/// The root paths of `ps`.
pub open spec fn spec_roots(ps: Seq<ProjectView>) -> Seq<Seq<char>> {
    ps.map_values(|p: ProjectView| p.root_path)
}

/// `known`, followed by each path of `found` that is not already among them.
pub open spec fn spec_pool(known: Seq<Seq<char>>, found: Seq<Seq<char>>) -> Seq<Seq<char>>
    decreases found.len(),
{
    if found.len() == 0 {
        known
    } else {
        let v = spec_pool(known, found.drop_last());
        if v.contains(found.last()) {
            v
        } else {
            v.push(found.last())
        }
    }
}

/// The skip depth a scan uses for `p`: its noise depth among `pool`, raised to
/// the floor for its host.
pub open spec fn spec_scan_skip(pool: Seq<Seq<char>>, root: Seq<char>, floors: Map<Seq<char>, usize>, p: Seq<char>) -> int {
    spec_effective_skip(p, root, spec_skip_or_default(pool, root, p), floors)
}

/// `after` is the listed project `q` after a scan: the same project with its
/// tags derived again with the skip depth `skip`, then renamed.
pub open spec fn is_retagged(
    after: ProjectView,
    q: ProjectView,
    root: Seq<char>,
    skip: int,
    renames: Map<Seq<char>, Seq<Seq<char>>>,
) -> bool {
    &&& after == ProjectView { tags: after.tags, ..q }
    &&& is_renaming(renames, spec_compute_tags(q.root_path, root, skip), after.tags)
}

/// `after` is the new project a scan makes for the found repository at `p`:
/// tags derived with the skip depth `skip`, then renamed.
pub open spec fn is_found_project(
    after: ProjectView,
    p: Seq<char>,
    root: Seq<char>,
    skip: int,
    renames: Map<Seq<char>, Seq<Seq<char>>>,
) -> bool {
    &&& after == spec_new_project(p, after.tags)
    &&& is_renaming(renames, spec_compute_tags(p, root, skip), after.tags)
}

/// The paths of the found repositories that lie under `root`, exist and are
/// not listed, in the order found.
pub open spec fn spec_new_paths(
    found: Seq<Seq<char>>,
    found_alive: Seq<bool>,
    known: Seq<Seq<char>>,
    root: Seq<char>,
) -> Seq<Seq<char>>
    decreases found.len(),
{
    if found.len() == 0 {
        seq![]
    } else {
        let prev = spec_new_paths(found.drop_last(), found_alive.drop_last(), known, root);
        if !known.contains(found.last()) && found_alive.last() && spec_starts_with(found.last(), root) {
            prev.push(found.last())
        } else {
            prev
        }
    }
}

/// `mid` is `inside`, each project retagged.
pub open spec fn is_retagged_all(
    mid: Seq<ProjectView>,
    inside: Seq<ProjectView>,
    root: Seq<char>,
    pool: Seq<Seq<char>>,
    cfg: ConfigView,
) -> bool {
    &&& mid.len() == inside.len()
    &&& forall|k: int|
        0 <= k < inside.len() ==> is_retagged(
            #[trigger] mid[k],
            inside[k],
            root,
            spec_scan_skip(pool, root, cfg.host_skip, inside[k].root_path),
            cfg.tag_rename,
        )
}

/// `tail` holds a new project for each path of `fresh`.
pub open spec fn is_found_all(
    tail: Seq<ProjectView>,
    fresh: Seq<Seq<char>>,
    root: Seq<char>,
    pool: Seq<Seq<char>>,
    cfg: ConfigView,
) -> bool {
    &&& tail.len() == fresh.len()
    &&& forall|k: int|
        0 <= k < fresh.len() ==> is_found_project(
            #[trigger] tail[k],
            fresh[k],
            root,
            spec_scan_skip(pool, root, cfg.host_skip, fresh[k]),
            cfg.tag_rename,
        )
}

/// `merged` is the project list after a scan: the projects outside `root`
/// unchanged; then those under `root` that still exist, retagged; then a new
/// project for each found repository under `root` that exists and was not
/// listed. Tags are derived with noise depths computed over the listed and
/// found paths together, then renamed.
pub open spec fn is_reconciled(
    merged: Seq<ProjectView>,
    ps: Seq<ProjectView>,
    alive: Seq<bool>,
    found: Seq<Seq<char>>,
    found_alive: Seq<bool>,
    root: Seq<char>,
    cfg: ConfigView,
) -> bool {
    let inside = spec_alive_inside(ps, alive, root);
    let known = spec_roots(inside);
    let pool = spec_pool(known, found);
    let out = spec_outside(ps, root);
    let fresh = spec_new_paths(found, found_alive, known, root);
    let n_out = out.len() as int;
    let n_mid = n_out + inside.len();
    &&& merged.len() == n_mid + fresh.len()
    &&& merged.subrange(0, n_out) == out
    &&& is_retagged_all(merged.subrange(n_out, n_mid), inside, root, pool, cfg)
    &&& is_found_all(merged.subrange(n_mid, merged.len() as int), fresh, root, pool, cfg)
}

/// The pool holds each path once: with no path listed twice among `known`,
/// the pool has no duplicates, and it holds exactly the known and the found
/// paths.
pub proof fn lemma_pool_no_duplicates(known: Seq<Seq<char>>, found: Seq<Seq<char>>)
    requires
        known.no_duplicates(),
    ensures
        spec_pool(known, found).no_duplicates(),
        forall|x: Seq<char>|
            #[trigger] spec_pool(known, found).contains(x) <==> known.contains(x) || found.contains(x),
    decreases found.len(),
{
    if found.len() > 0 {
        let init = found.drop_last();
        lemma_pool_no_duplicates(known, init);
        let v = spec_pool(known, init);
        let w = spec_pool(known, found);
        if !v.contains(found.last()) {
            assert(w == v.push(found.last()));
            assert forall|i: int, j: int| 0 <= i < w.len() && 0 <= j < w.len() && i != j implies w[i] != w[j] by {
                if i < v.len() && j < v.len() {
                    assert(w[i] == v[i] && w[j] == v[j]);
                } else if i < v.len() {
                    assert(w[i] == v[i]);
                } else {
                    assert(w[j] == v[j]);
                }
            }
        }
        assert forall|x: Seq<char>| #[trigger] w.contains(x) <==> known.contains(x) || found.contains(x) by {
            if w.contains(x) && !v.contains(x) {
                assert(x == found.last());
                assert(found[found.len() - 1] == x);
            }
            if v.contains(x) && !v.contains(found.last()) {
                let i = choose|i: int| 0 <= i < v.len() && v[i] == x;
                assert(w[i] == x);
            }
            if init.contains(x) {
                let i = choose|i: int| 0 <= i < init.len() && init[i] == x;
                assert(found[i] == x);
            }
            if found.contains(x) && !init.contains(x) {
                let i = choose|i: int| 0 <= i < found.len() && found[i] == x;
                if i < init.len() {
                    assert(init[i] == x);
                }
                assert(x == found.last());
                if !v.contains(x) {
                    assert(w[w.len() - 1] == x);
                }
            }
        }
    }
}

/// A rescan that finds the listed projects again computes the same noise
/// depths as a first scan of the same repositories: with no path listed
/// twice and every listed path found again, looking any path up in the skip
/// map of the pool gives what it gives for the found paths alone.
pub proof fn lemma_rescan_same_depths(known: Seq<Seq<char>>, found: Seq<Seq<char>>, root: Seq<char>)
    requires
        known.no_duplicates(),
        forall|x: Seq<char>| #[trigger] known.contains(x) ==> found.contains(x),
    ensures
        forall|p: Seq<char>|
            #[trigger] spec_lookup(spec_path_skip_map(spec_pool(known, found), root), p) == spec_lookup(
                spec_path_skip_map(spec_pool(seq![], found), root),
                p,
            ),
{
    broadcast use vstd::seq_lib::group_to_multiset_ensures;

    let a = spec_pool(known, found);
    let b = spec_pool(seq![], found);
    let none: Seq<Seq<char>> = seq![];
    lemma_pool_no_duplicates(known, found);
    lemma_pool_no_duplicates(none, found);
    a.lemma_multiset_has_no_duplicates();
    b.lemma_multiset_has_no_duplicates();
    assert forall|x: Seq<char>| a.to_multiset().count(x) == b.to_multiset().count(x) by {
        assert(a.contains(x) <==> b.contains(x));
        if a.contains(x) {
            assert(a.to_multiset().contains(x));
            assert(b.to_multiset().contains(x));
        }
    }
    assert(a.to_multiset() =~= b.to_multiset());
    lemma_skip_map_permutation(b, a, root);
}

/// Every known path and every found path is in the pool.
pub proof fn lemma_pool_contains(known: Seq<Seq<char>>, found: Seq<Seq<char>>)
    ensures
        forall|i: int| 0 <= i < known.len() ==> spec_pool(known, found).contains(#[trigger] known[i]),
        forall|i: int| 0 <= i < found.len() ==> spec_pool(known, found).contains(#[trigger] found[i]),
    decreases found.len(),
{
    if found.len() > 0 {
        let init = found.drop_last();
        lemma_pool_contains(known, init);
        let v = spec_pool(known, init);
        let w = spec_pool(known, found);
        assert forall|x: Seq<char>| v.contains(x) implies w.contains(x) by {
            let j = choose|j: int| 0 <= j < v.len() && v[j] == x;
            if !v.contains(found.last()) {
                assert(w[j] == x);
            }
        }
        assert forall|i: int| 0 <= i < found.len() implies w.contains(#[trigger] found[i]) by {
            if i < init.len() {
                assert(init[i] == found[i]);
                assert(v.contains(init[i]));
            } else if !v.contains(found.last()) {
                assert(w[w.len() - 1] == found[i]);
            }
        }
        assert forall|i: int| 0 <= i < known.len() implies w.contains(#[trigger] known[i]) by {
            assert(v.contains(known[i]));
        }
    }
}

/// The skip depth a scan uses for `p`, found in the skip map of the pool.
fn scan_skip(skip_map: &Vec<(String, usize)>, p: &str, root: &str, cfg: &Config, pool: Ghost<Seq<Seq<char>>>) -> (r: usize)
    requires
        crate::tags::skip_map_view(skip_map@) == crate::tags::spec_path_skip_map(pool@, root@),
        pool@.contains(p@),
    ensures
        r as int == spec_scan_skip(pool@, root@, cfg@.host_skip, p@),
{
    let trie = match skip_for(skip_map, p) {
        Some(d) => d,
        None => 1,
    };
    proof {
        lemma_skip_map_lookup(pool@, root@, p@);
    }
    effective_skip(p, root, trie, cfg)
}

/// Merges what a scan found into the project list (see [`is_reconciled`]).
///
/// `alive[i]` tells whether the directory of `existing[i]` still exists, and
/// `found_alive[i]` whether that of `found[i]` does.
pub fn reconcile(
    existing: Vec<Project>,
    alive: &Vec<bool>,
    found: &Vec<String>,
    found_alive: &Vec<bool>,
    root: &str,
    cfg: &Config,
) -> (merged: Vec<Project>)
    requires
        alive.len() == existing.len(),
        found_alive.len() == found.len(),
    ensures
        is_reconciled(
            projects_view(merged@),
            projects_view(existing@),
            alive@,
            found.deep_view(),
            found_alive@,
            root@,
            cfg@,
        ),
{
    let ghost ps = projects_view(existing@);
    let n = existing.len();
    let mut rest = existing;
    let mut outside: Vec<Project> = Vec::new();
    let mut inside: Vec<Project> = Vec::new();
    let mut k: usize = 0;
    while k < n
        invariant
            n == ps.len(),
            alive.len() == n,
            k <= n,
            projects_view(rest@) == ps.skip(k as int),
            rest.len() == n - k,
            projects_view(outside@) == spec_outside(ps.take(k as int), root@),
            projects_view(inside@) == spec_alive_inside(ps.take(k as int), alive@.take(k as int), root@),
        decreases n - k,
    {
        proof {
            assert(ps.take(k + 1).drop_last() =~= ps.take(k as int));
            assert(alive@.take(k + 1).drop_last() =~= alive@.take(k as int));
            assert(ps.take(k + 1).last() == ps[k as int]);
            assert(alive@.take(k + 1).last() == alive@[k as int]);
        }
        let ghost rest_before = rest@;
        let p = rest.remove(0);
        proof {
            assert forall|x: int| 0 <= x < rest@.len() implies projects_view(rest@)[x] == ps.skip(k + 1)[x] by {
                assert(rest@[x] == rest_before[x + 1]);
                assert(projects_view(rest_before)[x + 1] == ps.skip(k as int)[x + 1]);
            }
            assert(projects_view(rest@) =~= ps.skip(k + 1));
            assert(p@ == ps[k as int]) by {
                assert(projects_view(rest_before)[0] == p@);
            }
        }
        if starts_with(p.root_path.as_str(), root) {
            if alive[k] {
                let ghost before = projects_view(inside@);
                inside.push(p);
                assert(projects_view(inside@) =~= before.push(ps[k as int]));
            }
        } else {
            let ghost before = projects_view(outside@);
            outside.push(p);
            assert(projects_view(outside@) =~= before.push(ps[k as int]));
        }
        k = k + 1;
    }
    proof {
        assert(ps.take(n as int) =~= ps);
        assert(alive@.take(n as int) =~= alive@);
    }
    let ghost inside_v = projects_view(inside@);
    let ghost known = spec_roots(inside_v);
    // The roots of the surviving projects, then the pool with the found paths.
    let mut roots: Vec<String> = Vec::new();
    let mut pool: Vec<String> = Vec::new();
    let mut j: usize = 0;
    while j < inside.len()
        invariant
            inside_v == projects_view(inside@),
            known == spec_roots(inside_v),
            j <= inside.len(),
            roots.deep_view() == known.take(j as int),
            pool.deep_view() == known.take(j as int),
        decreases inside.len() - j,
    {
        let ghost rb = roots.deep_view();
        let ghost pb = pool.deep_view();
        roots.push(inside[j].root_path.clone());
        pool.push(inside[j].root_path.clone());
        proof {
            assert(known.take(j + 1) =~= known.take(j as int).push(inside[j as int].root_path@));
            assert(roots.deep_view() =~= rb.push(inside[j as int].root_path@));
            assert(pool.deep_view() =~= pb.push(inside[j as int].root_path@));
        }
        j = j + 1;
    }
    proof {
        assert(known.take(inside.len() as int) =~= known);
    }
    let ghost fd = found.deep_view();
    let mut i: usize = 0;
    while i < found.len()
        invariant
            fd == found.deep_view(),
            i <= found.len(),
            roots.deep_view() == known,
            pool.deep_view() == spec_pool(known, fd.take(i as int)),
        decreases found.len() - i,
    {
        proof {
            assert(fd.take(i + 1).drop_last() =~= fd.take(i as int));
            assert(fd.take(i + 1).last() == found[i as int]@);
        }
        if !contains_str(&pool, &found[i]) {
            let ghost pb = pool.deep_view();
            pool.push(found[i].clone());
            assert(pool.deep_view() =~= pb.push(found[i as int]@));
        }
        i = i + 1;
    }
    proof {
        assert(fd.take(found.len() as int) =~= fd);
        lemma_pool_contains(known, fd);
    }
    let ghost pool_v = pool.deep_view();
    let skip_map = path_skip_map(&pool, root);
    // The surviving projects, retagged.
    let mut retagged: Vec<Project> = Vec::new();
    let m = inside.len();
    let mut j: usize = 0;
    while j < m
        invariant
            m == inside_v.len(),
            j <= m,
            projects_view(inside@) == inside_v.skip(j as int),
            inside.len() == m - j,
            is_retagged_all(projects_view(retagged@), inside_v.take(j as int), root@, pool_v, cfg@),
            known == spec_roots(inside_v),
            pool_v == spec_pool(known, fd),
            forall|x: int| 0 <= x < known.len() ==> pool_v.contains(#[trigger] known[x]),
            crate::tags::skip_map_view(skip_map@) == crate::tags::spec_path_skip_map(pool_v, root@),
        decreases m - j,
    {
        let ghost before_in = inside@;
        let mut q = inside.remove(0);
        proof {
            assert forall|x: int| 0 <= x < inside@.len() implies projects_view(inside@)[x] == inside_v.skip(j + 1)[x] by {
                assert(inside@[x] == before_in[x + 1]);
                assert(projects_view(before_in)[x + 1] == inside_v.skip(j as int)[x + 1]);
            }
            assert(projects_view(inside@) =~= inside_v.skip(j + 1));
            assert(q@ == inside_v[j as int]) by {
                assert(projects_view(before_in)[0] == q@);
            }
            assert(known[j as int] == q@.root_path);
        }
        let skip = scan_skip(&skip_map, q.root_path.as_str(), root, cfg, Ghost(pool_v));
        q.retag(root, skip);
        let Project { name, root_path, paths, tags, enabled, profile } = q;
        let tags = cfg.rename_tags(tags);
        let q = Project { name, root_path, paths, tags, enabled, profile };
        proof {
            assert(is_retagged(q@, inside_v[j as int], root@, skip as int, cfg@.tag_rename));
        }
        let ghost rb = projects_view(retagged@);
        retagged.push(q);
        proof {
            let rv = projects_view(retagged@);
            let tk = inside_v.take(j + 1);
            assert(rv =~= rb.push(q@));
            assert forall|k: int| 0 <= k < tk.len() implies is_retagged(
                #[trigger] rv[k],
                tk[k],
                root@,
                spec_scan_skip(pool_v, root@, cfg@.host_skip, tk[k].root_path),
                cfg@.tag_rename,
            ) by {
                if k < j {
                    assert(rv[k] == rb[k]);
                    assert(tk[k] == inside_v.take(j as int)[k]);
                }
            }
        }
        j = j + 1;
    }
    proof {
        assert(inside_v.take(m as int) =~= inside_v);
    }
    // New projects for the found repositories that exist and are not listed.
    let mut added: Vec<Project> = Vec::new();
    let mut i: usize = 0;
    while i < found.len()
        invariant
            fd == found.deep_view(),
            found_alive.len() == found.len(),
            i <= found.len(),
            roots.deep_view() == known,
            pool_v == spec_pool(known, fd),
            forall|x: int| 0 <= x < fd.len() ==> pool_v.contains(#[trigger] fd[x]),
            crate::tags::skip_map_view(skip_map@) == crate::tags::spec_path_skip_map(pool_v, root@),
            is_found_all(
                projects_view(added@),
                spec_new_paths(fd.take(i as int), found_alive@.take(i as int), known, root@),
                root@,
                pool_v,
                cfg@,
            ),
        decreases found.len() - i,
    {
        proof {
            assert(fd.take(i + 1).drop_last() =~= fd.take(i as int));
            assert(found_alive@.take(i + 1).drop_last() =~= found_alive@.take(i as int));
            assert(fd.take(i + 1).last() == found[i as int]@);
            assert(found_alive@.take(i + 1).last() == found_alive@[i as int]);
        }
        let ghost fresh_before = spec_new_paths(fd.take(i as int), found_alive@.take(i as int), known, root@);
        if !contains_str(&roots, &found[i]) && found_alive[i] && starts_with(found[i].as_str(), root) {
            proof {
                assert(fd[i as int] == found[i as int]@);
            }
            let skip = scan_skip(&skip_map, found[i].as_str(), root, cfg, Ghost(pool_v));
            let tags = cfg.rename_tags(compute_tags(found[i].as_str(), root, skip));
            let p = Project::new(found[i].clone(), tags);
            let ghost ab = projects_view(added@);
            added.push(p);
            proof {
                let av = projects_view(added@);
                let fresh = fresh_before.push(found[i as int]@);
                assert(av =~= ab.push(p@));
                assert forall|k: int| 0 <= k < fresh.len() implies is_found_project(
                    #[trigger] av[k],
                    fresh[k],
                    root@,
                    spec_scan_skip(pool_v, root@, cfg@.host_skip, fresh[k]),
                    cfg@.tag_rename,
                ) by {
                    if k < fresh_before.len() {
                        assert(av[k] == ab[k]);
                    }
                }
            }
        }
        i = i + 1;
    }
    proof {
        assert(fd.take(found.len() as int) =~= fd);
        assert(found_alive@.take(found.len() as int) =~= found_alive@);
    }
    let ghost ov = projects_view(outside@);
    let ghost rv = projects_view(retagged@);
    let ghost av = projects_view(added@);
    let mut merged = outside;
    merged.append(&mut retagged);
    merged.append(&mut added);
    proof {
        let mv = projects_view(merged@);
        assert(mv =~= ov + rv + av);
        assert(mv.subrange(0, ov.len() as int) =~= ov);
        let n_out = ov.len() as int;
        let n_mid = n_out + rv.len();
        assert(mv.subrange(n_out, n_mid) =~= rv);
        assert(mv.subrange(n_mid, mv.len() as int) =~= av);
    }
    merged
}

// ── What a scan keeps, drops and adds ─────────────────────────────────────────

proof fn lemma_outside(ps: Seq<ProjectView>, root: Seq<char>)
    ensures
        forall|k: int|
            0 <= k < spec_outside(ps, root).len() ==> !spec_starts_with(
                (#[trigger] spec_outside(ps, root)[k]).root_path,
                root,
            ),
        forall|j: int|
            0 <= j < ps.len() && !spec_starts_with((#[trigger] ps[j]).root_path, root)
                ==> spec_outside(ps, root).contains(ps[j]),
    decreases ps.len(),
{
    if ps.len() > 0 {
        let init = ps.drop_last();
        lemma_outside(init, root);
        let o = spec_outside(ps, root);
        let po = spec_outside(init, root);
        assert forall|k: int| 0 <= k < o.len() implies !spec_starts_with((#[trigger] o[k]).root_path, root) by {
            if k < po.len() {
                assert(o[k] == po[k]);
            }
        }
        assert forall|j: int|
            0 <= j < ps.len() && !spec_starts_with((#[trigger] ps[j]).root_path, root) implies o.contains(ps[j]) by {
            if j < init.len() {
                assert(init[j] == ps[j]);
                let k = choose|k: int| 0 <= k < po.len() && po[k] == init[j];
                assert(o[k] == po[k]);
            } else {
                assert(o[o.len() - 1] == ps[j]);
            }
        }
    }
}

proof fn lemma_alive_inside(ps: Seq<ProjectView>, alive: Seq<bool>, root: Seq<char>)
    requires
        alive.len() == ps.len(),
    ensures
        forall|k: int|
            0 <= k < spec_alive_inside(ps, alive, root).len() ==> exists|j: int|
                0 <= j < ps.len() && ps[j] == #[trigger] spec_alive_inside(ps, alive, root)[k] && alive[j],
        forall|j: int|
            0 <= j < ps.len() && spec_starts_with((#[trigger] ps[j]).root_path, root) && alive[j]
                ==> spec_alive_inside(ps, alive, root).contains(ps[j]),
        forall|k: int|
            0 <= k < spec_alive_inside(ps, alive, root).len() ==> spec_starts_with(
                (#[trigger] spec_alive_inside(ps, alive, root)[k]).root_path,
                root,
            ),
    decreases ps.len(),
{
    if ps.len() > 0 {
        let init = ps.drop_last();
        let ai = alive.drop_last();
        lemma_alive_inside(init, ai, root);
        let a = spec_alive_inside(ps, alive, root);
        let pa = spec_alive_inside(init, ai, root);
        assert forall|k: int| 0 <= k < a.len() implies exists|j: int|
            0 <= j < ps.len() && ps[j] == #[trigger] a[k] && alive[j] by {
            if k < pa.len() {
                assert(a[k] == pa[k]);
                let j = choose|j: int| 0 <= j < init.len() && init[j] == pa[k] && ai[j];
                assert(ps[j] == init[j] && alive[j] == ai[j]);
            } else {
                assert(ps[ps.len() - 1] == a[k] && alive[ps.len() - 1]);
            }
        }
        assert forall|k: int| 0 <= k < a.len() implies spec_starts_with((#[trigger] a[k]).root_path, root) by {
            if k < pa.len() {
                assert(a[k] == pa[k]);
            }
        }
        assert forall|j: int|
            0 <= j < ps.len() && spec_starts_with((#[trigger] ps[j]).root_path, root) && alive[j]
                implies a.contains(ps[j]) by {
            if j < init.len() {
                assert(init[j] == ps[j] && ai[j] == alive[j]);
                let k = choose|k: int| 0 <= k < pa.len() && pa[k] == init[j];
                assert(a[k] == pa[k]);
            } else {
                assert(a[a.len() - 1] == ps[j]);
            }
        }
    }
}

proof fn lemma_new_paths(found: Seq<Seq<char>>, found_alive: Seq<bool>, known: Seq<Seq<char>>, root: Seq<char>)
    requires
        found_alive.len() == found.len(),
    ensures
        forall|k: int|
            0 <= k < spec_new_paths(found, found_alive, known, root).len() ==> exists|i: int|
                0 <= i < found.len() && found[i] == #[trigger] spec_new_paths(found, found_alive, known, root)[k]
                    && found_alive[i] && spec_starts_with(found[i], root),
        forall|i: int|
            0 <= i < found.len() && !known.contains(#[trigger] found[i]) && found_alive[i] && spec_starts_with(
                found[i],
                root,
            ) ==> spec_new_paths(found, found_alive, known, root).contains(found[i]),
    decreases found.len(),
{
    if found.len() > 0 {
        let fi = found.drop_last();
        let ai = found_alive.drop_last();
        lemma_new_paths(fi, ai, known, root);
        let np = spec_new_paths(found, found_alive, known, root);
        let pn = spec_new_paths(fi, ai, known, root);
        assert forall|k: int| 0 <= k < np.len() implies exists|i: int|
            0 <= i < found.len() && found[i] == #[trigger] np[k] && found_alive[i] && spec_starts_with(found[i], root) by {
            if k < pn.len() {
                assert(np[k] == pn[k]);
                let i = choose|i: int|
                    0 <= i < fi.len() && fi[i] == pn[k] && ai[i] && spec_starts_with(fi[i], root);
                assert(found[i] == fi[i] && found_alive[i] == ai[i]);
            } else {
                assert(found[found.len() - 1] == np[k] && found_alive[found.len() - 1]);
            }
        }
        assert forall|i: int|
            0 <= i < found.len() && !known.contains(#[trigger] found[i]) && found_alive[i] && spec_starts_with(
                found[i],
                root,
            ) implies np.contains(found[i]) by {
            if i < fi.len() {
                assert(fi[i] == found[i] && ai[i] == found_alive[i]);
                let k = choose|k: int| 0 <= k < pn.len() && pn[k] == fi[i];
                assert(np[k] == pn[k]);
            } else {
                assert(np[np.len() - 1] == found[i]);
            }
        }
    }
}

/// What a scan keeps, drops and adds:
/// - the projects outside the root come first, unchanged and in their order;
/// - every later project lies under the root;
/// - every found repository under the root whose directory exists is listed
///   afterwards;
/// - every project listed under the root afterwards is either a listed project
///   whose directory exists or a found repository whose directory exists.
pub proof fn lemma_reconcile(
    merged: Seq<ProjectView>,
    ps: Seq<ProjectView>,
    alive: Seq<bool>,
    found: Seq<Seq<char>>,
    found_alive: Seq<bool>,
    root: Seq<char>,
    cfg: ConfigView,
)
    requires
        alive.len() == ps.len(),
        found_alive.len() == found.len(),
        is_reconciled(merged, ps, alive, found, found_alive, root, cfg),
    ensures
        merged.subrange(0, spec_outside(ps, root).len() as int) == spec_outside(ps, root),
        forall|j: int|
            0 <= j < ps.len() && !spec_starts_with((#[trigger] ps[j]).root_path, root) ==> merged.contains(ps[j]),
        forall|k: int|
            spec_outside(ps, root).len() <= k < merged.len() ==> spec_starts_with(
                (#[trigger] merged[k]).root_path,
                root,
            ),
        forall|i: int|
            0 <= i < found.len() && found_alive[i] && spec_starts_with(found[i], root) ==> spec_is_listed(
                merged,
                #[trigger] found[i],
            ),
        forall|k: int|
            0 <= k < merged.len() && spec_starts_with((#[trigger] merged[k]).root_path, root) ==> (exists|j: int|
                0 <= j < ps.len() && ps[j].root_path == merged[k].root_path && alive[j]) || (exists|i: int|
                0 <= i < found.len() && found[i] == merged[k].root_path && found_alive[i]),
{
    let inside = spec_alive_inside(ps, alive, root);
    let known = spec_roots(inside);
    let pool = spec_pool(known, found);
    let out = spec_outside(ps, root);
    let fresh = spec_new_paths(found, found_alive, known, root);
    let n_out = out.len() as int;
    let n_mid = n_out + inside.len();
    let mid = merged.subrange(n_out, n_mid);
    let tail = merged.subrange(n_mid, merged.len() as int);
    lemma_outside(ps, root);
    lemma_alive_inside(ps, alive, root);
    lemma_new_paths(found, found_alive, known, root);
    assert forall|j: int|
        0 <= j < ps.len() && !spec_starts_with((#[trigger] ps[j]).root_path, root) implies merged.contains(ps[j]) by {
        let k = choose|k: int| 0 <= k < out.len() && out[k] == ps[j];
        assert(merged.subrange(0, n_out)[k] == merged[k]);
    }
    assert forall|k: int| n_out <= k < merged.len() implies spec_starts_with((#[trigger] merged[k]).root_path, root) by {
        if k < n_mid {
            let m = k - n_out;
            assert(mid[m] == merged[k]);
            assert(is_retagged(mid[m], inside[m], root, spec_scan_skip(pool, root, cfg.host_skip, inside[m].root_path), cfg.tag_rename));
            assert(spec_starts_with(inside[m].root_path, root));
        } else {
            let m = k - n_mid;
            assert(tail[m] == merged[k]);
            assert(is_found_project(tail[m], fresh[m], root, spec_scan_skip(pool, root, cfg.host_skip, fresh[m]), cfg.tag_rename));
            let i = choose|i: int|
                0 <= i < found.len() && found[i] == #[trigger] fresh[m] && found_alive[i] && spec_starts_with(found[i], root);
        }
    }
    assert forall|i: int| 0 <= i < found.len() && found_alive[i] && spec_starts_with(found[i], root) implies spec_is_listed(
        merged,
        #[trigger] found[i],
    ) by {
        if known.contains(found[i]) {
            let k = choose|k: int| 0 <= k < known.len() && known[k] == found[i];
            assert(is_retagged(mid[k], inside[k], root, spec_scan_skip(pool, root, cfg.host_skip, inside[k].root_path), cfg.tag_rename));
            assert(mid[k] == merged[n_out + k]);
        } else {
            let k = choose|k: int| 0 <= k < fresh.len() && fresh[k] == found[i];
            assert(is_found_project(tail[k], fresh[k], root, spec_scan_skip(pool, root, cfg.host_skip, fresh[k]), cfg.tag_rename));
            assert(tail[k] == merged[n_mid + k]);
        }
    }
    assert forall|k: int|
        0 <= k < merged.len() && spec_starts_with((#[trigger] merged[k]).root_path, root) implies (exists|j: int|
            0 <= j < ps.len() && ps[j].root_path == merged[k].root_path && alive[j]) || (exists|i: int|
            0 <= i < found.len() && found[i] == merged[k].root_path && found_alive[i]) by {
        if k < n_out {
            assert(merged.subrange(0, n_out)[k] == merged[k]);
        } else if k < n_mid {
            let m = k - n_out;
            assert(mid[m] == merged[k]);
            assert(is_retagged(mid[m], inside[m], root, spec_scan_skip(pool, root, cfg.host_skip, inside[m].root_path), cfg.tag_rename));
            let j = choose|j: int| 0 <= j < ps.len() && ps[j] == #[trigger] inside[m] && alive[j];
        } else {
            let m = k - n_mid;
            assert(tail[m] == merged[k]);
            assert(is_found_project(tail[m], fresh[m], root, spec_scan_skip(pool, root, cfg.host_skip, fresh[m]), cfg.tag_rename));
            let i = choose|i: int|
                0 <= i < found.len() && found[i] == #[trigger] fresh[m] && found_alive[i] && spec_starts_with(found[i], root);
        }
    }
}

} // verus!
