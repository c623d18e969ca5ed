//! Tag derivation: which path segments below the root become a project's tags,
//! and how many leading segments of each path are organisational noise.
use vstd::prelude::*;
use crate::paths::{relative_components, same_prefix, spec_relative};

verus! {

/// The tags of a project whose components below the root are `comps`, with
/// `skip` leading components treated as noise: the components between the
/// skipped prefix and the project name; the host (first component) when the
/// prefix consumes them all; nothing for a direct child of the root.
pub open spec fn spec_tags_of(comps: Seq<Seq<char>>, skip: int) -> Seq<Seq<char>> {
    if comps.len() == 0 {
        seq![]
    } else {
        let end = comps.len() - 1;
        let start = if skip < end { skip } else { end };
        if start < end {
            comps.subrange(start, end)
        } else if comps.len() >= 2 {
            seq![comps[0]]
        } else {
            seq![]
        }
    }
}

/// The tags of `root_path` under `watch_root`; none for a path outside it.
pub open spec fn spec_compute_tags(root_path: Seq<char>, watch_root: Seq<char>, skip: int) -> Seq<Seq<char>> {
    match spec_relative(root_path, watch_root) {
        Some(comps) => spec_tags_of(comps, skip),
        None => seq![],
    }
}

/// Returns the tags for `root_path` under `watch_root` (see [`spec_compute_tags`]).
///
/// `skip` is the number of leading components below `watch_root` treated as
/// organisational noise. The components between the skipped prefix and the
/// project directory become the tags; when the prefix consumes all of them the
/// host name is used; a direct child of `watch_root` gets no tag.
pub fn compute_tags(root_path: &str, watch_root: &str, skip: usize) -> (r: Vec<String>)
    ensures
        r.deep_view() == spec_compute_tags(root_path@, watch_root@, skip as int),
{
    let comps = match relative_components(root_path, watch_root) {
        Some(c) => c,
        None => {
            return Vec::new();
        },
    };
    let n = comps.len();
    if n == 0 {
        return Vec::new();
    }
    let end = n - 1;
    let start = if skip < end { skip } else { end };
    let mut r: Vec<String> = Vec::new();
    if start < end {
        let mut j = start;
        while j < end
            invariant
                start <= j <= end,
                end < comps.len(),
                r.deep_view() == comps.deep_view().subrange(start as int, j as int),
            decreases end - j,
        {
            let ghost before = r.deep_view();
            r.push(comps[j].clone());
            proof {
                assert(r.deep_view() =~= before.push(comps[j as int]@));
                assert(r.deep_view() =~= comps.deep_view().subrange(start as int, j + 1));
            }
            j = j + 1;
        }
    } else if n >= 2 {
        r.push(comps[0].clone());
        assert(r.deep_view() =~= seq![comps.deep_view()[0]]);
    } else {
        assert(r.deep_view() =~= Seq::<Seq<char>>::empty());
    }
    r
}

// ── Noise depth ───────────────────────────────────────────────────────────────

/// `s` goes on below the group `pre` with at least one more directory before
/// its project name: `pre` has a sub-group on `s`'s branch.
pub open spec fn extends_past(s: Seq<Seq<char>>, pre: Seq<Seq<char>>) -> bool {
    pre.len() + 1 < s.len() && s.take(pre.len() as int) == pre
}

/// `s` is a project directly inside the group `pre`.
pub open spec fn is_direct_child(s: Seq<Seq<char>>, pre: Seq<Seq<char>>) -> bool {
    s.len() == pre.len() + 1 && s.take(pre.len() as int) == pre
}

/// Some path of `all` has a sub-group below `pre`.
pub open spec fn has_subgroup(all: Seq<Seq<Seq<char>>>, pre: Seq<Seq<char>>) -> bool {
    exists|j: int| 0 <= j < all.len() && extends_past(#[trigger] all[j], pre)
}

/// The sub-groups below `pre` all have the same name: `pre` fans out to
/// exactly one distinct next-level segment.
pub open spec fn single_subgroup(all: Seq<Seq<Seq<char>>>, pre: Seq<Seq<char>>) -> bool {
    &&& has_subgroup(all, pre)
    &&& forall|j1: int, j2: int|
        0 <= j1 < all.len() && 0 <= j2 < all.len() && extends_past(#[trigger] all[j1], pre)
            && extends_past(#[trigger] all[j2], pre) ==> all[j1][pre.len() as int]
            == all[j2][pre.len() as int]
}

/// How many paths of `all` are projects directly inside the group `pre`.
pub open spec fn direct_count(all: Seq<Seq<Seq<char>>>, pre: Seq<Seq<char>>) -> nat
    decreases all.len(),
{
    if all.len() == 0 {
        0
    } else {
        direct_count(all.drop_last(), pre) + if is_direct_child(all.last(), pre) {
            1nat
        } else {
            0nat
        }
    }
}

/// Walking `segs` from index `i` (the prefix `segs[..=i]` is the group being
/// looked at), the number of leading segments that are noise:
/// - a group with sub-groups of a single name and no projects of its own is a
///   pass-through: it is noise and the walk goes on;
/// - a group with no sub-groups holding a single project is noise too, and
///   the walk stops;
/// - any other group is meaningful, and the walk stops before it.
pub open spec fn skip_from(segs: Seq<Seq<char>>, all: Seq<Seq<Seq<char>>>, i: int) -> int
    decreases segs.len() - i,
{
    if i + 1 >= segs.len() {
        i
    } else {
        let pre = segs.take(i + 1);
        if !has_subgroup(all, pre) {
            if direct_count(all, pre) <= 1 {
                i + 1
            } else {
                i
            }
        } else if single_subgroup(all, pre) && direct_count(all, pre) == 0 {
            skip_from(segs, all, i + 1)
        } else {
            i
        }
    }
}

/// The noise depth of a path with components `segs` below the root, among the
/// paths `all`: none for a direct child of the root; otherwise the host is
/// always noise and the walk starts at the group below it.
pub open spec fn spec_trie_skip(segs: Seq<Seq<char>>, all: Seq<Seq<Seq<char>>>) -> int {
    if segs.len() < 2 {
        0
    } else {
        skip_from(segs, all, 1)
    }
}

/// What is known of the group `segs[..plen]` among `all`.
pub struct GroupShape {
    pub has_subgroup: bool,
    pub single_subgroup: bool,
    pub direct: usize,
}

/// Looks at the group made of the first `plen` segments of `segs`: whether it
/// has sub-groups, whether they all have one name, and how many projects sit
/// directly inside it.
fn group_shape(all: &Vec<Vec<String>>, segs: &Vec<String>, plen: usize) -> (r: GroupShape)
    requires
        plen <= segs.len(),
    ensures
        r.has_subgroup == has_subgroup(all.deep_view(), segs.deep_view().take(plen as int)),
        r.single_subgroup == single_subgroup(all.deep_view(), segs.deep_view().take(plen as int)),
        r.direct == direct_count(all.deep_view(), segs.deep_view().take(plen as int)),
{
    let ghost pre = segs.deep_view().take(plen as int);
    let ghost a = all.deep_view();
    let mut first: Option<usize> = None;
    let mut diverged = false;
    let mut direct: usize = 0;
    let mut k: usize = 0;
    while k < all.len()
        invariant
            plen <= segs.len(),
            pre == segs.deep_view().take(plen as int),
            a == all.deep_view(),
            k <= all.len(),
            direct == direct_count(a.take(k as int), pre),
            direct <= k,
            match first {
                None => forall|j: int| 0 <= j < k ==> !extends_past(#[trigger] a[j], pre),
                Some(f) => {
                    &&& f < k
                    &&& extends_past(a[f as int], pre)
                    &&& diverged == exists|j: int|
                        0 <= j < k && extends_past(#[trigger] a[j], pre) && a[j][plen as int]
                            != a[f as int][plen as int]
                },
            },
        decreases all.len() - k,
    {
        let s = &all[k];
        proof {
            assert(a.take(k + 1).drop_last() =~= a.take(k as int));
            assert(a[k as int] == s.deep_view());
        }
        if plen < s.len() && same_prefix(s, segs, plen) {
            proof {
                assert(segs.deep_view().take(plen as int) == pre);
                assert(s.deep_view().take(plen as int) =~= pre ==> a[k as int].take(plen as int) == pre);
            }
            if plen + 1 < s.len() {
                match first {
                    None => {
                        first = Some(k);
                        diverged = false;
                    },
                    Some(f) => {
                        if s[plen] != all[f][plen] {
                            diverged = true;
                        }
                    },
                }
            } else {
                direct = direct + 1;
            }
        }
        k = k + 1;
    }
    proof {
        assert(a.take(all.len() as int) =~= a);
    }
    let has = first.is_some();
    GroupShape { has_subgroup: has, single_subgroup: has && !diverged, direct }
}

/// The number of leading segments of `segs` that are organisational noise,
/// among the paths `all` (see [`spec_trie_skip`]).
pub fn trie_skip_depth(segs: &Vec<String>, all: &Vec<Vec<String>>) -> (r: usize)
    ensures
        r as int == spec_trie_skip(segs.deep_view(), all.deep_view()),
{
    if segs.len() < 2 {
        return 0;
    }
    let mut i: usize = 1;
    while i + 1 < segs.len()
        invariant
            1 <= i < segs.len(),
            spec_trie_skip(segs.deep_view(), all.deep_view()) == skip_from(
                segs.deep_view(),
                all.deep_view(),
                i as int,
            ),
        decreases segs.len() - i,
    {
        let shape = group_shape(all, segs, i + 1);
        if !shape.has_subgroup {
            if shape.direct <= 1 {
                return i + 1;
            } else {
                return i;
            }
        }
        if shape.single_subgroup && shape.direct == 0 {
            i = i + 1;
        } else {
            return i;
        }
    }
    i
}

/// The walk never stops before `i` nor at the project name.
proof fn lemma_skip_from_bounds(segs: Seq<Seq<char>>, all: Seq<Seq<Seq<char>>>, i: int)
    requires
        1 <= i < segs.len(),
    ensures
        i <= skip_from(segs, all, i) <= segs.len() - 1,
    decreases segs.len() - i,
{
    if i + 1 < segs.len() {
        lemma_skip_from_bounds(segs, all, i + 1);
    }
}

/// The host is always noise and the project name never is: a path nested at
/// least one level below its host has a noise depth between 1 and the number
/// of its components before the project name; a direct child of the root has
/// none.
pub proof fn lemma_trie_skip_bounds(segs: Seq<Seq<char>>, all: Seq<Seq<Seq<char>>>)
    ensures
        segs.len() < 2 ==> spec_trie_skip(segs, all) == 0,
        segs.len() >= 2 ==> 1 <= spec_trie_skip(segs, all) <= segs.len() - 1,
{
    if segs.len() >= 2 {
        lemma_skip_from_bounds(segs, all, 1);
    }
}

/// A group is meaningful, so the walk stops there at the latest, when it
/// holds a project of its own and also has a sub-group, when it holds two or
/// more projects, or when its sub-groups have different names.
pub proof fn lemma_meaningful_group_stops(segs: Seq<Seq<char>>, all: Seq<Seq<Seq<char>>>, i: int)
    requires
        1 <= i < segs.len() - 1,
        (has_subgroup(all, segs.take(i + 1)) && direct_count(all, segs.take(i + 1)) >= 1)
            || direct_count(all, segs.take(i + 1)) >= 2
            || (has_subgroup(all, segs.take(i + 1)) && !single_subgroup(all, segs.take(i + 1))),
    ensures
        spec_trie_skip(segs, all) <= i,
{
    lemma_skip_from_stops(segs, all, 1, i);
}

proof fn lemma_skip_from_stops(segs: Seq<Seq<char>>, all: Seq<Seq<Seq<char>>>, j: int, i: int)
    requires
        1 <= j <= i < segs.len() - 1,
        (has_subgroup(all, segs.take(i + 1)) && direct_count(all, segs.take(i + 1)) >= 1)
            || direct_count(all, segs.take(i + 1)) >= 2
            || (has_subgroup(all, segs.take(i + 1)) && !single_subgroup(all, segs.take(i + 1))),
    ensures
        skip_from(segs, all, j) <= i,
    decreases i - j,
{
    if j < i {
        lemma_skip_from_stops(segs, all, j + 1, i);
    }
}

/// A group with no project of its own whose sub-groups all have one name is
/// a pass-through: while every group from the host's child down to depth `i`
/// is one, the walk goes past them all.
pub proof fn lemma_pass_through_groups_skipped(segs: Seq<Seq<char>>, all: Seq<Seq<Seq<char>>>, i: int)
    requires
        1 <= i < segs.len() - 1,
        forall|j: int|
            1 <= j <= i ==> single_subgroup(all, #[trigger] segs.take(j + 1)) && direct_count(
                all,
                segs.take(j + 1),
            ) == 0,
    ensures
        spec_trie_skip(segs, all) > i,
{
    lemma_skip_from_passes(segs, all, 1, i);
}

proof fn lemma_skip_from_passes(segs: Seq<Seq<char>>, all: Seq<Seq<Seq<char>>>, j: int, i: int)
    requires
        1 <= j <= i < segs.len() - 1,
        forall|k: int|
            1 <= k <= i ==> single_subgroup(all, #[trigger] segs.take(k + 1)) && direct_count(
                all,
                segs.take(k + 1),
            ) == 0,
    ensures
        skip_from(segs, all, j) > i,
    decreases segs.len() - j,
{
    assert(single_subgroup(all, segs.take(j + 1)));
    if j < i {
        lemma_skip_from_passes(segs, all, j + 1, i);
    } else if j + 2 < segs.len() {
        lemma_skip_from_bounds(segs, all, j + 1);
    }
}

/// A group below the pass-throughs that has no sub-group and at most one
/// project is noise too: the walk counts it and stops after it.
pub proof fn lemma_lone_leaf_group_is_noise(segs: Seq<Seq<char>>, all: Seq<Seq<Seq<char>>>, i: int)
    requires
        1 <= i < segs.len() - 1,
        forall|j: int|
            1 <= j < i ==> single_subgroup(all, #[trigger] segs.take(j + 1)) && direct_count(
                all,
                segs.take(j + 1),
            ) == 0,
        !has_subgroup(all, segs.take(i + 1)),
        direct_count(all, segs.take(i + 1)) <= 1,
    ensures
        spec_trie_skip(segs, all) == i + 1,
{
    lemma_skip_from_leaf(segs, all, 1, i);
}

proof fn lemma_skip_from_leaf(segs: Seq<Seq<char>>, all: Seq<Seq<Seq<char>>>, j: int, i: int)
    requires
        1 <= j <= i < segs.len() - 1,
        forall|k: int|
            1 <= k < i ==> single_subgroup(all, #[trigger] segs.take(k + 1)) && direct_count(
                all,
                segs.take(k + 1),
            ) == 0,
        !has_subgroup(all, segs.take(i + 1)),
        direct_count(all, segs.take(i + 1)) <= 1,
    ensures
        skip_from(segs, all, j) == i + 1,
    decreases i - j,
{
    if j < i {
        assert(single_subgroup(all, segs.take(j + 1)));
        lemma_skip_from_leaf(segs, all, j + 1, i);
    }
}

/// The tags are exactly the components after the skipped prefix up to the
/// project's parent directory; when the prefix leaves none, the host alone;
/// nothing for a path directly in the root or outside it.
pub proof fn lemma_tags_after_skip(p: Seq<char>, root: Seq<char>, skip: int)
    requires
        skip >= 0,
    ensures
        match spec_relative(p, root) {
            None => spec_compute_tags(p, root, skip).len() == 0,
            Some(c) => {
                &&& skip < c.len() - 1 ==> spec_compute_tags(p, root, skip).len() == c.len() - 1 - skip
                &&& forall|k: int|
                    0 <= k < c.len() - 1 - skip ==> #[trigger] spec_compute_tags(p, root, skip)[k] == c[skip + k]
                &&& c.len() >= 2 && skip >= c.len() - 1 ==> spec_compute_tags(p, root, skip) == seq![c[0]]
                &&& c.len() < 2 ==> spec_compute_tags(p, root, skip).len() == 0
            },
        },
{
}

/// The tags of a project are components strictly between the root and the
/// project directory: none for a path outside the root or directly in it, and
/// at least one, taken from a run of its intermediate components, for a
/// project nested deeper. With a skip of at least one, the host is a tag only
/// as the sole fallback tag.
pub proof fn lemma_tags_are_intermediate(p: Seq<char>, root: Seq<char>, skip: int)
    requires
        skip >= 0,
    ensures
        match spec_relative(p, root) {
            None => spec_compute_tags(p, root, skip) == Seq::<Seq<char>>::empty(),
            Some(c) => {
                &&& c.len() < 2 ==> spec_compute_tags(p, root, skip) == Seq::<Seq<char>>::empty()
                &&& c.len() >= 2 ==> exists|a: int, b: int|
                    0 <= a < b <= c.len() - 1 && spec_compute_tags(p, root, skip) == c.subrange(a, b)
                &&& c.len() >= 2 && skip >= 1 ==> (spec_compute_tags(p, root, skip) == seq![c[0]]
                    || exists|a: int, b: int|
                    1 <= a < b <= c.len() - 1 && spec_compute_tags(p, root, skip) == c.subrange(a, b))
            },
        },
{
    match spec_relative(p, root) {
        None => {},
        Some(c) => {
            let t = spec_compute_tags(p, root, skip);
            if c.len() >= 2 {
                let end = c.len() - 1;
                let start = if skip < end { skip } else { end };
                if start < end {
                    assert(t == c.subrange(start, end));
                } else {
                    assert(t == seq![c[0]]);
                    assert(t == c.subrange(0, 1));
                }
            }
        },
    }
}

/// A path under another host neither extends nor sits directly in a group of
/// `segs` that includes the host.
proof fn lemma_other_host_outside_group(segs: Seq<Seq<char>>, x: Seq<Seq<char>>, i: int)
    requires
        1 <= i < segs.len(),
        x.len() == 0 || x[0] != segs[0],
    ensures
        !extends_past(x, segs.take(i + 1)),
        !is_direct_child(x, segs.take(i + 1)),
{
    if x.len() > i + 1 && x.take(i + 1) == segs.take(i + 1) {
        assert(x.take(i + 1)[0] == segs.take(i + 1)[0]);
    }
}

proof fn lemma_skip_from_other_host(segs: Seq<Seq<char>>, all: Seq<Seq<Seq<char>>>, x: Seq<Seq<char>>, i: int)
    requires
        1 <= i < segs.len(),
        x.len() == 0 || x[0] != segs[0],
    ensures
        skip_from(segs, all.push(x), i) == skip_from(segs, all, i),
    decreases segs.len() - i,
{
    if i + 1 < segs.len() {
        let pre = segs.take(i + 1);
        let more = all.push(x);
        lemma_other_host_outside_group(segs, x, i);
        assert(more.drop_last() =~= all);
        assert(direct_count(more, pre) == direct_count(all, pre));
        assert(has_subgroup(more, pre) == has_subgroup(all, pre)) by {
            if has_subgroup(more, pre) {
                let j = choose|j: int| 0 <= j < more.len() && extends_past(#[trigger] more[j], pre);
                assert(j < all.len() && more[j] == all[j]);
            }
            if has_subgroup(all, pre) {
                let j = choose|j: int| 0 <= j < all.len() && extends_past(#[trigger] all[j], pre);
                assert(more[j] == all[j]);
            }
        }
        assert(single_subgroup(more, pre) == single_subgroup(all, pre)) by {
            if single_subgroup(all, pre) {
                assert forall|j1: int, j2: int|
                    0 <= j1 < more.len() && 0 <= j2 < more.len() && extends_past(#[trigger] more[j1], pre)
                        && extends_past(#[trigger] more[j2], pre) implies more[j1][pre.len() as int]
                    == more[j2][pre.len() as int] by {
                    assert(j1 < all.len() && j2 < all.len());
                    assert(more[j1] == all[j1] && more[j2] == all[j2]);
                }
            }
            if single_subgroup(more, pre) {
                assert forall|j1: int, j2: int|
                    0 <= j1 < all.len() && 0 <= j2 < all.len() && extends_past(#[trigger] all[j1], pre)
                        && extends_past(#[trigger] all[j2], pre) implies all[j1][pre.len() as int]
                    == all[j2][pre.len() as int] by {
                    assert(more[j1] == all[j1] && more[j2] == all[j2]);
                }
            }
        }
        lemma_skip_from_other_host(segs, all, x, i + 1);
    }
}

/// The noise depth is decided per branch: adding a path under another host
/// (or directly in the root) never changes the noise depth of a path.
pub proof fn lemma_trie_skip_per_host(segs: Seq<Seq<char>>, all: Seq<Seq<Seq<char>>>, x: Seq<Seq<char>>)
    requires
        segs.len() == 0 || x.len() == 0 || x[0] != segs[0],
    ensures
        spec_trie_skip(segs, all.push(x)) == spec_trie_skip(segs, all),
{
    if segs.len() >= 2 {
        lemma_skip_from_other_host(segs, all, x, 1);
    }
}

// ── Noise depth of every path ─────────────────────────────────────────────────

/// The paths of `paths` that lie under `root`, in order, each with its
/// components below `root`.
pub open spec fn spec_under_root(paths: Seq<Seq<char>>, root: Seq<char>) -> Seq<(Seq<char>, Seq<Seq<char>>)>
    decreases paths.len(),
{
    if paths.len() == 0 {
        seq![]
    } else {
        let prev = spec_under_root(paths.drop_last(), root);
        match spec_relative(paths.last(), root) {
            Some(c) => prev.push((paths.last(), c)),
            None => prev,
        }
    }
}

/// The components below `root` of each path of `paths` that lies under it.
pub open spec fn spec_segs_under_root(paths: Seq<Seq<char>>, root: Seq<char>) -> Seq<Seq<Seq<char>>> {
    spec_under_root(paths, root).map_values(|e: (Seq<char>, Seq<Seq<char>>)| e.1)
}

/// Each path of `paths` under `root`, in order, with its noise depth among all
/// of them.
pub open spec fn spec_path_skip_map(paths: Seq<Seq<char>>, root: Seq<char>) -> Seq<(Seq<char>, int)> {
    spec_under_root(paths, root).map_values(
        |e: (Seq<char>, Seq<Seq<char>>)| (e.0, spec_trie_skip(e.1, spec_segs_under_root(paths, root))),
    )
}

/// The noise depth of `p` among `paths` as the scan and `add` use it: that of
/// the skip map when `p` lies under `root`, else 1.
pub open spec fn spec_skip_or_default(paths: Seq<Seq<char>>, root: Seq<char>, p: Seq<char>) -> int {
    match spec_relative(p, root) {
        Some(c) => spec_trie_skip(c, spec_segs_under_root(paths, root)),
        None => 1,
    }
}

/// The view of a skip map: each path with its depth.
pub open spec fn skip_map_view(m: Seq<(String, usize)>) -> Seq<(Seq<char>, int)> {
    m.map_values(|e: (String, usize)| (e.0@, e.1 as int))
}

/// For each path in `paths` that lies under `watch_root`, in order, returns the
/// path with its noise depth: the number of leading components below
/// `watch_root` to treat as organisational noise (see [`spec_trie_skip`]).
///
/// The paths form a prefix tree; a group is noise when it fans out to exactly
/// one sub-group and holds no project of its own, or when it holds a single
/// project and no sub-group. The host (first component) is always skipped.
pub fn path_skip_map(paths: &Vec<String>, watch_root: &str) -> (r: Vec<(String, usize)>)
    ensures
        skip_map_view(r@) == spec_path_skip_map(paths.deep_view(), watch_root@),
{
    let ghost ps = paths.deep_view();
    let mut keys: Vec<String> = Vec::new();
    let mut all: Vec<Vec<String>> = Vec::new();
    let mut k: usize = 0;
    while k < paths.len()
        invariant
            ps == paths.deep_view(),
            k <= paths.len(),
            keys.len() == all.len(),
            keys.len() == spec_under_root(ps.take(k as int), watch_root@).len(),
            forall|j: int|
                0 <= j < keys.len() ==> spec_under_root(ps.take(k as int), watch_root@)[j] == (
                #[trigger] keys[j]@,
                all[j].deep_view(),
            ),
        decreases paths.len() - k,
    {
        proof {
            assert(ps.take(k + 1).drop_last() =~= ps.take(k as int));
            assert(ps.take(k + 1).last() == paths[k as int]@);
        }
        match relative_components(paths[k].as_str(), watch_root) {
            Some(c) => {
                keys.push(paths[k].clone());
                all.push(c);
            },
            None => {},
        }
        k = k + 1;
    }
    proof {
        assert(ps.take(paths.len() as int) =~= ps);
        let segs = spec_segs_under_root(ps, watch_root@);
        assert forall|j: int| 0 <= j < all.len() implies all.deep_view()[j] == segs[j] by {
            assert(spec_under_root(ps, watch_root@)[j] == (keys[j]@, all[j].deep_view()));
        }
        assert(all.deep_view() =~= segs);
    }
    let mut r: Vec<(String, usize)> = Vec::new();
    let mut j: usize = 0;
    while j < keys.len()
        invariant
            keys.len() == all.len(),
            keys.len() == spec_under_root(ps, watch_root@).len(),
            forall|i: int|
                0 <= i < keys.len() ==> spec_under_root(ps, watch_root@)[i] == (
                #[trigger] keys[i]@,
                all[i].deep_view(),
            ),
            all.deep_view() == spec_segs_under_root(ps, watch_root@),
            j <= keys.len(),
            skip_map_view(r@) == spec_path_skip_map(ps, watch_root@).take(j as int),
        decreases keys.len() - j,
    {
        let d = trie_skip_depth(&all[j], &all);
        let ghost before = r@;
        r.push((keys[j].clone(), d));
        proof {
            assert(skip_map_view(r@) =~= skip_map_view(before).push((keys[j as int]@, d as int)));
            assert(spec_path_skip_map(ps, watch_root@).take(j + 1) =~= spec_path_skip_map(
                ps,
                watch_root@,
            ).take(j as int).push(spec_path_skip_map(ps, watch_root@)[j as int]));
        }
        j = j + 1;
    }
    proof {
        assert(spec_path_skip_map(ps, watch_root@).take(keys.len() as int) =~= spec_path_skip_map(
            ps,
            watch_root@,
        ));
    }
    r
}

/// The depth the map gives the first entry for `key`.
pub open spec fn spec_lookup(m: Seq<(Seq<char>, int)>, key: Seq<char>) -> Option<int>
    decreases m.len(),
{
    if m.len() == 0 {
        None
    } else if m[0].0 == key {
        Some(m[0].1)
    } else {
        spec_lookup(m.drop_first(), key)
    }
}

/// Looks up the noise depth of `path` in a skip map (see [`spec_lookup`]).
pub fn skip_for(map: &Vec<(String, usize)>, path: &str) -> (r: Option<usize>)
    ensures
        match r {
            Some(d) => spec_lookup(skip_map_view(map@), path@) == Some(d as int),
            None => spec_lookup(skip_map_view(map@), path@) is None,
        },
{
    let ghost m = skip_map_view(map@);
    assert(m.skip(0) =~= m);
    let mut k: usize = 0;
    while k < map.len()
        invariant
            m == skip_map_view(map@),
            k <= map.len(),
            spec_lookup(m, path@) == spec_lookup(m.skip(k as int), path@),
        decreases map.len() - k,
    {
        proof {
            assert(m.skip(k as int).drop_first() =~= m.skip(k + 1));
        }
        if crate::paths::str_eq(map[k].0.as_str(), path) {
            return Some(map[k].1);
        }
        k = k + 1;
    }
    None
}

/// Every entry of `spec_under_root` is a path of `paths` with its components
/// below `root`, and every path of `paths` under `root` has an entry.
pub proof fn lemma_under_root(paths: Seq<Seq<char>>, root: Seq<char>)
    ensures
        forall|j: int|
            0 <= j < spec_under_root(paths, root).len() ==> {
                &&& spec_relative(#[trigger] spec_under_root(paths, root)[j].0, root) == Some(
                    spec_under_root(paths, root)[j].1,
                )
                &&& paths.contains(spec_under_root(paths, root)[j].0)
            },
        forall|i: int|
            0 <= i < paths.len() && (spec_relative(#[trigger] paths[i], root) is Some) ==> exists|j: int|
                0 <= j < spec_under_root(paths, root).len() && spec_under_root(paths, root)[j].0
                    == paths[i],
    decreases paths.len(),
{
    if paths.len() > 0 {
        let init = paths.drop_last();
        lemma_under_root(init, root);
        let u = spec_under_root(paths, root);
        let pu = spec_under_root(init, root);
        assert forall|j: int| 0 <= j < u.len() implies {
            &&& spec_relative(#[trigger] u[j].0, root) == Some(u[j].1)
            &&& paths.contains(u[j].0)
        } by {
            if j < pu.len() {
                assert(u[j] == pu[j]);
                let k = choose|k: int| 0 <= k < init.len() && init[k] == pu[j].0;
                assert(paths[k] == init[k]);
            } else {
                assert(paths[paths.len() - 1] == paths.last());
            }
        }
        assert forall|i: int|
            0 <= i < paths.len() && (spec_relative(#[trigger] paths[i], root) is Some) implies exists|j: int|
                0 <= j < u.len() && u[j].0 == paths[i] by {
            if i < init.len() {
                assert(init[i] == paths[i]);
                let j = choose|j: int| 0 <= j < pu.len() && pu[j].0 == init[i];
                assert(u[j] == pu[j]);
            } else {
                assert(u[u.len() - 1].0 == paths[i]);
            }
        }
    }
}

/// When every entry for `key` has the depth `v` and there is one, the lookup
/// gives `v`.
pub proof fn lemma_lookup_uniform(m: Seq<(Seq<char>, int)>, key: Seq<char>, v: int)
    requires
        exists|j: int| 0 <= j < m.len() && (#[trigger] m[j]).0 == key,
        forall|j: int| 0 <= j < m.len() && (#[trigger] m[j]).0 == key ==> m[j].1 == v,
    ensures
        spec_lookup(m, key) == Some(v),
    decreases m.len(),
{
    if m[0].0 != key {
        let j = choose|j: int| 0 <= j < m.len() && (#[trigger] m[j]).0 == key;
        assert(m.drop_first()[j - 1] == m[j]);
        assert forall|i: int| 0 <= i < m.drop_first().len() && (#[trigger] m.drop_first()[i]).0 == key implies m.drop_first()[i].1 == v by {
            assert(m.drop_first()[i] == m[i + 1]);
        }
        lemma_lookup_uniform(m.drop_first(), key, v);
    }
}

/// Without an entry for `key`, the lookup gives nothing.
pub proof fn lemma_lookup_absent(m: Seq<(Seq<char>, int)>, key: Seq<char>)
    requires
        forall|j: int| 0 <= j < m.len() ==> (#[trigger] m[j]).0 != key,
    ensures
        spec_lookup(m, key) is None,
    decreases m.len(),
{
    if m.len() > 0 {
        assert forall|j: int| 0 <= j < m.drop_first().len() implies (#[trigger] m.drop_first()[j]).0 != key by {
            assert(m.drop_first()[j] == m[j + 1]);
        }
        lemma_lookup_absent(m.drop_first(), key);
    }
}

/// Looking a path of `paths` up in its skip map gives its noise depth among
/// them when it lies under `root`, and nothing otherwise.
pub proof fn lemma_skip_map_lookup(paths: Seq<Seq<char>>, root: Seq<char>, p: Seq<char>)
    requires
        paths.contains(p),
    ensures
        spec_lookup(spec_path_skip_map(paths, root), p) == match spec_relative(p, root) {
            Some(c) => Some(spec_trie_skip(c, spec_segs_under_root(paths, root))),
            None => None::<int>,
        },
{
    lemma_under_root(paths, root);
    let u = spec_under_root(paths, root);
    let m = spec_path_skip_map(paths, root);
    let all = spec_segs_under_root(paths, root);
    match spec_relative(p, root) {
        Some(c) => {
            let i = choose|i: int| 0 <= i < paths.len() && paths[i] == p;
            let j = choose|j: int| 0 <= j < u.len() && u[j].0 == paths[i];
            assert(m[j].0 == p);
            assert forall|k: int| 0 <= k < m.len() && (#[trigger] m[k]).0 == p implies m[k].1 == spec_trie_skip(c, all) by {
                assert(spec_relative(u[k].0, root) == Some(u[k].1));
            }
            lemma_lookup_uniform(m, p, spec_trie_skip(c, all));
        },
        None => {
            assert forall|k: int| 0 <= k < m.len() implies (#[trigger] m[k]).0 != p by {
                assert(spec_relative(u[k].0, root) == Some(u[k].1));
            }
            lemma_lookup_absent(m, p);
        },
    }
}

// ── Order of the input paths ──────────────────────────────────────────────────

/// `p` lies under `root` as a project directly inside the group `pre`.
spec fn is_direct_below(p: Seq<char>, root: Seq<char>, pre: Seq<Seq<char>>) -> bool {
    match spec_relative(p, root) {
        Some(c) => is_direct_child(c, pre),
        None => false,
    }
}

/// How many paths of `paths` lie under `root` as projects directly inside the
/// group `pre`.
spec fn direct_paths(paths: Seq<Seq<char>>, root: Seq<char>, pre: Seq<Seq<char>>) -> nat
    decreases paths.len(),
{
    if paths.len() == 0 {
        0
    } else {
        direct_paths(paths.drop_last(), root, pre) + if is_direct_below(paths.last(), root, pre) {
            1nat
        } else {
            0nat
        }
    }
}

proof fn lemma_direct_count_paths(paths: Seq<Seq<char>>, root: Seq<char>, pre: Seq<Seq<char>>)
    ensures
        direct_count(spec_segs_under_root(paths, root), pre) == direct_paths(paths, root, pre),
    decreases paths.len(),
{
    if paths.len() > 0 {
        let init = paths.drop_last();
        lemma_direct_count_paths(init, root, pre);
        match spec_relative(paths.last(), root) {
            Some(c) => {
                let a = spec_segs_under_root(paths, root);
                assert(spec_under_root(paths, root) == spec_under_root(init, root).push((paths.last(), c)));
                assert(a =~= spec_segs_under_root(init, root).push(c));
                assert(a.drop_last() =~= spec_segs_under_root(init, root));
                assert(a.last() == c);
            },
            None => {
                assert(spec_under_root(paths, root) == spec_under_root(init, root));
            },
        }
    }
}

proof fn lemma_direct_paths_remove(s: Seq<Seq<char>>, root: Seq<char>, pre: Seq<Seq<char>>, i: int)
    requires
        0 <= i < s.len(),
    ensures
        direct_paths(s, root, pre) == direct_paths(s.remove(i), root, pre) + if is_direct_below(s[i], root, pre) {
            1nat
        } else {
            0nat
        },
    decreases s.len(),
{
    if i == s.len() - 1 {
        assert(s.remove(i) =~= s.drop_last());
    } else {
        let t = s.drop_last();
        lemma_direct_paths_remove(t, root, pre, i);
        assert(s.remove(i).drop_last() =~= t.remove(i));
        assert(s.remove(i).last() == s.last());
        assert(t[i] == s[i]);
    }
}

proof fn lemma_direct_paths_permutation(s1: Seq<Seq<char>>, s2: Seq<Seq<char>>, root: Seq<char>, pre: Seq<Seq<char>>)
    requires
        s1.to_multiset() == s2.to_multiset(),
    ensures
        direct_paths(s1, root, pre) == direct_paths(s2, root, pre),
    decreases s1.len(),
{
    broadcast use vstd::seq_lib::group_to_multiset_ensures, vstd::multiset::group_multiset_axioms;

    if s1.len() == 0 {
        vstd::seq_lib::to_multiset_len(s1);
        vstd::seq_lib::to_multiset_len(s2);
    } else {
        let x = s1.last();
        let t1 = s1.drop_last();
        assert(t1.push(x) =~= s1);
        assert(s1.to_multiset() == t1.to_multiset().insert(x));
        assert(s2.to_multiset().count(x) > 0);
        let i = choose|i: int| 0 <= i < s2.len() && s2[i] == x;
        assert(s2.remove(i).to_multiset() =~= t1.to_multiset());
        lemma_direct_paths_permutation(t1, s2.remove(i), root, pre);
        lemma_direct_paths_remove(s2, root, pre, i);
    }
}

/// A list of components is among those of `paths` under `root` exactly when
/// some path of `paths` has them.
proof fn lemma_segs_contains(paths: Seq<Seq<char>>, root: Seq<char>, c: Seq<Seq<char>>)
    ensures
        spec_segs_under_root(paths, root).contains(c) <==> exists|i: int|
            0 <= i < paths.len() && spec_relative(#[trigger] paths[i], root) == Some(c),
{
    lemma_under_root(paths, root);
    let u = spec_under_root(paths, root);
    let segs = spec_segs_under_root(paths, root);
    if segs.contains(c) {
        let j = choose|j: int| 0 <= j < segs.len() && segs[j] == c;
        assert(segs[j] == u[j].1);
        assert(spec_relative(u[j].0, root) == Some(u[j].1));
        let i = choose|i: int| 0 <= i < paths.len() && paths[i] == u[j].0;
        assert(spec_relative(paths[i], root) == Some(c));
    }
    if exists|i: int| 0 <= i < paths.len() && spec_relative(#[trigger] paths[i], root) == Some(c) {
        let i = choose|i: int| 0 <= i < paths.len() && spec_relative(#[trigger] paths[i], root) == Some(c);
        let j = choose|j: int| 0 <= j < u.len() && u[j].0 == paths[i];
        assert(spec_relative(u[j].0, root) == Some(u[j].1));
        assert(segs[j] == c);
    }
}

proof fn lemma_has_subgroup_transfer(a1: Seq<Seq<Seq<char>>>, a2: Seq<Seq<Seq<char>>>, pre: Seq<Seq<char>>)
    requires
        forall|x: Seq<Seq<char>>| #[trigger] a1.contains(x) ==> a2.contains(x),
        has_subgroup(a1, pre),
    ensures
        has_subgroup(a2, pre),
{
    let j = choose|j: int| 0 <= j < a1.len() && extends_past(#[trigger] a1[j], pre);
    assert(a1.contains(a1[j]));
    let k = choose|k: int| 0 <= k < a2.len() && a2[k] == a1[j];
    assert(extends_past(a2[k], pre));
}

proof fn lemma_single_subgroup_transfer(a1: Seq<Seq<Seq<char>>>, a2: Seq<Seq<Seq<char>>>, pre: Seq<Seq<char>>)
    requires
        forall|x: Seq<Seq<char>>| #![trigger a1.contains(x)] #![trigger a2.contains(x)] a1.contains(x) <==> a2.contains(x),
        single_subgroup(a1, pre),
    ensures
        single_subgroup(a2, pre),
{
    lemma_has_subgroup_transfer(a1, a2, pre);
    assert forall|j1: int, j2: int|
        0 <= j1 < a2.len() && 0 <= j2 < a2.len() && extends_past(#[trigger] a2[j1], pre) && extends_past(
            #[trigger] a2[j2],
            pre,
        ) implies a2[j1][pre.len() as int] == a2[j2][pre.len() as int] by {
        assert(a2.contains(a2[j1]) && a2.contains(a2[j2]));
        let k1 = choose|k: int| 0 <= k < a1.len() && a1[k] == a2[j1];
        let k2 = choose|k: int| 0 <= k < a1.len() && a1[k] == a2[j2];
        assert(extends_past(a1[k1], pre) && extends_past(a1[k2], pre));
    }
}

proof fn lemma_skip_from_same_groups(segs: Seq<Seq<char>>, a1: Seq<Seq<Seq<char>>>, a2: Seq<Seq<Seq<char>>>, i: int)
    requires
        forall|x: Seq<Seq<char>>| #![trigger a1.contains(x)] #![trigger a2.contains(x)] a1.contains(x) <==> a2.contains(x),
        forall|pre: Seq<Seq<char>>| #[trigger] direct_count(a1, pre) == direct_count(a2, pre),
    ensures
        skip_from(segs, a1, i) == skip_from(segs, a2, i),
    decreases segs.len() - i,
{
    if i + 1 < segs.len() {
        let pre = segs.take(i + 1);
        if has_subgroup(a1, pre) {
            lemma_has_subgroup_transfer(a1, a2, pre);
        }
        if has_subgroup(a2, pre) {
            lemma_has_subgroup_transfer(a2, a1, pre);
        }
        if single_subgroup(a1, pre) {
            lemma_single_subgroup_transfer(a1, a2, pre);
        }
        if single_subgroup(a2, pre) {
            lemma_single_subgroup_transfer(a2, a1, pre);
        }
        assert(direct_count(a1, pre) == direct_count(a2, pre));
        lemma_skip_from_same_groups(segs, a1, a2, i + 1);
    }
}

/// The skip map does not depend on the order of the input paths: for two
/// lists holding the same paths the same number of times, looking any path
/// up gives the same depth, or nothing in both.
pub proof fn lemma_skip_map_permutation(paths: Seq<Seq<char>>, paths2: Seq<Seq<char>>, root: Seq<char>)
    requires
        paths2.to_multiset() == paths.to_multiset(),
    ensures
        forall|p: Seq<char>|
            #[trigger] spec_lookup(spec_path_skip_map(paths2, root), p) == spec_lookup(
                spec_path_skip_map(paths, root),
                p,
            ),
{
    broadcast use vstd::seq_lib::group_to_multiset_ensures;

    let a1 = spec_segs_under_root(paths, root);
    let a2 = spec_segs_under_root(paths2, root);
    assert forall|q: Seq<char>| #![trigger paths.contains(q)] #![trigger paths2.contains(q)] paths.contains(q) <==> paths2.contains(q) by {
        vstd::seq_lib::to_multiset_contains(paths, q);
        vstd::seq_lib::to_multiset_contains(paths2, q);
    }
    assert forall|x: Seq<Seq<char>>| #![trigger a1.contains(x)] #![trigger a2.contains(x)] a1.contains(x) <==> a2.contains(x) by {
        lemma_segs_contains(paths, root, x);
        lemma_segs_contains(paths2, root, x);
        if exists|i: int| 0 <= i < paths.len() && spec_relative(#[trigger] paths[i], root) == Some(x) {
            let i = choose|i: int| 0 <= i < paths.len() && spec_relative(#[trigger] paths[i], root) == Some(x);
            assert(paths.contains(paths[i]));
            let k = choose|k: int| 0 <= k < paths2.len() && paths2[k] == paths[i];
            assert(spec_relative(paths2[k], root) == Some(x));
        }
        if exists|i: int| 0 <= i < paths2.len() && spec_relative(#[trigger] paths2[i], root) == Some(x) {
            let i = choose|i: int| 0 <= i < paths2.len() && spec_relative(#[trigger] paths2[i], root) == Some(x);
            assert(paths2.contains(paths2[i]));
            let k = choose|k: int| 0 <= k < paths.len() && paths[k] == paths2[i];
            assert(spec_relative(paths[k], root) == Some(x));
        }
    }
    assert forall|pre: Seq<Seq<char>>| #[trigger] direct_count(a1, pre) == direct_count(a2, pre) by {
        lemma_direct_count_paths(paths, root, pre);
        lemma_direct_count_paths(paths2, root, pre);
        lemma_direct_paths_permutation(paths, paths2, root, pre);
    }
    assert forall|p: Seq<char>|
        #[trigger] spec_lookup(spec_path_skip_map(paths2, root), p) == spec_lookup(spec_path_skip_map(paths, root), p) by {
        if paths.contains(p) {
            lemma_skip_map_lookup(paths, root, p);
            lemma_skip_map_lookup(paths2, root, p);
            if let Some(c) = spec_relative(p, root) {
                if c.len() >= 2 {
                    lemma_skip_from_same_groups(c, a1, a2, 1);
                }
            }
        } else {
            lemma_skip_map_absent(paths, root, p);
            lemma_skip_map_absent(paths2, root, p);
        }
    }
}

/// A path that is not among `paths` has no entry in their skip map.
proof fn lemma_skip_map_absent(paths: Seq<Seq<char>>, root: Seq<char>, p: Seq<char>)
    requires
        !paths.contains(p),
    ensures
        spec_lookup(spec_path_skip_map(paths, root), p) is None,
{
    lemma_under_root(paths, root);
    let u = spec_under_root(paths, root);
    let m = spec_path_skip_map(paths, root);
    assert forall|k: int| 0 <= k < m.len() implies (#[trigger] m[k]).0 != p by {
        assert(m[k].0 == u[k].0);
        assert(spec_relative(u[k].0, root) == Some(u[k].1));
    }
    lemma_lookup_absent(m, p);
}

} // verus!
