//! Per-user configuration: scan depth, tag renames and per-host skip floors.
use vstd::prelude::*;
use crate::order::{is_sorted, lemma_seq_lt_order, seq_lt, sorted_strings, str_lt};
use crate::paths::{contains_str, home_dir, join, spec_join, str_eq};

verus! {

/// How many levels below the root are scanned when nothing is configured.
pub const DEFAULT_MAX_DEPTH: usize = 6;

/// The configuration. Each list of pairs stands for a map: an entry replaces
/// an earlier one with the same key.
pub struct Config {
    /// How many directory levels below the root to scan; `None` means
    /// [`DEFAULT_MAX_DEPTH`].
    pub max_depth: Option<usize>,
    /// Display label, with the raw path segments that are renamed to it.
    pub tag_rename: Vec<(String, Vec<String>)>,
    /// VCS host directory, with the minimum number of segments to skip.
    pub host_skip: Vec<(String, usize)>,
}

/// The map that a list of `(host, depth)` entries stands for.
pub open spec fn host_skip_view(s: Seq<(String, usize)>) -> Map<Seq<char>, usize>
    decreases s.len(),
{
    if s.len() == 0 {
        Map::empty()
    } else {
        host_skip_view(s.drop_last()).insert(s.last().0@, s.last().1)
    }
}

/// The map that a list of `(label, sources)` entries stands for.
pub open spec fn tag_rename_view(s: Seq<(String, Vec<String>)>) -> Map<Seq<char>, Seq<Seq<char>>>
    decreases s.len(),
{
    if s.len() == 0 {
        Map::empty()
    } else {
        tag_rename_view(s.drop_last()).insert(s.last().0@, s.last().1.deep_view())
    }
}

pub struct ConfigView {
    pub max_depth: Option<usize>,
    pub tag_rename: Map<Seq<char>, Seq<Seq<char>>>,
    pub host_skip: Map<Seq<char>, usize>,
}

impl View for Config {
    type V = ConfigView;

    open spec fn view(&self) -> ConfigView {
        ConfigView {
            max_depth: self.max_depth,
            tag_rename: tag_rename_view(self.tag_rename@),
            host_skip: host_skip_view(self.host_skip@),
        }
    }
}

impl Default for Config {
    fn default() -> (r: Config)
        ensures
            r.max_depth is None,
            r.tag_rename@.len() == 0,
            r.host_skip@.len() == 0,
    {
        Config { max_depth: None, tag_rename: Vec::new(), host_skip: Vec::new() }
    }
}

/// Some label lists `t` among its sources.
pub open spec fn is_renamed(m: Map<Seq<char>, Seq<Seq<char>>>, t: Seq<char>) -> bool {
    exists|l: Seq<char>| m.contains_key(l) && #[trigger] m[l].contains(t)
}

/// `r` is what `t` becomes: a label that lists `t` when there is one, else `t`.
pub open spec fn is_rename_of(m: Map<Seq<char>, Seq<Seq<char>>>, t: Seq<char>, r: Seq<char>) -> bool {
    if is_renamed(m, t) {
        m.contains_key(r) && m[r].contains(t)
    } else {
        r == t
    }
}

/// `tags` are `derived` renamed one by one (see [`is_rename_of`]).
pub open spec fn is_renaming(m: Map<Seq<char>, Seq<Seq<char>>>, derived: Seq<Seq<char>>, tags: Seq<Seq<char>>) -> bool {
    &&& tags.len() == derived.len()
    &&& forall|i: int| 0 <= i < derived.len() ==> is_rename_of(m, derived[i], #[trigger] tags[i])
}

/// No entry after `k` has the same label: entry `k` is the one the map keeps.
pub open spec fn is_live_entry(s: Seq<(String, Vec<String>)>, k: int) -> bool {
    forall|j: int| k < j < s.len() ==> (#[trigger] s[j]).0@ != s[k].0@
}

/// The map keeps exactly the live entries.
pub proof fn lemma_tag_rename_live(s: Seq<(String, Vec<String>)>)
    ensures
        forall|k: int|
            0 <= k < s.len() && is_live_entry(s, k) ==> tag_rename_view(s).contains_key(
                (#[trigger] s[k]).0@,
            ) && tag_rename_view(s)[s[k].0@] == s[k].1.deep_view(),
        forall|l: Seq<char>|
            #[trigger] tag_rename_view(s).contains_key(l) ==> exists|k: int|
                0 <= k < s.len() && is_live_entry(s, k) && (#[trigger] s[k]).0@ == l
                    && tag_rename_view(s)[l] == s[k].1.deep_view(),
    decreases s.len(),
{
    if s.len() > 0 {
        let init = s.drop_last();
        lemma_tag_rename_live(init);
        let m = tag_rename_view(s);
        assert forall|k: int|
            0 <= k < s.len() && is_live_entry(s, k) implies m.contains_key(
            (#[trigger] s[k]).0@,
        ) && m[s[k].0@] == s[k].1.deep_view() by {
            if k < s.len() - 1 {
                assert(init[k] == s[k]);
                assert forall|j: int| k < j < init.len() implies (#[trigger] init[j]).0@ != init[k].0@ by {
                    assert(init[j] == s[j]);
                }
                assert(s[s.len() - 1].0@ != s[k].0@);
            }
        }
        assert forall|l: Seq<char>| #[trigger] m.contains_key(l) implies exists|k: int|
            0 <= k < s.len() && is_live_entry(s, k) && (#[trigger] s[k]).0@ == l && m[l]
                == s[k].1.deep_view() by {
            if l == s.last().0@ {
                assert(s[s.len() - 1] == s.last());
                assert(is_live_entry(s, s.len() - 1));
            } else {
                let k = choose|k: int|
                    0 <= k < init.len() && is_live_entry(init, k) && (#[trigger] init[k]).0@ == l
                        && tag_rename_view(init)[l] == init[k].1.deep_view();
                assert(init[k] == s[k]);
                assert forall|j: int| k < j < s.len() implies (#[trigger] s[j]).0@ != s[k].0@ by {
                    if j < s.len() - 1 {
                        assert(init[j] == s[j]);
                    }
                }
            }
        }
    }
}

/// Keys in strictly ascending order.
pub open spec fn keys_ascending<V>(s: Seq<(Seq<char>, V)>) -> bool {
    forall|i: int, j: int| 0 <= i < j < s.len() ==> seq_lt(#[trigger] s[i].0, #[trigger] s[j].0)
}

/// Every key of `m` has an entry in `s`.
pub open spec fn covers_keys<V, W>(s: Seq<(Seq<char>, V)>, m: Map<Seq<char>, W>) -> bool {
    forall|k: Seq<char>| #[trigger] m.contains_key(k) ==> exists|i: int| 0 <= i < s.len() && s[i].0 == k
}

/// The entries `s` list the map `m`, each key once, in ascending key order.
pub open spec fn lists_map(s: Seq<(Seq<char>, usize)>, m: Map<Seq<char>, usize>) -> bool {
    &&& keys_ascending(s)
    &&& covers_keys(s, m)
    &&& forall|i: int| 0 <= i < s.len() ==> m.contains_key(#[trigger] s[i].0) && m[s[i].0] == s[i].1
}

/// The entries `s` list the renames `m`, each label once, in ascending label
/// order, with its sources sorted.
pub open spec fn lists_renames(s: Seq<(Seq<char>, Seq<Seq<char>>)>, m: Map<Seq<char>, Seq<Seq<char>>>) -> bool {
    &&& keys_ascending(s)
    &&& covers_keys(s, m)
    &&& forall|i: int|
        0 <= i < s.len() ==> m.contains_key(#[trigger] s[i].0) && is_sorted(s[i].1)
            && s[i].1.to_multiset() == m[s[i].0].to_multiset()
}

pub open spec fn host_entries_view(r: Seq<(String, usize)>) -> Seq<(Seq<char>, usize)> {
    r.map_values(|e: (String, usize)| (e.0@, e.1))
}

pub open spec fn rename_entries_view(r: Seq<(String, Vec<String>)>) -> Seq<(Seq<char>, Seq<Seq<char>>)> {
    r.map_values(|e: (String, Vec<String>)| (e.0@, e.1.deep_view()))
}

/// Where `key` goes among ascending keys: the first position whose key is
/// not before it.
fn key_position<V>(r: &Vec<(String, V)>, key: &String) -> (pos: usize)
    ensures
        pos <= r.len(),
        forall|i: int| 0 <= i < pos ==> seq_lt(#[trigger] r@[i].0@, key@),
        pos < r.len() ==> !seq_lt(r@[pos as int].0@, key@),
{
    let mut pos: usize = 0;
    while pos < r.len() && str_lt(r[pos].0.as_str(), key.as_str())
        invariant
            pos <= r.len(),
            forall|i: int| 0 <= i < pos ==> seq_lt(#[trigger] r@[i].0@, key@),
        decreases r.len() - pos,
    {
        pos = pos + 1;
    }
    pos
}

/// Inserting a key at its position keeps the keys ascending, when the key
/// before it is smaller and the key after it is larger.
proof fn lemma_insert_ascending<V>(s: Seq<(Seq<char>, V)>, pos: int, e: (Seq<char>, V))
    requires
        keys_ascending(s),
        0 <= pos <= s.len(),
        forall|i: int| 0 <= i < pos ==> seq_lt(#[trigger] s[i].0, e.0),
        pos < s.len() ==> seq_lt(e.0, s[pos].0),
    ensures
        keys_ascending(s.insert(pos, e)),
{
    let t = s.insert(pos, e);
    assert forall|i: int, j: int| 0 <= i < j < t.len() implies seq_lt(#[trigger] t[i].0, #[trigger] t[j].0) by {
        if j == pos {
        } else if i == pos {
            assert(t[j] == s[j - 1]);
            if j - 1 > pos {
                lemma_seq_lt_order(e.0, s[pos].0, s[j - 1].0);
            }
        } else {
            let ii = if i < pos { i } else { i - 1 };
            let jj = if j < pos { j } else { j - 1 };
            assert(t[i] == s[ii] && t[j] == s[jj]);
        }
    }
}

/// Setting the entry at `pos`, whose key is `key`, to the depth `val` keeps
/// the floors listed, with `key` now mapped to `val`.
proof fn lemma_hosts_replace(rv: Seq<(Seq<char>, usize)>, m: Map<Seq<char>, usize>, pos: int, key: Seq<char>, val: usize)
    requires
        lists_map(rv, m),
        0 <= pos < rv.len(),
        rv[pos].0 == key,
    ensures
        lists_map(rv.update(pos, (key, val)), m.insert(key, val)),
{
    let nv = rv.update(pos, (key, val));
    let m2 = m.insert(key, val);
    assert forall|i: int, j: int| 0 <= i < j < nv.len() implies seq_lt(#[trigger] nv[i].0, #[trigger] nv[j].0) by {
        assert(nv[i].0 == rv[i].0 && nv[j].0 == rv[j].0);
    }
    assert forall|q: Seq<char>| #[trigger] m2.contains_key(q) implies exists|i: int| 0 <= i < nv.len() && nv[i].0 == q by {
        if q != key {
            let i = choose|i: int| 0 <= i < rv.len() && rv[i].0 == q;
            assert(nv[i].0 == rv[i].0);
        } else {
            assert(nv[pos].0 == q);
        }
    }
    assert forall|i: int| 0 <= i < nv.len() implies m2.contains_key(#[trigger] nv[i].0) && m2[nv[i].0] == nv[i].1 by {
        if i != pos {
            assert(nv[i] == rv[i]);
            assert(rv[i].0 != key) by {
                if i < pos {
                    lemma_seq_lt_order(rv[i].0, key, key);
                } else {
                    lemma_seq_lt_order(rv[pos].0, rv[i].0, rv[pos].0);
                }
            }
        }
    }
}

/// Inserting a new key `key` with the depth `val` at its place `pos` keeps
/// the floors listed, with `key` now mapped to `val`.
proof fn lemma_hosts_insert(rv: Seq<(Seq<char>, usize)>, m: Map<Seq<char>, usize>, pos: int, key: Seq<char>, val: usize)
    requires
        lists_map(rv, m),
        0 <= pos <= rv.len(),
        forall|i: int| 0 <= i < pos ==> seq_lt(#[trigger] rv[i].0, key),
        pos < rv.len() ==> !seq_lt(rv[pos].0, key) && rv[pos].0 != key,
    ensures
        lists_map(rv.insert(pos, (key, val)), m.insert(key, val)),
{
    let e = (key, val);
    let nv = rv.insert(pos, e);
    let m2 = m.insert(key, val);
    if pos < rv.len() {
        lemma_seq_lt_order(key, rv[pos].0, key);
    }
    lemma_insert_ascending(rv, pos, e);
    assert forall|q: Seq<char>| #[trigger] m2.contains_key(q) implies exists|i: int| 0 <= i < nv.len() && nv[i].0 == q by {
        if q != key {
            let i = choose|i: int| 0 <= i < rv.len() && rv[i].0 == q;
            if i < pos {
                assert(nv[i] == rv[i]);
            } else {
                assert(nv[i + 1] == rv[i]);
            }
        } else {
            assert(nv[pos].0 == q);
        }
    }
    assert forall|i: int| 0 <= i < nv.len() implies m2.contains_key(#[trigger] nv[i].0) && m2[nv[i].0] == nv[i].1 by {
        if i != pos {
            let ii = if i < pos { i } else { i - 1 };
            assert(nv[i] == rv[ii]);
            assert(rv[ii].0 != key) by {
                if ii < pos {
                    lemma_seq_lt_order(rv[ii].0, key, key);
                } else {
                    lemma_seq_lt_order(key, rv[pos].0, rv[ii].0);
                    lemma_seq_lt_order(rv[pos].0, rv[ii].0, key);
                    lemma_seq_lt_order(key, rv[pos].0, key);
                }
            }
        }
    }
}

/// Setting the entry at `pos`, whose label is `key`, to the sorted sources
/// `vv` keeps the renames listed, with `key` now standing for `src`.
proof fn lemma_renames_replace(
    rv: Seq<(Seq<char>, Seq<Seq<char>>)>,
    m: Map<Seq<char>, Seq<Seq<char>>>,
    pos: int,
    key: Seq<char>,
    vv: Seq<Seq<char>>,
    src: Seq<Seq<char>>,
)
    requires
        lists_renames(rv, m),
        0 <= pos < rv.len(),
        rv[pos].0 == key,
        is_sorted(vv),
        vv.to_multiset() == src.to_multiset(),
    ensures
        lists_renames(rv.update(pos, (key, vv)), m.insert(key, src)),
{
    let nv = rv.update(pos, (key, vv));
    let m2 = m.insert(key, src);
    assert forall|i: int, j: int| 0 <= i < j < nv.len() implies seq_lt(#[trigger] nv[i].0, #[trigger] nv[j].0) by {
        assert(nv[i].0 == rv[i].0 && nv[j].0 == rv[j].0);
    }
    assert forall|q: Seq<char>| #[trigger] m2.contains_key(q) implies exists|i: int| 0 <= i < nv.len() && nv[i].0 == q by {
        if q != key {
            let i = choose|i: int| 0 <= i < rv.len() && rv[i].0 == q;
            assert(nv[i].0 == rv[i].0);
        } else {
            assert(nv[pos].0 == q);
        }
    }
    assert forall|i: int| 0 <= i < nv.len() implies m2.contains_key(#[trigger] nv[i].0) && is_sorted(nv[i].1)
        && nv[i].1.to_multiset() == m2[nv[i].0].to_multiset() by {
        if i == pos {
            assert(nv[i].1 == vv);
        } else {
            assert(nv[i] == rv[i]);
            assert(rv[i].0 != key) by {
                if i < pos {
                    lemma_seq_lt_order(rv[i].0, key, key);
                } else {
                    lemma_seq_lt_order(rv[pos].0, rv[i].0, rv[pos].0);
                }
            }
        }
    }
}

/// Inserting a new label `key` with the sorted sources `vv` at its place
/// `pos` keeps the renames listed, with `key` now standing for `src`.
proof fn lemma_renames_insert(
    rv: Seq<(Seq<char>, Seq<Seq<char>>)>,
    m: Map<Seq<char>, Seq<Seq<char>>>,
    pos: int,
    key: Seq<char>,
    vv: Seq<Seq<char>>,
    src: Seq<Seq<char>>,
)
    requires
        lists_renames(rv, m),
        0 <= pos <= rv.len(),
        forall|i: int| 0 <= i < pos ==> seq_lt(#[trigger] rv[i].0, key),
        pos < rv.len() ==> !seq_lt(rv[pos].0, key) && rv[pos].0 != key,
        is_sorted(vv),
        vv.to_multiset() == src.to_multiset(),
    ensures
        lists_renames(rv.insert(pos, (key, vv)), m.insert(key, src)),
{
    let e = (key, vv);
    let nv = rv.insert(pos, e);
    let m2 = m.insert(key, src);
    if pos < rv.len() {
        lemma_seq_lt_order(key, rv[pos].0, key);
    }
    lemma_insert_ascending(rv, pos, e);
    assert forall|q: Seq<char>| #[trigger] m2.contains_key(q) implies exists|i: int| 0 <= i < nv.len() && nv[i].0 == q by {
        if q != key {
            let i = choose|i: int| 0 <= i < rv.len() && rv[i].0 == q;
            if i < pos {
                assert(nv[i] == rv[i]);
            } else {
                assert(nv[i + 1] == rv[i]);
            }
        } else {
            assert(nv[pos].0 == q);
        }
    }
    assert forall|i: int| 0 <= i < nv.len() implies m2.contains_key(#[trigger] nv[i].0) && is_sorted(nv[i].1)
        && nv[i].1.to_multiset() == m2[nv[i].0].to_multiset() by {
        if i == pos {
            assert(nv[i].1 == vv);
        } else {
            let ii = if i < pos { i } else { i - 1 };
            assert(nv[i] == rv[ii]);
            assert(rv[ii].0 != key) by {
                if ii < pos {
                    lemma_seq_lt_order(rv[ii].0, key, key);
                } else {
                    lemma_seq_lt_order(key, rv[pos].0, rv[ii].0);
                    lemma_seq_lt_order(rv[pos].0, rv[ii].0, key);
                    lemma_seq_lt_order(key, rv[pos].0, key);
                }
            }
        }
    }
}

impl Config {
    /// The configured scan depth, or [`DEFAULT_MAX_DEPTH`].
    pub fn scan_max_depth(&self) -> (r: usize)
        ensures
            r == match self.max_depth {
                Some(d) => d,
                None => DEFAULT_MAX_DEPTH,
            },
    {
        match self.max_depth {
            Some(d) => d,
            None => DEFAULT_MAX_DEPTH,
        }
    }

    /// The configured minimum skip depth for `host`, or 0.
    pub fn floor_for(&self, host: &str) -> (r: usize)
        ensures
            r as int == spec_floor_of(self@.host_skip, host@),
    {
        let ghost s = self.host_skip@;
        let mut found: Option<usize> = None;
        let mut k: usize = 0;
        while k < self.host_skip.len()
            invariant
                s == self.host_skip@,
                k <= s.len(),
                found == if host_skip_view(s.take(k as int)).contains_key(host@) {
                    Some(host_skip_view(s.take(k as int))[host@])
                } else {
                    None::<usize>
                },
            decreases s.len() - k,
        {
            proof {
                assert(s.take(k + 1).drop_last() =~= s.take(k as int));
                assert(s.take(k + 1).last() == s[k as int]);
            }
            if str_eq(self.host_skip[k].0.as_str(), host) {
                found = Some(self.host_skip[k].1);
            }
            k = k + 1;
        }
        proof {
            assert(s.take(s.len() as int) =~= s);
        }
        match found {
            Some(d) => d,
            None => 0,
        }
    }

    /// Sets the minimum skip depth for `host`, replacing any earlier value.
    pub fn set_host_skip(&mut self, host: String, depth: usize)
        ensures
            final(self)@.host_skip == old(self)@.host_skip.insert(host@, depth),
            final(self).max_depth == old(self).max_depth,
            final(self).tag_rename == old(self).tag_rename,
    {
        let ghost before = self.host_skip@;
        self.host_skip.push((host, depth));
        proof {
            assert(self.host_skip@.drop_last() =~= before);
        }
    }

    /// The host floors, one per host, in ascending host order (what
    /// `config show` prints).
    pub fn host_skip_entries(&self) -> (r: Vec<(String, usize)>)
        ensures
            lists_map(host_entries_view(r@), self@.host_skip),
    {
        let ghost s = self.host_skip@;
        let mut r: Vec<(String, usize)> = Vec::new();
        let mut k: usize = 0;
        while k < self.host_skip.len()
            invariant
                s == self.host_skip@,
                k <= s.len(),
                lists_map(host_entries_view(r@), host_skip_view(s.take(k as int))),
            decreases s.len() - k,
        {
            proof {
                assert(s.take(k + 1).drop_last() =~= s.take(k as int));
                assert(s.take(k + 1).last() == s[k as int]);
            }
            let ghost m = host_skip_view(s.take(k as int));
            let ghost rv = host_entries_view(r@);
            let key = &self.host_skip[k].0;
            let val = self.host_skip[k].1;
            let pos = key_position(&r, key);
            if pos < r.len() && r[pos].0 == *key {
                r.set(pos, (key.clone(), val));
                proof {
                    assert(host_entries_view(r@) =~= rv.update(pos as int, (key@, val)));
                    lemma_hosts_replace(rv, m, pos as int, key@, val);
                }
            } else {
                r.insert(pos, (key.clone(), val));
                proof {
                    assert(host_entries_view(r@) =~= rv.insert(pos as int, (key@, val)));
                    lemma_hosts_insert(rv, m, pos as int, key@, val);
                }
            }
            proof {
                assert(host_skip_view(s.take(k + 1)) == m.insert(key@, val));
            }
            k = k + 1;
        }
        proof {
            assert(s.take(s.len() as int) =~= s);
        }
        r
    }

    /// The renames, one per label, in ascending label order, each with its
    /// sources sorted (what `config show` prints).
    pub fn tag_rename_entries(&self) -> (r: Vec<(String, Vec<String>)>)
        ensures
            lists_renames(rename_entries_view(r@), self@.tag_rename),
    {
        let ghost s = self.tag_rename@;
        let mut r: Vec<(String, Vec<String>)> = Vec::new();
        let mut k: usize = 0;
        while k < self.tag_rename.len()
            invariant
                s == self.tag_rename@,
                k <= s.len(),
                lists_renames(rename_entries_view(r@), tag_rename_view(s.take(k as int))),
            decreases s.len() - k,
        {
            proof {
                assert(s.take(k + 1).drop_last() =~= s.take(k as int));
                assert(s.take(k + 1).last() == s[k as int]);
            }
            let ghost m = tag_rename_view(s.take(k as int));
            let ghost rv = rename_entries_view(r@);
            let ghost src = s[k as int].1.deep_view();
            let key = &self.tag_rename[k].0;
            let val = sorted_strings(&self.tag_rename[k].1);
            let ghost vv = val.deep_view();
            let pos = key_position(&r, key);
            if pos < r.len() && r[pos].0 == *key {
                r.set(pos, (key.clone(), val));
                proof {
                    assert(rename_entries_view(r@) =~= rv.update(pos as int, (key@, vv)));
                    lemma_renames_replace(rv, m, pos as int, key@, vv, src);
                }
            } else {
                r.insert(pos, (key.clone(), val));
                proof {
                    assert(rename_entries_view(r@) =~= rv.insert(pos as int, (key@, vv)));
                    lemma_renames_insert(rv, m, pos as int, key@, vv, src);
                }
            }
            proof {
                assert(tag_rename_view(s.take(k + 1)) == m.insert(key@, src));
            }
            k = k + 1;
        }
        proof {
            assert(s.take(s.len() as int) =~= s);
        }
        r
    }

    /// What one tag becomes under `tag_rename` (see [`is_rename_of`]).
    fn rename_one(&self, t: &String) -> (r: String)
        ensures
            is_rename_of(self@.tag_rename, t@, r@),
    {
        let ghost s = self.tag_rename@;
        let ghost m = tag_rename_view(s);
        proof {
            lemma_tag_rename_live(s);
        }
        let n = self.tag_rename.len();
        let mut k: usize = n;
        while k > 0
            invariant
                s == self.tag_rename@,
                m == tag_rename_view(s),
                n == s.len(),
                k <= n,
                forall|i: int|
                    k <= i < n && is_live_entry(s, i) ==> !(#[trigger] s[i]).1.deep_view().contains(
                        t@,
                    ),
            decreases k,
        {
            k = k - 1;
            let mut live = true;
            let mut j = k + 1;
            while j < n
                invariant
                    s == self.tag_rename@,
                    n == s.len(),
                    k < j <= n,
                    live == forall|i: int| k < i < j ==> (#[trigger] s[i]).0@ != s[k as int].0@,
                decreases n - j,
            {
                if self.tag_rename[j].0 == self.tag_rename[k].0 {
                    live = false;
                }
                j = j + 1;
            }
            if live && contains_str(&self.tag_rename[k].1, t) {
                assert(is_live_entry(s, k as int));
                proof {
                    lemma_tag_rename_live(s);
                    assert(m.contains_key(s[k as int].0@));
                    assert(m[s[k as int].0@].contains(t@));
                }
                return self.tag_rename[k].0.clone();
            }
        }
        proof {
            assert forall|l: Seq<char>| m.contains_key(l) implies !(#[trigger] m[l]).contains(t@) by {
                let i = choose|i: int|
                    0 <= i < s.len() && is_live_entry(s, i) && (#[trigger] s[i]).0@ == l && m[l]
                        == s[i].1.deep_view();
            }
        }
        t.clone()
    }

    /// Applies the `tag_rename` substitutions to a list of derived tags: each
    /// tag listed among a label's sources becomes that label; others stay.
    pub fn rename_tags(&self, tags: Vec<String>) -> (r: Vec<String>)
        ensures
            is_renaming(self@.tag_rename, tags.deep_view(), r.deep_view()),
    {
        let mut r: Vec<String> = Vec::new();
        let mut k: usize = 0;
        while k < tags.len()
            invariant
                k <= tags.len(),
                r.len() == k,
                forall|i: int| 0 <= i < k ==> is_rename_of(self@.tag_rename, tags[i]@, #[trigger] r[i]@),
            decreases tags.len() - k,
        {
            let x = self.rename_one(&tags[k]);
            r.push(x);
            k = k + 1;
        }
        proof {
            assert forall|i: int| 0 <= i < tags.deep_view().len() implies is_rename_of(
                self@.tag_rename,
                tags.deep_view()[i],
                #[trigger] r.deep_view()[i],
            ) by {
                assert(tags.deep_view()[i] == tags[i]@ && r.deep_view()[i] == r[i]@);
            }
        }
        r
    }
}

/// The floor a host map gives `host`: its value, or 0 when it has none.
pub open spec fn spec_floor_of(m: Map<Seq<char>, usize>, host: Seq<char>) -> int {
    if m.contains_key(host) {
        m[host] as int
    } else {
        0
    }
}

/// Setting a host's skip depth makes it that host's floor and leaves every
/// other host's floor as it was.
pub proof fn lemma_floor_after_set(m: Map<Seq<char>, usize>, host: Seq<char>, depth: usize, other: Seq<char>)
    ensures
        spec_floor_of(m.insert(host, depth), host) == depth,
        other != host ==> spec_floor_of(m.insert(host, depth), other) == spec_floor_of(m, other),
{
}

/// Without any label, renaming leaves every tag as it is.
pub proof fn lemma_rename_without_labels(m: Map<Seq<char>, Seq<Seq<char>>>, derived: Seq<Seq<char>>, tags: Seq<Seq<char>>)
    requires
        m == Map::<Seq<char>, Seq<Seq<char>>>::empty(),
        is_renaming(m, derived, tags),
    ensures
        tags == derived,
{
    assert(tags =~= derived);
}

/// Where the configuration file lives under `home`.
pub fn config_path_in(home: &str) -> (r: String)
    ensures
        r@ == spec_join(home@, ".config/vscode-pmu/config.toml"@),
{
    join(home, ".config/vscode-pmu/config.toml")
}

/// Where the configuration file lives, or nothing when the home directory is unknown.
pub fn config_path() -> (r: Option<String>)
    ensures
        r matches Some(p) ==> exists|h: Seq<char>| h.len() > 0 && p@ == spec_join(h, ".config/vscode-pmu/config.toml"@),
{
    match home_dir() {
        Some(h) => Some(config_path_in(h.as_str())),
        None => None,
    }
}

} // verus!
