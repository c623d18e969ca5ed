//! The path cache: which cache file belongs to a root, when it is fresh, and
//! the line format its paths are stored in.
use vstd::prelude::*;
use std::collections::hash_map::DefaultHasher;
use std::hash::Hasher;
use vstd::std_specs::hash::DefaultHasherAdditionalSpecFns;
use vstd::string::StringSliceAdditionalSpecFns;
use vstd::utf8::encode_utf8;
use crate::paths::{
    home_dir, join, lemma_normalize_components, normalize, push_char, spec_components, spec_join,
    spec_normalize,
};
use crate::projects::{managed_roots, projects_view, spec_managed_roots, Project};

verus! {

/// How long, in seconds, a cache stays fresh.
pub const CACHE_TTL: u64 = 86400;

/// A cache whose file was last written `age_secs` seconds ago (`None` when the
/// file is missing or its age cannot be told) can be used instead of a walk
/// when it is younger than [`CACHE_TTL`].
pub fn is_fresh(age_secs: Option<u64>) -> (r: bool)
    ensures
        r == (age_secs matches Some(a) && a < CACHE_TTL),
{
    match age_secs {
        Some(a) => a < CACHE_TTL,
        None => false,
    }
}

// ── File format ───────────────────────────────────────────────────────────────

/// Unicode `White_Space`, the characters that `str::trim` removes.
pub open spec fn is_white_space(c: char) -> bool {
    let u = c as u32;
    ||| 0x09 <= u <= 0x0D
    ||| u == 0x20
    ||| u == 0x85
    ||| u == 0xA0
    ||| u == 0x1680
    ||| 0x2000 <= u <= 0x200A
    ||| u == 0x2028
    ||| u == 0x2029
    ||| u == 0x202F
    ||| u == 0x205F
    ||| u == 0x3000
}

/// A line with nothing but white space.
pub open spec fn is_blank(line: Seq<char>) -> bool {
    forall|i: int| 0 <= i < line.len() ==> is_white_space(#[trigger] line[i])
}

/// A line ended by `\r\n` loses its `\r`.
pub open spec fn strip_cr(line: Seq<char>) -> Seq<char> {
    if line.len() > 0 && line.last() == '\r' {
        line.drop_last()
    } else {
        line
    }
}

pub open spec fn keep_line(done: Seq<Seq<char>>, line: Seq<char>) -> Seq<Seq<char>> {
    if is_blank(line) {
        done
    } else {
        done.push(line)
    }
}

/// Reading cache content from left to right: the non-blank lines completed so
/// far and the line being read.
pub open spec fn lines_state(s: Seq<char>) -> (Seq<Seq<char>>, Seq<char>)
    decreases s.len(),
{
    if s.len() == 0 {
        (seq![], seq![])
    } else {
        let prev = lines_state(s.drop_last());
        if s.last() == '\n' {
            (keep_line(prev.0, strip_cr(prev.1)), seq![])
        } else {
            (prev.0, prev.1.push(s.last()))
        }
    }
}

/// The paths that cache content holds: its lines (`str::lines`), without the
/// blank ones.
pub open spec fn spec_read_paths(content: Seq<char>) -> Seq<Seq<char>> {
    keep_line(lines_state(content).0, lines_state(content).1)
}

/// The paths joined by newlines.
pub open spec fn spec_join_lines(ps: Seq<Seq<char>>) -> Seq<char>
    decreases ps.len(),
{
    if ps.len() == 0 {
        seq![]
    } else if ps.len() == 1 {
        ps[0]
    } else {
        spec_join_lines(ps.drop_last()) + seq!['\n'] + ps.last()
    }
}

/// The cache content for a list of paths: one per line, with a final newline.
pub open spec fn spec_write_paths(ps: Seq<Seq<char>>) -> Seq<char> {
    spec_join_lines(ps) + seq!['\n']
}

fn is_white_space_char(c: char) -> (r: bool)
    ensures
        r == is_white_space(c),
{
    let u = c as u32;
    (0x09 <= u && u <= 0x0D) || u == 0x20 || u == 0x85 || u == 0xA0 || u == 0x1680 || (0x2000
        <= u && u <= 0x200A) || u == 0x2028 || u == 0x2029 || u == 0x202F || u == 0x205F || u
        == 0x3000
}

fn is_blank_line(line: &String) -> (r: bool)
    ensures
        r == is_blank(line@),
{
    let s = line.as_str();
    let n = s.unicode_len();
    let mut i: usize = 0;
    while i < n
        invariant
            n == line@.len(),
            s@ == line@,
            i <= n,
            forall|k: int| 0 <= k < i ==> is_white_space(#[trigger] line@[k]),
        decreases n - i,
    {
        if !is_white_space_char(s.get_char(i)) {
            return false;
        }
        i = i + 1;
    }
    true
}

fn strip_cr_line(line: String) -> (r: String)
    ensures
        r@ == strip_cr(line@),
{
    let s = line.as_str();
    let n = s.unicode_len();
    if n > 0 && s.get_char(n - 1) == '\r' {
        let t = s.substring_char(0, n - 1);
        assert(t@ =~= line@.drop_last());
        String::from_str(t)
    } else {
        line
    }
}

/// The paths stored in cache content (see [`spec_read_paths`]).
pub fn read_paths(content: &str) -> (r: Vec<String>)
    ensures
        r.deep_view() == spec_read_paths(content@),
{
    let n = content.unicode_len();
    let mut done: Vec<String> = Vec::new();
    let mut cur = String::new();
    let mut i: usize = 0;
    while i < n
        invariant
            n == content@.len(),
            i <= n,
            done.deep_view() == lines_state(content@.take(i as int)).0,
            cur@ == lines_state(content@.take(i as int)).1,
        decreases n - i,
    {
        let c = content.get_char(i);
        proof {
            assert(content@.take(i + 1).drop_last() =~= content@.take(i as int));
        }
        if c == '\n' {
            let line = strip_cr_line(cur);
            if !is_blank_line(&line) {
                let ghost before = done.deep_view();
                let ghost lv = line@;
                done.push(line);
                assert(done.deep_view() =~= before.push(lv));
            }
            cur = String::new();
        } else {
            push_char(&mut cur, c);
        }
        i = i + 1;
    }
    proof {
        assert(content@.take(n as int) =~= content@);
    }
    if !is_blank_line(&cur) {
        let ghost before = done.deep_view();
        let ghost cv = cur@;
        done.push(cur);
        assert(done.deep_view() =~= before.push(cv));
    }
    done
}

/// The cache content for `paths` (see [`spec_write_paths`]).
pub fn write_paths(paths: &Vec<String>) -> (r: String)
    ensures
        r@ == spec_write_paths(paths.deep_view()),
{
    let ghost ps = paths.deep_view();
    let mut r = String::new();
    let mut k: usize = 0;
    while k < paths.len()
        invariant
            ps == paths.deep_view(),
            k <= paths.len(),
            r@ == spec_join_lines(ps.take(k as int)),
        decreases paths.len() - k,
    {
        proof {
            assert(ps.take(k + 1).drop_last() =~= ps.take(k as int));
            assert(ps.take(k + 1).last() == paths[k as int]@);
        }
        if k > 0 {
            push_char(&mut r, '\n');
        }
        r.append(paths[k].as_str());
        proof {
            if k == 0 {
                assert(ps.take(1)[0] == paths[0]@);
                assert(r@ =~= spec_join_lines(ps.take(1)));
            } else {
                assert(r@ =~= spec_join_lines(ps.take(k + 1)));
            }
        }
        k = k + 1;
    }
    proof {
        assert(ps.take(paths.len() as int) =~= ps);
    }
    push_char(&mut r, '\n');
    r
}

/// The cache content recording the root paths of the projects under `root`,
/// in order: those a walk of `root` discovers.
pub fn update_paths(root: &str, projects: &Vec<Project>) -> (r: String)
    ensures
        r@ == spec_write_paths(spec_managed_roots(projects_view(projects@), root@)),
{
    write_paths(&managed_roots(projects, root))
}

// ── Round trip ────────────────────────────────────────────────────────────────

/// A path the cache stores faithfully: not blank, no newline, and no
/// carriage return at its end.
pub open spec fn is_storable_path(p: Seq<char>) -> bool {
    &&& !is_blank(p)
    &&& !p.contains('\n')
    &&& !(p.len() > 0 && p.last() == '\r')
}

/// Reading on through characters with no newline only extends the line being read.
proof fn lemma_lines_no_newline(prefix: Seq<char>, s: Seq<char>)
    requires
        !s.contains('\n'),
    ensures
        lines_state(prefix + s) == (lines_state(prefix).0, lines_state(prefix).1 + s),
    decreases s.len(),
{
    if s.len() == 0 {
        assert(prefix + s =~= prefix);
        assert(lines_state(prefix).1 + s =~= lines_state(prefix).1);
    } else {
        let init = s.drop_last();
        assert(!init.contains('\n')) by {
            if init.contains('\n') {
                let j = choose|j: int| 0 <= j < init.len() && init[j] == '\n';
                assert(s[j] == '\n');
            }
        }
        lemma_lines_no_newline(prefix, init);
        assert((prefix + s).drop_last() =~= prefix + init);
        assert((prefix + s).last() == s.last());
        assert(s.last() != '\n') by {
            assert(s[s.len() - 1] == s.last());
        }
        assert(lines_state(prefix).1 + init.push(s.last()) =~= lines_state(prefix).1 + s);
        assert((lines_state(prefix).1 + init).push(s.last()) =~= lines_state(prefix).1 + s);
    }
}

proof fn lemma_write_state(ps: Seq<Seq<char>>)
    requires
        ps.len() > 0,
        forall|i: int| 0 <= i < ps.len() ==> is_storable_path(#[trigger] ps[i]),
    ensures
        lines_state(spec_write_paths(ps)) == (ps, Seq::<char>::empty()),
    decreases ps.len(),
{
    let p = ps.last();
    assert(is_storable_path(ps[ps.len() - 1]));
    assert(strip_cr(p) == p);
    if ps.len() == 1 {
        assert(spec_join_lines(ps) == p);
        lemma_lines_no_newline(Seq::empty(), p);
        assert(Seq::<char>::empty() + p =~= p);
        assert(lines_state(Seq::<char>::empty()).1 + p =~= p);
        assert(spec_write_paths(ps).drop_last() =~= p);
        assert(seq![p] =~= ps);
    } else {
        let qs = ps.drop_last();
        assert forall|i: int| 0 <= i < qs.len() implies is_storable_path(#[trigger] qs[i]) by {
            assert(qs[i] == ps[i]);
        }
        lemma_write_state(qs);
        let before = spec_write_paths(qs);
        assert(spec_write_paths(ps) =~= before + p + seq!['\n']);
        lemma_lines_no_newline(before, p);
        assert(Seq::<char>::empty() + p =~= p);
        assert(spec_write_paths(ps).drop_last() =~= before + p);
        assert(qs.push(p) =~= ps);
    }
}

/// Reading back what was written for `ps` gives `ps`, when each path is
/// storable (not blank, no newline, no trailing carriage return).
pub proof fn lemma_cache_round_trip(ps: Seq<Seq<char>>)
    requires
        forall|i: int| 0 <= i < ps.len() ==> is_storable_path(#[trigger] ps[i]),
    ensures
        spec_read_paths(spec_write_paths(ps)) == ps,
{
    if ps.len() == 0 {
        assert(spec_write_paths(ps) =~= seq!['\n']);
        assert(seq!['\n'].drop_last() =~= Seq::<char>::empty());
        assert(is_blank(Seq::<char>::empty()));
        assert(lines_state(Seq::<char>::empty()) == (Seq::<Seq<char>>::empty(), Seq::<char>::empty()));
        assert(strip_cr(Seq::<char>::empty()) == Seq::<char>::empty());
        assert(lines_state(seq!['\n']) == (Seq::<Seq<char>>::empty(), Seq::<char>::empty()));
        assert(ps =~= Seq::<Seq<char>>::empty());
    } else {
        lemma_write_state(ps);
        assert(is_blank(Seq::<char>::empty()));
    }
}

// ── Cache file location ───────────────────────────────────────────────────────

/// The hexadecimal digit for `d` (lower case).
pub open spec fn hex_char(d: nat) -> char {
    if d < 10 {
        (('0' as nat) + d) as char
    } else {
        (('a' as nat) + (d - 10)) as char
    }
}

/// The last `n` hexadecimal digits of `h`, zero-padded (`{:0n$x}` for `h < 16^n`).
pub open spec fn hex_digits(h: nat, n: nat) -> Seq<char>
    decreases n,
{
    if n == 0 {
        seq![]
    } else {
        hex_digits(h / 16, (n - 1) as nat).push(hex_char(h % 16))
    }
}

fn hex_char_of(d: u64) -> (c: char)
    requires
        d < 16,
    ensures
        c == hex_char(d as nat),
{
    if d < 10 {
        ((48 + d) as u8) as char
    } else {
        ((87 + d) as u8) as char
    }
}

/// The last `n` hexadecimal digits of `h` (see [`hex_digits`]).
pub fn hex(h: u64, n: u64) -> (r: String)
    ensures
        r@ == hex_digits(h as nat, n as nat),
    decreases n,
{
    if n == 0 {
        return String::new();
    }
    let mut s = hex(h / 16, n - 1);
    push_char(&mut s, hex_char_of(h % 16));
    s
}

/// `16^n`.
pub open spec fn pow16(n: nat) -> nat
    decreases n,
{
    if n == 0 {
        1
    } else {
        16 * pow16((n - 1) as nat)
    }
}

/// `h` divided by 16, `n` times.
pub open spec fn shift16(h: nat, n: nat) -> nat
    decreases n,
{
    if n == 0 {
        h
    } else {
        shift16(h / 16, (n - 1) as nat)
    }
}

proof fn lemma_hex_digits_len(h: nat, n: nat)
    ensures
        hex_digits(h, n).len() == n,
        forall|i: int| 0 <= i < n ==> (#[trigger] hex_digits(h, n)[i]) != '/',
    decreases n,
{
    if n > 0 {
        lemma_hex_digits_len(h / 16, (n - 1) as nat);
        let c = hex_char(h % 16);
        assert(c != '/');
        assert forall|i: int| 0 <= i < n implies (#[trigger] hex_digits(h, n)[i]) != '/' by {
            if i < n - 1 {
                assert(hex_digits(h, n)[i] == hex_digits(h / 16, (n - 1) as nat)[i]);
            }
        }
    }
}

proof fn lemma_shift16_small(h: nat, n: nat)
    requires
        h < pow16(n),
    ensures
        shift16(h, n) == 0,
    decreases n,
{
    if n > 0 {
        let p = pow16((n - 1) as nat);
        assert(h / 16 < p) by (nonlinear_arith)
            requires
                h < 16 * p,
        ;
        lemma_shift16_small(h / 16, (n - 1) as nat);
    }
}

proof fn lemma_hex_digits_injective(a: nat, b: nat, n: nat)
    requires
        hex_digits(a, n) == hex_digits(b, n),
        shift16(a, n) == shift16(b, n),
    ensures
        a == b,
    decreases n,
{
    if n > 0 {
        let da = hex_digits(a, n);
        let db = hex_digits(b, n);
        assert(da.last() == db.last());
        assert(da.drop_last() =~= hex_digits(a / 16, (n - 1) as nat));
        assert(db.drop_last() =~= hex_digits(b / 16, (n - 1) as nat));
        lemma_hex_digits_injective(a / 16, b / 16, (n - 1) as nat);
        assert(a % 16 == b % 16) by {
            let x = a % 16;
            let y = b % 16;
            assert(hex_char(x) == hex_char(y));
            assert(x < 16 && y < 16);
        }
        assert(a == 16 * (a / 16) + a % 16);
        assert(b == 16 * (b / 16) + b % 16);
    }
}

/// Distinct 64-bit values have distinct 16-digit hexadecimal forms.
pub proof fn lemma_hex16_injective(a: u64, b: u64)
    requires
        a != b,
    ensures
        hex_digits(a as nat, 16) != hex_digits(b as nat, 16),
{
    reveal_with_fuel(pow16, 17);
    assert(pow16(16) == 0x1_0000_0000_0000_0000);
    lemma_shift16_small(a as nat, 16);
    lemma_shift16_small(b as nat, 16);
    if hex_digits(a as nat, 16) == hex_digits(b as nat, 16) {
        lemma_hex_digits_injective(a as nat, b as nat, 16);
    }
}

/// The cache file under `home` for the root whose hash is `hash`.
pub open spec fn spec_cache_file(home: Seq<char>, hash: u64) -> Seq<char> {
    spec_join(spec_join(home, ".cache/vscode-pmu"@), hex_digits(hash as nat, 16) + ".cache"@)
}

/// The hash of a root path string: the `DefaultHasher` result after writing
/// its bytes and a final `0xff`, as `str`'s `Hash` does.
pub open spec fn spec_root_hash(root: Seq<char>) -> u64 {
    DefaultHasher::spec_finish(seq![encode_utf8(root), seq![0xffu8]])
}

/// Roots with different hashes get different cache files.
pub proof fn lemma_cache_files_distinct(home: Seq<char>, h1: u64, h2: u64)
    requires
        h1 != h2,
    ensures
        spec_cache_file(home, h1) != spec_cache_file(home, h2),
{
    let dir = spec_join(home, ".cache/vscode-pmu"@);
    let x1 = hex_digits(h1 as nat, 16);
    let x2 = hex_digits(h2 as nat, 16);
    let n1 = x1 + ".cache"@;
    let n2 = x2 + ".cache"@;
    lemma_hex16_injective(h1, h2);
    lemma_hex_digits_len(h1 as nat, 16);
    lemma_hex_digits_len(h2 as nat, 16);
    assert(n1[0] == x1[0] && n2[0] == x2[0]);
    let f1 = spec_cache_file(home, h1);
    let f2 = spec_cache_file(home, h2);
    let pre = if dir.len() > 0 && dir.last() != '/' { dir + seq!['/'] } else { dir };
    assert(f1 == pre + n1);
    assert(f2 == pre + n2);
    if f1 == f2 {
        assert((pre + n1).subrange(pre.len() as int, pre.len() + 16int) =~= x1);
        assert((pre + n2).subrange(pre.len() as int, pre.len() + 16int) =~= x2);
    }
}

fn root_hash(root: &str) -> (r: u64)
    ensures
        r == spec_root_hash(root@),
{
    let mut hasher = DefaultHasher::new();
    hasher.write(root.as_bytes());
    let ghost first = hasher@;
    let end: [u8; 1] = [0xff];
    let tail = end.as_slice();
    assert(tail@ =~= seq![0xffu8]);
    hasher.write(tail);
    assert(hasher@ =~= seq![encode_utf8(root@), seq![0xffu8]]);
    hasher.finish()
}

/// The cache file for `root` under `home`: named after the hash of the
/// root's normal form.
pub open spec fn spec_cache_path(home: Seq<char>, root: Seq<char>) -> Seq<char> {
    spec_cache_file(home, spec_root_hash(spec_normalize(root)))
}

/// Two spellings of one root (the same components) share a cache file.
pub proof fn lemma_cache_path_same_root(home: Seq<char>, r1: Seq<char>, r2: Seq<char>)
    requires
        spec_components(r1) == spec_components(r2),
    ensures
        spec_cache_path(home, r1) == spec_cache_path(home, r2),
{
    lemma_normalize_components(r1, r2);
}

/// The cache file for `root` under `home`: a name made of the hex-encoded
/// hash of the root's normal form, so that distinct roots have their own
/// caches and two spellings of one root share one.
pub fn cache_path_in(home: &str, root: &str) -> (r: String)
    ensures
        r@ == spec_cache_path(home@, root@),
{
    let dir = join(home, ".cache/vscode-pmu");
    let canonical = normalize(root);
    let mut name = hex(root_hash(canonical.as_str()), 16);
    name.append(".cache");
    join(dir.as_str(), name.as_str())
}

/// The cache file for `root`, or nothing when the home directory is unknown.
pub fn cache_path_for(root: &str) -> (r: Option<String>)
    ensures
        r matches Some(p) ==> exists|h: Seq<char>| h.len() > 0 && p@ == spec_cache_path(h, root@),
{
    match home_dir() {
        Some(h) => Some(cache_path_in(h.as_str(), root)),
        None => None,
    }
}

} // verus!
