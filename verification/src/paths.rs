//! A model of Unix path components, with the operations the library needs:
//! splitting into components, stripping a base path, joining, and the file name.
use vstd::prelude::*;

verus! {

/// A run of characters between separators that counts as a component:
/// empty runs (repeated or trailing `/`) and `.` are normalised away.
pub open spec fn is_kept_segment(seg: Seq<char>) -> bool {
    seg.len() > 0 && seg != seq!['.']
}

pub open spec fn keep_segment(done: Seq<Seq<char>>, seg: Seq<char>) -> Seq<Seq<char>> {
    if is_kept_segment(seg) {
        done.push(seg)
    } else {
        done
    }
}

/// Reading a path from left to right: the segments completed so far and the
/// segment being read.
pub open spec fn split_state(p: Seq<char>) -> (Seq<Seq<char>>, Seq<char>)
    decreases p.len(),
{
    if p.len() == 0 {
        (seq![], seq![])
    } else {
        let prev = split_state(p.drop_last());
        if p.last() == '/' {
            (keep_segment(prev.0, prev.1), seq![])
        } else {
            (prev.0, prev.1.push(p.last()))
        }
    }
}

/// The segments of `p` between `/` separators, without empty ones and without `.`.
pub open spec fn spec_segments(p: Seq<char>) -> Seq<Seq<char>> {
    keep_segment(split_state(p).0, split_state(p).1)
}

pub open spec fn spec_has_root(p: Seq<char>) -> bool {
    p.len() > 0 && p[0] == '/'
}

/// A relative path that begins with the current directory, `.` or `./…`.
pub open spec fn spec_starts_with_cur_dir(p: Seq<char>) -> bool {
    &&& p.len() > 0
    &&& p[0] == '.'
    &&& (p.len() == 1 || p[1] == '/')
}

/// The components of a Unix path, each as its string: the root `/` first when
/// the path is absolute, a leading `.` when a relative path starts with it,
/// then the segments. `..` stays a component of its own.
pub open spec fn spec_components(p: Seq<char>) -> Seq<Seq<char>> {
    (if spec_has_root(p) {
        seq![seq!['/']]
    } else if spec_starts_with_cur_dir(p) {
        seq![seq!['.']]
    } else {
        Seq::<Seq<char>>::empty()
    }) + spec_segments(p)
}

/// The components of `p` after those of `base`, when `base`'s components are
/// a prefix of `p`'s (`Path::strip_prefix` followed by `components`).
pub open spec fn spec_relative(p: Seq<char>, base: Seq<char>) -> Option<Seq<Seq<char>>> {
    let pc = spec_components(p);
    let bc = spec_components(base);
    if bc.len() <= pc.len() && pc.take(bc.len() as int) == bc {
        Some(pc.skip(bc.len() as int))
    } else {
        None
    }
}

/// `Path::starts_with`: `base`'s components are a prefix of `p`'s.
pub open spec fn spec_starts_with(p: Seq<char>, base: Seq<char>) -> bool {
    spec_relative(p, base) is Some
}

/// `PathBuf::push` on Unix: an absolute `b` replaces `a`; otherwise a `/` is
/// put between them unless `a` is empty or already ends with one.
pub open spec fn spec_join(a: Seq<char>, b: Seq<char>) -> Seq<char> {
    if spec_has_root(b) {
        b
    } else if a.len() > 0 && a.last() != '/' {
        a + seq!['/'] + b
    } else {
        a + b
    }
}

/// The path made of `comps` pushed one after another onto an empty path
/// (collecting components into a `PathBuf`).
pub open spec fn spec_join_all(comps: Seq<Seq<char>>) -> Seq<char>
    decreases comps.len(),
{
    if comps.len() == 0 {
        seq![]
    } else {
        spec_join(spec_join_all(comps.drop_last()), comps.last())
    }
}

/// The normal form of a path: its components joined again, so that repeated
/// and trailing separators and `.` segments are gone.
pub open spec fn spec_normalize(p: Seq<char>) -> Seq<char> {
    spec_join_all(spec_components(p))
}

/// Paths with the same components have the same normal form.
pub proof fn lemma_normalize_components(a: Seq<char>, b: Seq<char>)
    requires
        spec_components(a) == spec_components(b),
    ensures
        spec_normalize(a) == spec_normalize(b),
{
}

/// `Path::file_name`: the last component when it is a normal one, else nothing.
pub open spec fn spec_file_name(p: Seq<char>) -> Option<Seq<char>> {
    let segs = spec_segments(p);
    if segs.len() > 0 && segs.last() != seq!['.', '.'] {
        Some(segs.last())
    } else {
        None
    }
}

/// Appends one character to a string: `String::push`, which the contract
/// takes to add `c` at the end and change nothing else.
#[verifier::external_body]
pub(crate) fn push_char(s: &mut String, c: char)
    ensures
        final(s)@ == old(s)@.push(c),
{
    s.push(c)
}

/// Whether two string slices hold the same characters: `str`'s `==`, which
/// the contract takes to compare the character sequences.
#[verifier::external_body]
pub(crate) fn str_eq(a: &str, b: &str) -> (r: bool)
    ensures
        r == (a@ == b@),
{
    a == b
}

fn is_dot(seg: &String) -> (r: bool)
    ensures
        r == (seg@ == seq!['.']),
{
    let n = seg.as_str().unicode_len();
    if n == 1 {
        let c = seg.as_str().get_char(0);
        if c == '.' {
            assert(seg@ =~= seq!['.']);
            true
        } else {
            false
        }
    } else {
        false
    }
}

/// The segments of a path (see [`spec_segments`]).
pub fn segments(p: &str) -> (r: Vec<String>)
    ensures
        r.deep_view() == spec_segments(p@),
{
    let n = p.unicode_len();
    let mut done: Vec<String> = Vec::new();
    let mut cur = String::new();
    let mut i: usize = 0;
    while i < n
        invariant
            n == p@.len(),
            i <= n,
            done.deep_view() == split_state(p@.take(i as int)).0,
            cur@ == split_state(p@.take(i as int)).1,
        decreases n - i,
    {
        let c = p.get_char(i);
        proof {
            assert(p@.take(i + 1).drop_last() == p@.take(i as int));
        }
        if c == '/' {
            if cur.as_str().unicode_len() > 0 && !is_dot(&cur) {
                done.push(cur);
            }
            cur = String::new();
        } else {
            push_char(&mut cur, c);
        }
        i = i + 1;
    }
    proof {
        assert(p@.take(n as int) == p@);
    }
    let ghost done_before = done.deep_view();
    let ghost last = cur@;
    if cur.as_str().unicode_len() > 0 && !is_dot(&cur) {
        done.push(cur);
        assert(done.deep_view() =~= done_before.push(last));
    }
    done
}

/// Splits a path into its components (see [`spec_components`]).
pub fn components(p: &str) -> (r: Vec<String>)
    ensures
        r.deep_view() == spec_components(p@),
{
    let n = p.unicode_len();
    let done = segments(p);
    let mut r: Vec<String> = Vec::new();
    if n > 0 && p.get_char(0) == '/' {
        proof {
            reveal_strlit("/");
        }
        let root = String::from_str("/");
        assert(root@ =~= seq!['/']);
        r.push(root);
        assert(r.deep_view() =~= seq![seq!['/']]);
    } else if n > 0 && p.get_char(0) == '.' && (n == 1 || p.get_char(1) == '/') {
        proof {
            reveal_strlit(".");
        }
        let root = String::from_str(".");
        assert(root@ =~= seq!['.']);
        r.push(root);
        assert(r.deep_view() =~= seq![seq!['.']]);
    } else {
        assert(r.deep_view() =~= Seq::<Seq<char>>::empty());
    }
    let ghost prefix = r.deep_view();
    let mut j: usize = 0;
    while j < done.len()
        invariant
            r.deep_view() == prefix + done.deep_view().take(j as int),
            j <= done.len(),
        decreases done.len() - j,
    {
        let ghost before = r.deep_view();
        r.push(done[j].clone());
        proof {
            assert(r.deep_view() =~= before.push(done[j as int]@));
            assert(done.deep_view().take(j + 1) =~= done.deep_view().take(j as int).push(done[j as int]@));
        }
        j = j + 1;
    }
    proof {
        assert(done.deep_view().take(done.len() as int) == done.deep_view());
    }
    r
}

/// Whether the first `len` strings of `a` and `b` are the same.
pub fn same_prefix(a: &Vec<String>, b: &Vec<String>, len: usize) -> (r: bool)
    requires
        len <= a.len(),
        len <= b.len(),
    ensures
        r == (a.deep_view().take(len as int) == b.deep_view().take(len as int)),
{
    let mut i: usize = 0;
    while i < len
        invariant
            len <= a.len(),
            len <= b.len(),
            i <= len,
            forall|k: int| 0 <= k < i ==> a[k]@ == b[k]@,
        decreases len - i,
    {
        if a[i] != b[i] {
            assert(a.deep_view().take(len as int)[i as int] != b.deep_view().take(len as int)[i as int]);
            return false;
        }
        i = i + 1;
    }
    assert(a.deep_view().take(len as int) =~= b.deep_view().take(len as int));
    true
}

/// The components of `p` below `base` (see [`spec_relative`]).
pub fn relative_components(p: &str, base: &str) -> (r: Option<Vec<String>>)
    ensures
        match r {
            Some(v) => spec_relative(p@, base@) == Some(v.deep_view()),
            None => spec_relative(p@, base@) is None,
        },
{
    let pc = components(p);
    let bc = components(base);
    proof {
        assert(bc.deep_view().take(bc.len() as int) =~= bc.deep_view());
    }
    if bc.len() > pc.len() || !same_prefix(&pc, &bc, bc.len()) {
        return None;
    }
    let mut rest: Vec<String> = Vec::new();
    let mut j: usize = bc.len();
    while j < pc.len()
        invariant
            bc.len() <= j <= pc.len(),
            rest.deep_view() == pc.deep_view().subrange(bc.len() as int, j as int),
        decreases pc.len() - j,
    {
        let ghost before = rest.deep_view();
        rest.push(pc[j].clone());
        proof {
            assert(rest.deep_view() =~= before.push(pc[j as int]@));
            assert(rest.deep_view() =~= pc.deep_view().subrange(bc.len() as int, j + 1));
        }
        j = j + 1;
    }
    Some(rest)
}

/// `Path::starts_with` (see [`spec_starts_with`]).
pub fn starts_with(p: &str, base: &str) -> (r: bool)
    ensures
        r == spec_starts_with(p@, base@),
{
    let pc = components(p);
    let bc = components(base);
    proof {
        assert(bc.deep_view().take(bc.len() as int) =~= bc.deep_view());
    }
    bc.len() <= pc.len() && same_prefix(&pc, &bc, bc.len())
}

/// The first component of `p` below `base`, or the empty string when `p` is
/// not below `base` or is `base` itself.
pub open spec fn spec_first_below(p: Seq<char>, base: Seq<char>) -> Seq<char> {
    match spec_relative(p, base) {
        Some(rel) => if rel.len() > 0 { rel[0] } else { Seq::empty() },
        None => Seq::empty(),
    }
}

/// The first component of `p` below `base` (see [`spec_first_below`]).
pub fn first_below(p: &str, base: &str) -> (r: String)
    ensures
        r@ == spec_first_below(p@, base@),
{
    match relative_components(p, base) {
        Some(rel) => {
            if rel.len() > 0 {
                rel[0].clone()
            } else {
                String::new()
            }
        },
        None => String::new(),
    }
}

/// Joins two paths (see [`spec_join`]).
pub fn join(a: &str, b: &str) -> (r: String)
    ensures
        r@ == spec_join(a@, b@),
{
    let nb = b.unicode_len();
    if nb > 0 && b.get_char(0) == '/' {
        return String::from_str(b);
    }
    let na = a.unicode_len();
    let mut r = String::from_str(a);
    if na > 0 && a.get_char(na - 1) != '/' {
        proof {
            reveal_strlit("/");
        }
        r.append("/");
        assert("/"@ =~= seq!['/']);
    }
    r.append(b);
    r
}

/// The normal form of a path (see [`spec_normalize`]).
pub fn normalize(p: &str) -> (r: String)
    ensures
        r@ == spec_normalize(p@),
{
    let comps = components(p);
    let ghost cs = comps.deep_view();
    let mut r = String::new();
    let mut k: usize = 0;
    while k < comps.len()
        invariant
            cs == comps.deep_view(),
            k <= comps.len(),
            r@ == spec_join_all(cs.take(k as int)),
        decreases comps.len() - k,
    {
        proof {
            assert(cs.take(k + 1).drop_last() =~= cs.take(k as int));
            assert(cs.take(k + 1).last() == comps[k as int]@);
        }
        r = join(r.as_str(), comps[k].as_str());
        k = k + 1;
    }
    proof {
        assert(cs.take(comps.len() as int) =~= cs);
    }
    r
}

/// The file name of a path (see [`spec_file_name`]).
pub fn file_name(p: &str) -> (r: Option<String>)
    ensures
        match r {
            Some(s) => spec_file_name(p@) == Some(s@),
            None => spec_file_name(p@) is None,
        },
{
    let segs = segments(p);
    let n = segs.len();
    if n == 0 {
        return None;
    }
    let last = segs[n - 1].clone();
    let k = last.as_str().unicode_len();
    if k == 2 && last.as_str().get_char(0) == '.' && last.as_str().get_char(1) == '.' {
        assert(last@ =~= seq!['.', '.']);
        None
    } else {
        Some(last)
    }
}

/// Whether `v` holds a string equal to `t`.
pub fn contains_str(v: &Vec<String>, t: &String) -> (r: bool)
    ensures
        r == v.deep_view().contains(t@),
{
    let mut k: usize = 0;
    while k < v.len()
        invariant
            k <= v.len(),
            forall|j: int| 0 <= j < k ==> v[j]@ != t@,
        decreases v.len() - k,
    {
        if v[k] == *t {
            assert(v.deep_view()[k as int] == t@);
            return true;
        }
        k = k + 1;
    }
    assert forall|j: int| 0 <= j < v.deep_view().len() implies v.deep_view()[j] != t@ by {
        assert(v.deep_view()[j] == v[j]@);
    }
    false
}

/// The current user's home directory: `dirs::home_dir`, converted with
/// `to_string_lossy`.
///
/// What it returns depends on the environment (`$HOME`, else the password
/// database); the contract states only that a directory it returns is not
/// empty, since both sources are skipped when empty.
#[verifier::external_body]
pub(crate) fn home_dir() -> (r: Option<String>)
    ensures
        r matches Some(h) ==> h@.len() > 0,
{
    match dirs::home_dir() {
        Some(p) => Some(p.to_string_lossy().into_owned()),
        None => None,
    }
}

} // verus!
