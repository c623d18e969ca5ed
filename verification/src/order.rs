//! The order of strings by their characters, and sorting by it.
use vstd::prelude::*;

verus! {

/// Strings compared character by character (by Unicode scalar value); a
/// proper prefix comes first.
pub open spec fn seq_lt(a: Seq<char>, b: Seq<char>) -> bool
    decreases a.len(),
{
    if a.len() == 0 {
        b.len() > 0
    } else if b.len() == 0 {
        false
    } else if a[0] != b[0] {
        (a[0] as int) < (b[0] as int)
    } else {
        seq_lt(a.drop_first(), b.drop_first())
    }
}

proof fn lemma_seq_lt_irreflexive(a: Seq<char>)
    ensures
        !seq_lt(a, a),
    decreases a.len(),
{
    if a.len() > 0 {
        lemma_seq_lt_irreflexive(a.drop_first());
    }
}

proof fn lemma_seq_lt_asymmetric(a: Seq<char>, b: Seq<char>)
    ensures
        !(seq_lt(a, b) && seq_lt(b, a)),
    decreases a.len(),
{
    if a.len() > 0 && b.len() > 0 {
        lemma_seq_lt_asymmetric(a.drop_first(), b.drop_first());
    }
}

proof fn lemma_seq_lt_total(a: Seq<char>, b: Seq<char>)
    ensures
        a != b ==> seq_lt(a, b) || seq_lt(b, a),
    decreases a.len(),
{
    if a.len() > 0 && b.len() > 0 && a[0] == b[0] {
        lemma_seq_lt_total(a.drop_first(), b.drop_first());
        if a.drop_first() == b.drop_first() {
            assert(a =~= seq![a[0]] + a.drop_first());
            assert(b =~= seq![b[0]] + b.drop_first());
        }
    } else if a.len() == 0 && b.len() == 0 {
        assert(a =~= b);
    } else if a.len() > 0 && b.len() > 0 {
        assert((a[0] as int) != (b[0] as int));
    }
}

proof fn lemma_seq_lt_transitive(a: Seq<char>, b: Seq<char>, c: Seq<char>)
    ensures
        seq_lt(a, b) && seq_lt(b, c) ==> seq_lt(a, c),
    decreases a.len(),
{
    if a.len() > 0 && b.len() > 0 && c.len() > 0 && a[0] == b[0] && b[0] == c[0] {
        lemma_seq_lt_transitive(a.drop_first(), b.drop_first(), c.drop_first());
    }
}

/// `seq_lt` is a strict total order.
pub proof fn lemma_seq_lt_order(a: Seq<char>, b: Seq<char>, c: Seq<char>)
    ensures
        !seq_lt(a, a),
        !(seq_lt(a, b) && seq_lt(b, a)),
        a != b ==> seq_lt(a, b) || seq_lt(b, a),
        seq_lt(a, b) && seq_lt(b, c) ==> seq_lt(a, c),
{
    lemma_seq_lt_irreflexive(a);
    lemma_seq_lt_asymmetric(a, b);
    lemma_seq_lt_total(a, b);
    lemma_seq_lt_transitive(a, b, c);
}

/// Whether `a` comes before `b` (see [`seq_lt`]).
pub fn str_lt(a: &str, b: &str) -> (r: bool)
    ensures
        r == seq_lt(a@, b@),
{
    let na = a.unicode_len();
    let nb = b.unicode_len();
    let mut i: usize = 0;
    assert(a@.skip(0) =~= a@ && b@.skip(0) =~= b@);
    while i < na && i < nb
        invariant
            na == a@.len(),
            nb == b@.len(),
            i <= na,
            i <= nb,
            seq_lt(a@, b@) == seq_lt(a@.skip(i as int), b@.skip(i as int)),
        decreases na - i,
    {
        let ca = a.get_char(i);
        let cb = b.get_char(i);
        assert(a@.skip(i as int)[0] == ca && b@.skip(i as int)[0] == cb);
        if ca != cb {
            return (ca as u32) < (cb as u32);
        }
        assert(a@.skip(i as int).drop_first() =~= a@.skip(i + 1));
        assert(b@.skip(i as int).drop_first() =~= b@.skip(i + 1));
        i = i + 1;
    }
    assert(a@.skip(i as int).len() == na - i);
    assert(b@.skip(i as int).len() == nb - i);
    i == na && i < nb
}

/// No later string comes before an earlier one.
pub open spec fn is_sorted(s: Seq<Seq<char>>) -> bool {
    forall|i: int, j: int| 0 <= i < j < s.len() ==> !seq_lt(#[trigger] s[j], #[trigger] s[i])
}

/// The strings of `v` in order (stable for equal strings).
pub fn sorted_strings(v: &Vec<String>) -> (r: Vec<String>)
    ensures
        is_sorted(r.deep_view()),
        r.deep_view().to_multiset() == v.deep_view().to_multiset(),
{
    broadcast use vstd::seq_lib::group_to_multiset_ensures;
    let ghost src = v.deep_view();
    let mut r: Vec<String> = Vec::new();
    let mut k: usize = 0;
    while k < v.len()
        invariant
            src == v.deep_view(),
            k <= v.len(),
            is_sorted(r.deep_view()),
            r.deep_view().to_multiset() == src.take(k as int).to_multiset(),
        decreases v.len() - k,
    {
        let x = &v[k];
        let mut pos: usize = 0;
        while pos < r.len() && !str_lt(x.as_str(), r[pos].as_str())
            invariant
                pos <= r.len(),
                forall|i: int| 0 <= i < pos ==> !seq_lt(x@, #[trigger] r.deep_view()[i]),
            decreases r.len() - pos,
        {
            pos = pos + 1;
        }
        let ghost before = r.deep_view();
        r.insert(pos, x.clone());
        proof {
            assert(r.deep_view() =~= before.insert(pos as int, x@));
            assert(src.take(k + 1) =~= src.take(k as int).push(x@));
            vstd::seq_lib::to_multiset_build(src.take(k as int), x@);
            vstd::seq_lib::to_multiset_insert(before, pos as int, x@);
            let rv = r.deep_view();
            assert forall|i: int, j: int| 0 <= i < j < rv.len() implies !seq_lt(#[trigger] rv[j], #[trigger] rv[i]) by {
                if i < pos && j == pos {
                } else if i == pos && j > pos {
                    // x comes before before[pos], which is not after before[j - 1].
                    assert(rv[j] == before[j - 1]);
                    lemma_seq_lt_order(x@, before[pos as int], before[j - 1]);
                    lemma_seq_lt_order(before[j - 1], before[pos as int], x@);
                    if j - 1 > pos {
                        assert(!seq_lt(before[j - 1], before[pos as int]));
                    }
                    lemma_seq_lt_order(rv[j], x@, before[pos as int]);
                    if before[j - 1] == before[pos as int] {
                    }
                } else {
                    let ii = if i < pos { i } else { i - 1 };
                    let jj = if j < pos { j } else { j - 1 };
                    assert(rv[i] == before[ii]);
                    assert(rv[j] == before[jj]);
                    if i < pos && j > pos {
                        lemma_seq_lt_order(before[jj], x@, before[ii]);
                        lemma_seq_lt_order(x@, before[jj], before[ii]);
                        if pos < before.len() {
                            lemma_seq_lt_order(x@, before[pos as int], before[jj]);
                            lemma_seq_lt_order(before[jj], before[pos as int], x@);
                        }
                    }
                }
            }
        }
        k = k + 1;
    }
    proof {
        assert(src.take(v.len() as int) =~= src);
    }
    r
}

} // verus!
