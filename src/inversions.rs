use vstd::prelude::*;

verus! {

/// Number of entries of `p` whose key is below the key of `x`.
pub open spec fn count_lower<A>(p: Seq<A>, x: A, key: spec_fn(A) -> int) -> nat
    decreases p.len(),
{
    if p.len() == 0 {
        0
    } else {
        count_lower(p.drop_last(), x, key) + if key(p.last()) < key(x) {
            1nat
        } else {
            0nat
        }
    }
}

/// Pairs of positions `i < j` with `key(t[i]) < key(t[j])`: the exchanges of adjacent entries
/// that sorting `t` into descending order of keys needs.
pub open spec fn inversions_by<A>(t: Seq<A>, key: spec_fn(A) -> int) -> nat
    decreases t.len(),
{
    if t.len() == 0 {
        0
    } else {
        inversions_by(t.drop_last(), key) + count_lower(t.drop_last(), t.last(), key)
    }
}

proof fn lemma_count_lower_swap<A>(p: Seq<A>, k: int, x: A, key: spec_fn(A) -> int)
    requires
        0 <= k < k + 1 < p.len(),
    ensures
        count_lower(p.update(k, p[k + 1]).update(k + 1, p[k]), x, key) == count_lower(p, x, key),
    decreases p.len(),
{
    let q = p.update(k, p[k + 1]).update(k + 1, p[k]);
    if k + 1 < p.len() - 1 {
        lemma_count_lower_swap(p.drop_last(), k, x, key);
        assert(q.drop_last() =~= p.drop_last().update(k, p[k + 1]).update(k + 1, p[k]));
        assert(q.last() == p.last());
    } else {
        let r = p.drop_last().drop_last();
        assert(q.drop_last().drop_last() =~= r);
        assert(p.drop_last().drop_last() =~= r);
        assert(q.last() == p[k] && q.drop_last().last() == p[k + 1]);
        assert(p.last() == p[k + 1] && p.drop_last().last() == p[k]);
        assert(count_lower(q.drop_last(), x, key) == count_lower(r, x, key) + if key(p[k + 1])
            < key(x) {
            1nat
        } else {
            0nat
        });
        assert(count_lower(p.drop_last(), x, key) == count_lower(r, x, key) + if key(p[k]) < key(
            x,
        ) {
            1nat
        } else {
            0nat
        });
    }
}

/// Exchanging an adjacent pair whose keys ascend removes exactly one inversion.
pub proof fn lemma_swap_removes_inversion<A>(p: Seq<A>, k: int, key: spec_fn(A) -> int)
    requires
        0 <= k < k + 1 < p.len(),
        key(p[k]) < key(p[k + 1]),
    ensures
        inversions_by(p.update(k, p[k + 1]).update(k + 1, p[k]), key) + 1 == inversions_by(p, key),
    decreases p.len(),
{
    let q = p.update(k, p[k + 1]).update(k + 1, p[k]);
    if k + 1 < p.len() - 1 {
        lemma_swap_removes_inversion(p.drop_last(), k, key);
        assert(q.drop_last() =~= p.drop_last().update(k, p[k + 1]).update(k + 1, p[k]));
        lemma_count_lower_swap(p.drop_last(), k, p.last(), key);
    } else {
        let r = p.drop_last().drop_last();
        assert(q.drop_last().drop_last() =~= r);
        assert(p.drop_last().drop_last() =~= r);
        assert(q.drop_last() =~= r.push(p[k + 1]));
        assert(p.drop_last() =~= r.push(p[k]));
        assert(r.push(p[k + 1]).drop_last() =~= r);
        assert(r.push(p[k]).drop_last() =~= r);
        assert(q.last() == p[k] && p.last() == p[k + 1]);
        assert(inversions_by(q.drop_last(), key) == inversions_by(r, key) + count_lower(
            r,
            p[k + 1],
            key,
        ));
        assert(inversions_by(p.drop_last(), key) == inversions_by(r, key) + count_lower(
            r,
            p[k],
            key,
        ));
        assert(count_lower(q.drop_last(), p[k], key) == count_lower(r, p[k], key));
        assert(count_lower(p.drop_last(), p[k + 1], key) == count_lower(r, p[k + 1], key) + 1);
    }
}

proof fn lemma_count_lower_none<A>(p: Seq<A>, x: A, key: spec_fn(A) -> int)
    requires
        forall|i: int| 0 <= i < p.len() ==> key(p[i]) >= key(x),
    ensures
        count_lower(p, x, key) == 0,
    decreases p.len(),
{
    if p.len() > 0 {
        lemma_count_lower_none(p.drop_last(), x, key);
    }
}

/// A sequence whose keys never increase has no inversions.
pub proof fn lemma_descending_no_inversions<A>(t: Seq<A>, key: spec_fn(A) -> int)
    requires
        forall|i: int, j: int| 0 <= i < j < t.len() ==> key(t[i]) >= key(t[j]),
    ensures
        inversions_by(t, key) == 0,
    decreases t.len(),
{
    if t.len() > 0 {
        lemma_descending_no_inversions(t.drop_last(), key);
        lemma_count_lower_none(t.drop_last(), t.last(), key);
    }
}

} // verus!
