use vstd::prelude::*;
use crate::fermion::{FermionAction, action_key, balanced, creations, is_normal_ordered};
use crate::inversions::{inversions_by, lemma_descending_no_inversions, lemma_swap_removes_inversion};
use crate::terms::Terms;

verus! {

/// Keys strictly descend on positions `lo..hi`.
pub open spec fn descending_on(t: Seq<FermionAction>, lo: int, hi: int) -> bool {
    forall|a: int, b: int| lo <= a < b < hi ==> action_key(t[a]) > action_key(t[b])
}

/// The key by which actions are sorted into normal order.
pub open spec fn normal_key() -> spec_fn(FermionAction) -> int {
    |a: FermionAction| action_key(a)
}

/// Pairs of positions `i < j` whose actions are out of normal order. Exchanging two distinct
/// adjacent fermionic actions flips the sign, so sorting a term without repeats into normal
/// order picks up the sign `(-1)^inversions`.
pub open spec fn key_inversions(t: Seq<FermionAction>) -> nat {
    inversions_by(t, normal_key())
}

/// A swap of two adjacent positions keeps the elements and their distinctness.
proof fn lemma_swap_keeps(before: Seq<FermionAction>, after: Seq<FermionAction>, j: int)
    requires
        1 <= j < before.len(),
        after == before.update(j - 1, before[j]).update(j, before[j - 1]),
    ensures
        after.to_multiset() == before.to_multiset(),
        before.no_duplicates() ==> after.no_duplicates(),
{
    let hi = before[j];
    let lo = before[j - 1];
    vstd::seq_lib::to_multiset_update(before, j - 1, hi);
    vstd::seq_lib::to_multiset_update(before.update(j - 1, hi), j, lo);
    assert(before.update(j - 1, hi)[j] == hi);
    assert(before.to_multiset().insert(hi).remove(lo).insert(lo).remove(hi) =~= before.to_multiset())
        by {
        broadcast use vstd::multiset::group_multiset_axioms;
        assert(before.to_multiset().contains(lo)) by {
            broadcast use vstd::seq_lib::to_multiset_contains;
            assert(before.contains(lo)) by { assert(before[j - 1] == lo); }
        }
    }
    if before.no_duplicates() {
        assert forall|a: int, b: int| 0 <= a < after.len() && 0 <= b < after.len() && a != b implies after[a]
            != after[b] by {
            let pa = if a == j - 1 { j } else if a == j { j - 1 } else { a };
            let pb = if b == j - 1 { j } else if b == j { j - 1 } else { b };
            assert(after[a] == before[pa] && after[b] == before[pb]);
        }
    }
}

/// What every term that normal ordering emits for the input term `src` satisfies: it is in
/// normal order, and it lacks as many creations as annihilations of `src` (each contraction
/// removes one of each), so that it changes the particle number as `src` does.
pub open spec fn ordered_output(e: (bool, Seq<FermionAction>), src: Seq<FermionAction>) -> bool {
    &&& is_normal_ordered(e.1)
    &&& e.1.len() <= src.len()
    &&& (src.len() - e.1.len()) % 2 == 0
    &&& creations(src) - creations(e.1) == (src.len() - e.1.len()) / 2
}

proof fn lemma_creations_concat(a: Seq<FermionAction>, b: Seq<FermionAction>)
    ensures
        creations(a + b) == creations(a) + creations(b),
    decreases b.len(),
{
    if b.len() > 0 {
        lemma_creations_concat(a, b.drop_last());
        assert((a + b).drop_last() =~= a + b.drop_last());
        assert((a + b).last() == b.last());
    } else {
        assert(a + b =~= a);
    }
}

proof fn lemma_creations_pair(x: FermionAction, y: FermionAction)
    ensures
        creations(seq![x, y]) == creations(seq![y, x]),
        creations(seq![x, y]) == (if x.0 { 1nat } else { 0nat }) + (if y.0 { 1nat } else { 0nat }),
{
    reveal_with_fuel(creations, 3);
    assert(seq![x, y].drop_last() =~= seq![x]);
    assert(seq![y, x].drop_last() =~= seq![y]);
    assert(seq![x].drop_last() =~= Seq::<FermionAction>::empty());
    assert(seq![y].drop_last() =~= Seq::<FermionAction>::empty());
}

/// Exchanging two adjacent actions keeps the number of creations; taking out an adjacent
/// annihilation and creation removes one.
proof fn lemma_creations_local(t: Seq<FermionAction>, j: int)
    requires
        1 <= j < t.len(),
    ensures
        creations(t.update(j - 1, t[j]).update(j, t[j - 1])) == creations(t),
        !t[j - 1].0 && t[j].0 ==> creations(t.subrange(0, j - 1) + t.subrange(j + 1, t.len() as int)) + 1
            == creations(t),
{
    let pre = t.subrange(0, j - 1);
    let post = t.subrange(j + 1, t.len() as int);
    let u = t.update(j - 1, t[j]).update(j, t[j - 1]);
    assert(t =~= pre + seq![t[j - 1], t[j]] + post);
    assert(u =~= pre + seq![t[j], t[j - 1]] + post);
    lemma_creations_concat(pre + seq![t[j - 1], t[j]], post);
    lemma_creations_concat(pre + seq![t[j], t[j - 1]], post);
    lemma_creations_concat(pre, seq![t[j - 1], t[j]]);
    lemma_creations_concat(pre, seq![t[j], t[j - 1]]);
    lemma_creations_concat(pre, post);
    lemma_creations_pair(t[j - 1], t[j]);
}

/// One step of the insertion pass keeps the sorted regions sorted: the action at `j` moves left
/// past a lower one, or stays where it is.
proof fn lemma_insert_step(before: Seq<FermionAction>, after: Seq<FermionAction>, j: int, i: int)
    requires
        1 <= j <= i < before.len(),
        action_key(before[j]) != action_key(before[j - 1]),
        after == if action_key(before[j]) > action_key(before[j - 1]) {
            before.update(j - 1, before[j]).update(j, before[j - 1])
        } else {
            before
        },
        descending_on(before, 0, j),
        descending_on(before, j, i + 1),
        forall|a: int, b: int| 0 <= a < j < b <= i ==> action_key(before[a]) > action_key(before[b]),
    ensures
        after.len() == before.len(),
        descending_on(after, 0, j - 1),
        descending_on(after, j - 1, i + 1),
        forall|a: int, b: int| 0 <= a < j - 1 < b <= i ==> action_key(after[a]) > action_key(after[b]),
{
}

/// The state of one insertion pass over a branch: the actions as rearranged so far, whether
/// the sign has flipped, whether two equal actions met, and the contractions met so far, each
/// with the sign at which it was met.
pub type PassState = (Seq<FermionAction>, bool, bool, Seq<(bool, Seq<FermionAction>)>);

/// The actions with positions `j - 1` and `j` exchanged.
pub open spec fn swapped(t: Seq<FermionAction>, j: int) -> Seq<FermionAction> {
    t.update(j - 1, t[j]).update(j, t[j - 1])
}

/// One comparison of the pass, of the actions at `j - 1` and `j`, and whether the pass over
/// this position stops there. Two equal actions end the branch. Two actions of one kind out of
/// order are exchanged with a sign flip. An annihilation left of a creation is exchanged with a
/// sign flip, and, on the same mode, first records the branch without the pair
/// (`a_i a+_i = 1 - a+_i a_i`).
pub open spec fn pass_step(s: PassState, j: int) -> (PassState, bool) {
    let (t, parity, zero, pending) = s;
    let r = t[j];
    let l = t[j - 1];
    if r.0 == l.0 {
        if r.1 == l.1 {
            ((t, parity, true, pending), true)
        } else if r.1 > l.1 {
            ((swapped(t, j), !parity, zero, pending), false)
        } else {
            (s, false)
        }
    } else if r.0 && !l.0 {
        let p = if r.1 == l.1 {
            pending.push((parity, t.subrange(0, j - 1) + t.subrange(j + 1, t.len() as int)))
        } else {
            pending
        };
        ((swapped(t, j), !parity, zero, p), false)
    } else {
        (s, false)
    }
}

/// Moves the action at position `j` left as far as it goes, comparing down to position 1.
pub open spec fn inner_pass(s: PassState, j: int) -> PassState
    decreases j,
{
    if j <= 0 {
        s
    } else {
        let (next, stop) = pass_step(s, j);
        if stop {
            next
        } else {
            inner_pass(next, j - 1)
        }
    }
}

/// Inserts the actions at positions `i`, `i + 1`, ... below `n` in turn.
pub open spec fn outer_pass(s: PassState, i: int, n: int) -> PassState
    decreases n - i,
{
    if i >= n {
        s
    } else {
        outer_pass(inner_pass(s, i), i + 1, n)
    }
}

/// The insertion pass over a whole branch with sign `negative`.
pub open spec fn sorted_pass(term: Seq<FermionAction>, negative: bool) -> PassState {
    outer_pass((term, negative, false, Seq::empty()), 1, term.len() as int)
}

/// The signed terms that normal ordering emits for one branch: the branch itself after its pass
/// unless two equal actions met, then what each recorded contraction expands to, latest first.
pub open spec fn expansion(term: Seq<FermionAction>, negative: bool) -> Seq<(bool, Seq<FermionAction>)>
    decreases term.len(), 1nat, 0nat,
{
    let s = sorted_pass(term, negative);
    (if s.2 {
        Seq::empty()
    } else {
        seq![(s.1, s.0)]
    }) + expand_pending(s.3, term.len())
}

/// The expansions of the recorded contractions shorter than `n`, latest first.
pub open spec fn expand_pending(ps: Seq<(bool, Seq<FermionAction>)>, n: nat) -> Seq<
    (bool, Seq<FermionAction>),
>
    decreases n, 0nat, ps.len(),
{
    if ps.len() == 0 {
        Seq::empty()
    } else {
        (if ps.last().1.len() < n {
            expansion(ps.last().1, ps.last().0)
        } else {
            Seq::empty()
        }) + expand_pending(ps.drop_last(), n)
    }
}

/// The view of emitted signed terms.
pub open spec fn signed_view(v: Seq<(bool, Vec<FermionAction>)>) -> Seq<(bool, Seq<FermionAction>)> {
    Seq::new(v.len(), |k: int| (v[k].0, v[k].1@))
}

/// The term with the two adjacent actions at `j - 1` and `j` taken out.
fn without_pair(t: &Vec<FermionAction>, j: usize) -> (r: Vec<FermionAction>)
    requires
        1 <= j < t@.len(),
    ensures
        r@ == t@.subrange(0, j - 1) + t@.subrange(j + 1, t@.len() as int),
{
    let len = t.len();
    let mut r: Vec<FermionAction> = Vec::new();
    let mut k: usize = 0;
    while k < j - 1
        invariant
            k <= j - 1,
            1 <= j < t@.len(),
            r@ == t@.subrange(0, k as int),
        decreases j - 1 - k,
    {
        r.push(t[k]);
        k = k + 1;
        assert(r@ =~= t@.subrange(0, k as int));
    }
    let mut k: usize = j + 1;
    while k < t.len()
        invariant
            j + 1 <= k <= t@.len(),
            1 <= j < t@.len(),
            r@ == t@.subrange(0, j - 1) + t@.subrange(j + 1, k as int),
        decreases t@.len() - k,
    {
        r.push(t[k]);
        k = k + 1;
        assert(r@ =~= t@.subrange(0, j - 1) + t@.subrange(j + 1, k as int));
    }
    r
}

/// Brings one branch into normal order and appends what it yields to `out`: the branch itself
/// with its sign, unless two equal actions meet, and then, depth first and latest first, what
/// each contraction `a_i a+_i -> 1` met on the way yields.
fn expand_branch(term: Vec<FermionAction>, negative: bool, out: &mut Vec<(bool, Vec<FermionAction>)>)
    ensures
        signed_view(final(out)@) == signed_view(old(out)@) + expansion(term@, negative),
        final(out)@.len() >= old(out)@.len(),
        forall|k: int| 0 <= k < old(out)@.len() ==> #[trigger] final(out)@[k] == old(out)@[k],
        forall|k: int|
            old(out)@.len() <= k < final(out)@.len() ==> ordered_output(
                (#[trigger] final(out)@[k].0, final(out)@[k].1@),
                term@,
            ),
        !term@.no_duplicates() ==> forall|k: int|
            old(out)@.len() <= k < final(out)@.len() ==> (#[trigger] final(out)@[k]).1@.len()
                < term@.len(),
        is_normal_ordered(term@) ==> final(out)@.len() == old(out)@.len() + 1
            && final(out)@[old(out)@.len() as int].0 == negative
            && final(out)@[old(out)@.len() as int].1@ == term@,
        term@.no_duplicates() ==> final(out)@.len() > old(out)@.len()
            && final(out)@[old(out)@.len() as int].1@.to_multiset() == term@.to_multiset()
            && final(out)@[old(out)@.len() as int].0 == (negative != (key_inversions(term@) % 2
            == 1)),
    decreases term@.len(),
{
    let ghost sorted_in = is_normal_ordered(term@);
    let mut t = term;
    let n = t.len();
    let mut parity = negative;
    let mut zero = false;
    let mut pending: Vec<(bool, Vec<FermionAction>)> = Vec::new();
    let mut i: usize = 1;
    assert(signed_view(pending@) =~= Seq::<(bool, Seq<FermionAction>)>::empty());
    while i < n
        invariant
            1 <= i <= n || n == 0,
            t@.len() == n,
            n == term@.len(),
            !zero ==> descending_on(t@, 0, i as int),
            sorted_in ==> t@ == term@ && !zero && parity == negative && pending@.len() == 0,
            sorted_in == is_normal_ordered(term@),
            forall|q: int| 0 <= q < pending@.len() ==> (#[trigger] pending@[q]).1@.len() + 2 == n,
            t@.to_multiset() == term@.to_multiset(),
            creations(t@) == creations(term@),
            forall|q: int|
                0 <= q < pending@.len() ==> creations((#[trigger] pending@[q]).1@) + 1 == creations(
                    term@,
                ),
            term@.no_duplicates() ==> t@.no_duplicates() && !zero,
            parity != (key_inversions(t@) % 2 == 1) == (negative != (key_inversions(term@) % 2
                == 1)),
            outer_pass((t@, parity, zero, signed_view(pending@)), i as int, n as int) == sorted_pass(
                term@,
                negative,
            ),
        decreases n - i,
    {
        let mut j: usize = i;
        let mut stop = false;
        proof {
            let cur = (t@, parity, zero, signed_view(pending@));
            assert(outer_pass(cur, i as int, n as int) == outer_pass(
                inner_pass(cur, i as int),
                i + 1,
                n as int,
            ));
        }
        while j > 0 && !stop
            invariant
                j <= i < n,
                t@.len() == n,
                n == term@.len(),
                !zero ==> descending_on(t@, 0, j as int) && descending_on(t@, j as int, i + 1)
                    && (forall|a: int, b: int|
                    0 <= a < j < b <= i ==> action_key(t@[a]) > action_key(t@[b])),
                stop ==> zero,
                sorted_in ==> t@ == term@ && !zero && parity == negative && pending@.len() == 0,
                sorted_in == is_normal_ordered(term@),
                forall|q: int|
                    0 <= q < pending@.len() ==> (#[trigger] pending@[q]).1@.len() + 2 == n,
                t@.to_multiset() == term@.to_multiset(),
                creations(t@) == creations(term@),
                forall|q: int|
                    0 <= q < pending@.len() ==> creations((#[trigger] pending@[q]).1@) + 1
                        == creations(term@),
                term@.no_duplicates() ==> t@.no_duplicates() && !zero,
                parity != (key_inversions(t@) % 2 == 1) == (negative != (key_inversions(term@) % 2
                    == 1)),
                outer_pass(
                    if stop {
                        (t@, parity, zero, signed_view(pending@))
                    } else {
                        inner_pass((t@, parity, zero, signed_view(pending@)), j as int)
                    },
                    i + 1,
                    n as int,
                ) == sorted_pass(term@, negative),
            decreases j,
        {
            let (action_right, index_right) = t[j];
            let (action_left, index_left) = t[j - 1];
            let ghost before = t@;
            let ghost cur0 = (t@, parity, zero, signed_view(pending@));
            if action_right == action_left {
                if index_right == index_left {
                    zero = true;
                    stop = true;
                } else if index_right > index_left {
                    t.set(j - 1, (action_right, index_right));
                    t.set(j, (action_left, index_left));
                    parity = !parity;
                }
            } else if action_right && !action_left {
                if index_right == index_left {
                    let contracted = without_pair(&t, j as usize);
                    pending.push((parity, contracted));
                }
                t.set(j - 1, (action_right, index_right));
                t.set(j, (action_left, index_left));
                parity = !parity;
            }
            proof {
                if !zero {
                    lemma_insert_step(before, t@, j as int, i as int);
                }
                if t@ != before {
                    lemma_creations_local(before, j as int);
                    lemma_swap_keeps(before, t@, j as int);
                    lemma_swap_removes_inversion(before, j - 1, normal_key());
                    assert(before.update(j - 1, before[j as int]).update(j as int, before[j - 1])
                        == t@);
                }
                if term@.no_duplicates() {
                    assert(before[j - 1] != before[j as int]);
                }
                assert(pass_step(cur0, j as int) == ((t@, parity, zero, signed_view(pending@)), stop));
            }
            j = j - 1;
        }
        i = i + 1;
    }
    let ghost start = out@.len();
    if !zero {
        assert(is_normal_ordered(t@)) by {
            if n > 0 {
                assert(descending_on(t@, 0, n as int));
            }
        }
        proof {
            assert(t@.no_duplicates()) by {
                assert forall|a: int, b: int| 0 <= a < t@.len() && 0 <= b < t@.len() && a != b implies t@[a]
                    != t@[b] by {
                    if a < b {
                        assert(action_key(t@[a]) > action_key(t@[b]));
                    } else {
                        assert(action_key(t@[b]) > action_key(t@[a]));
                    }
                }
            }
            t@.lemma_multiset_has_no_duplicates();
            term@.lemma_multiset_has_no_duplicates_conv();
        }
        proof {
            lemma_descending_no_inversions(t@, normal_key());
        }
        out.push((parity, t));
    }
    let ghost main = out@;
    proof {
        let sp = sorted_pass(term@, negative);
        assert(sp == (t@, parity, zero, signed_view(pending@)));
        let m = if zero { Seq::empty() } else { seq![(parity, t@)] };
        assert(signed_view(out@) =~= signed_view(old(out)@) + m);
        assert(signed_view(out@) + expand_pending(signed_view(pending@), n as nat) =~= signed_view(
            old(out)@,
        ) + expansion(term@, negative));
    }
    while pending.len() > 0
        invariant
            signed_view(out@) + expand_pending(signed_view(pending@), n as nat) == signed_view(
                old(out)@,
            ) + expansion(term@, negative),
            out@.len() >= start,
            forall|k: int| 0 <= k < start ==> #[trigger] out@[k] == old(out)@[k],
            start == old(out)@.len(),
            forall|k: int|
                start <= k < out@.len() ==> ordered_output(
                    (#[trigger] out@[k].0, out@[k].1@),
                    term@,
                ),
            forall|q: int| 0 <= q < pending@.len() ==> (#[trigger] pending@[q]).1@.len() + 2 == n,
            forall|q: int|
                0 <= q < pending@.len() ==> creations((#[trigger] pending@[q]).1@) + 1 == creations(
                    term@,
                ),
            n == term@.len(),
            sorted_in ==> pending@.len() == 0,
            sorted_in ==> out@.len() == start + 1 && out@[start as int].0 == negative
                && out@[start as int].1@ == term@,
            !term@.no_duplicates() ==> forall|k: int|
                start <= k < out@.len() ==> (#[trigger] out@[k]).1@.len() < n,
            term@.no_duplicates() ==> out@.len() > start && out@[start as int] == main[start as int]
                && main[start as int].1@.to_multiset() == term@.to_multiset() && main[start as int].0
                == (negative != (key_inversions(term@) % 2 == 1)),
        decreases pending@.len(),
    {
        let ghost last = pending@.len() - 1;
        assert(pending@[last].1@.len() + 2 == n);
        assert(creations(pending@[last].1@) + 1 == creations(term@));
        let ghost ps = signed_view(pending@);
        let (branch_negative, branch) = pending.pop().unwrap();
        let ghost mid = out@.len();
        let ghost prev = out@;
        expand_branch(branch, branch_negative, out);
        proof {
            assert(signed_view(pending@) =~= ps.drop_last());
            assert(ps.last() == (branch_negative, branch@));
            assert(expand_pending(ps, n as nat) == expansion(branch@, branch_negative)
                + expand_pending(ps.drop_last(), n as nat));
            assert(signed_view(out@) + expand_pending(signed_view(pending@), n as nat) =~= signed_view(
                prev,
            ) + expand_pending(ps, n as nat));
        }
        assert forall|k: int| start <= k < out@.len() implies ordered_output(
            (#[trigger] out@[k].0, out@[k].1@),
            term@,
        ) && (!term@.no_duplicates() ==> out@[k].1@.len() < n) by {
            if k >= mid {
                assert(ordered_output((out@[k].0, out@[k].1@), branch@));
            } else {
                assert(out@[k] == prev[k]);
                assert(out@[k] == old(out)@[k] || k >= start);
            }
        }
        assert forall|k: int| start <= k < out@.len() && !term@.no_duplicates() implies (
        #[trigger] out@[k]).1@.len() < n by {
            if k >= mid {
                assert(ordered_output((out@[k].0, out@[k].1@), branch@));
            } else {
                assert(out@[k] == prev[k]);
            }
        }
    }
}

/// A copy of a term, action by action.
pub fn copy_term(t: &Vec<FermionAction>) -> (r: Vec<FermionAction>)
    ensures
        r@ == t@,
{
    let mut r: Vec<FermionAction> = Vec::new();
    let mut k: usize = 0;
    while k < t.len()
        invariant
            k <= t@.len(),
            r@ == t@.subrange(0, k as int),
        decreases t@.len() - k,
    {
        r.push(t[k]);
        k = k + 1;
        assert(r@ =~= t@.subrange(0, k as int));
    }
    assert(r@ =~= t@);
    r
}

/// Normal orders a single term: the terms it expands into, each with `true` where its sign is
/// negative, exactly `expansion(term, false)`: the term after its insertion pass, then the
/// expansions of the contractions `a_i a+_i = 1 - a+_i a_i` met on the way. Every emitted term has its creations first, modes strictly descending within each
/// kind; terms in which an action would repeat vanish. A term that is already in normal order
/// comes back alone, unchanged and positive.
pub fn normal_ordered_term(term: &Vec<FermionAction>) -> (r: Vec<(bool, Vec<FermionAction>)>)
    ensures
        forall|k: int| 0 <= k < r@.len() ==> ordered_output((#[trigger] r@[k].0, r@[k].1@), term@),
        !term@.no_duplicates() ==> forall|k: int|
            0 <= k < r@.len() ==> (#[trigger] r@[k]).1@.len() < term@.len(),
        is_normal_ordered(term@) ==> r@.len() == 1 && r@[0].0 == false && r@[0].1@ == term@,
        term@.no_duplicates() ==> r@.len() > 0 && r@[0].1@.to_multiset() == term@.to_multiset()
            && r@[0].0 == (key_inversions(term@) % 2 == 1),
        signed_view(r@) == expansion(term@, false),
{
    let mut r: Vec<(bool, Vec<FermionAction>)> = Vec::new();
    proof {
        assert(signed_view(r@) =~= Seq::<(bool, Seq<FermionAction>)>::empty());
    }
    expand_branch(copy_term(term), false, &mut r);
    proof {
        assert(Seq::<(bool, Seq<FermionAction>)>::empty() + expansion(term@, false) =~= expansion(
            term@,
            false,
        ));
    }
    r
}

/// The expansion of one term, each entry tagged with the index `i` of that term.
pub open spec fn tagged(xs: Seq<(bool, Seq<FermionAction>)>, i: usize) -> Seq<
    (usize, bool, Seq<FermionAction>),
> {
    Seq::new(xs.len(), |k: int| (i, xs[k].0, xs[k].1))
}

/// The signed terms that normal ordering emits for the terms `ts`: the expansion of each term
/// in turn, tagged with its index.
pub open spec fn operator_expansion(ts: Seq<Seq<FermionAction>>) -> Seq<
    (usize, bool, Seq<FermionAction>),
>
    decreases ts.len(),
{
    if ts.len() == 0 {
        Seq::empty()
    } else {
        operator_expansion(ts.drop_last()) + tagged(
            expansion(ts.last(), false),
            (ts.len() - 1) as usize,
        )
    }
}

/// The views of emitted entries.
pub open spec fn entries_view(v: Seq<(usize, bool, Vec<FermionAction>)>) -> Seq<
    (usize, bool, Seq<FermionAction>),
> {
    Seq::new(v.len(), |k: int| entry_view(v[k]))
}


/// The view of one emitted term: the input term it came from, whether its sign flips, and its
/// actions.
pub open spec fn entry_view(e: (usize, bool, Vec<FermionAction>)) -> (usize, bool, Seq<FermionAction>) {
    (e.0, e.1, e.2@)
}

/// What normal ordering promises of `out` for the input terms `input`: `out` is exactly
/// `operator_expansion(input)`, the terms that the insertion passes emit. Of these: each emitted
/// term names
/// an input term, in order of the input, and is in normal order with at most the length of that
/// term and a length of the same parity, and with as many fewer creations as annihilations; an
/// input term without repeated actions yields its own actions sorted into normal order, with the
/// sign of the sorting permutation, while one with a repeated action yields only shorter terms;
/// an input whose terms are all in normal order comes back as it is.
pub open spec fn normal_ordering_of(
    input: Seq<Seq<FermionAction>>,
    out: Seq<(usize, bool, Seq<FermionAction>)>,
) -> bool {
    &&& out == operator_expansion(input)
    &&& forall|k: int|
        0 <= k < out.len() ==> {
            &&& (#[trigger] out[k]).0 < input.len()
            &&& ordered_output((out[k].1, out[k].2), input[out[k].0 as int])
            &&& !input[out[k].0 as int].no_duplicates() ==> out[k].2.len() < input[out[k].0 as int].len()
        }
    &&& forall|k: int, l: int| 0 <= k < l < out.len() ==> out[k].0 <= out[l].0
    &&& forall|i: int|
        0 <= i < input.len() && (#[trigger] input[i]).no_duplicates() ==> exists|k: int|
            0 <= k < out.len() && out[k].0 == i && out[k].1 == (key_inversions(input[i]) % 2 == 1)
                && out[k].2.to_multiset() == input[i].to_multiset()
    &&& (forall|i: int| 0 <= i < input.len() ==> is_normal_ordered(#[trigger] input[i])) ==> {
        &&& out.len() == input.len()
        &&& forall|k: int|
            0 <= k < out.len() ==> (#[trigger] out[k]).0 == k && !out[k].1 && out[k].2 == input[k]
    }
}

/// Normal ordering is idempotent: normal ordering the terms that normal ordering emitted gives
/// them back unchanged, each from its own position and with its sign kept.
pub proof fn lemma_normal_ordering_idempotent(
    input: Seq<Seq<FermionAction>>,
    once: Seq<(usize, bool, Seq<FermionAction>)>,
    twice: Seq<(usize, bool, Seq<FermionAction>)>,
)
    requires
        normal_ordering_of(input, once),
        normal_ordering_of(once.map_values(|e: (usize, bool, Seq<FermionAction>)| e.2), twice),
    ensures
        twice.len() == once.len(),
        forall|k: int|
            0 <= k < twice.len() ==> (#[trigger] twice[k]).0 == k && !twice[k].1 && twice[k].2
                == once[k].2,
{
    let mid = once.map_values(|e: (usize, bool, Seq<FermionAction>)| e.2);
    assert forall|i: int| 0 <= i < mid.len() implies is_normal_ordered(#[trigger] mid[i]) by {
        assert(ordered_output((once[i].1, once[i].2), input[once[i].0 as int]));
    }
    assert forall|k: int| 0 <= k < twice.len() implies (#[trigger] twice[k]).0 == k && !twice[k].1
        && twice[k].2 == once[k].2 by {
        assert(twice[k].2 == mid[k]);
    }
}

/// Normal ordering keeps particle-number conservation: when every input term creates as many
/// particles as it annihilates, so does every term that normal ordering emits.
pub proof fn lemma_normal_ordering_conserves_particle_number(
    input: Seq<Seq<FermionAction>>,
    out: Seq<(usize, bool, Seq<FermionAction>)>,
)
    requires
        normal_ordering_of(input, out),
        forall|i: int| 0 <= i < input.len() ==> balanced(#[trigger] input[i]),
    ensures
        forall|k: int| 0 <= k < out.len() ==> balanced(#[trigger] out[k].2),
{
    assert forall|k: int| 0 <= k < out.len() implies balanced(#[trigger] out[k].2) by {
        let src = input[out[k].0 as int];
        assert(ordered_output((out[k].1, out[k].2), src));
        assert(balanced(src));
    }
}

impl Terms<FermionAction> {
    /// Normal orders every term. Each emitted term carries the index of the term it came from
    /// and whether the sign of that term's coefficient flips on it.
    pub fn normal_ordered(&self) -> (r: Vec<(usize, bool, Vec<FermionAction>)>)
        requires
            self.wf(),
        ensures
            normal_ordering_of(self.terms(), entries_view(r@)),
    {
        let n = self.len();
        let mut r: Vec<(usize, bool, Vec<FermionAction>)> = Vec::new();
        let mut i: usize = 0;
        assert(entries_view(r@) =~= operator_expansion(self.terms().subrange(0, 0)));
        while i < n
            invariant
                i <= n,
                n == self.terms().len(),
                self.wf(),
                forall|k: int|
                    0 <= k < r@.len() ==> {
                        &&& (#[trigger] r@[k]).0 < i
                        &&& ordered_output((r@[k].1, r@[k].2@), self.terms()[r@[k].0 as int])
                        &&& !self.terms()[r@[k].0 as int].no_duplicates() ==> r@[k].2@.len()
                            < self.terms()[r@[k].0 as int].len()
                    },
                forall|k: int, l: int| 0 <= k < l < r@.len() ==> r@[k].0 <= r@[l].0,
                forall|q: int|
                    0 <= q < i && (#[trigger] self.terms()[q]).no_duplicates() ==> exists|k: int|
                        0 <= k < r@.len() && r@[k].0 == q && r@[k].1 == (key_inversions(
                            self.terms()[q],
                        ) % 2 == 1) && r@[k].2@.to_multiset() == self.terms()[q].to_multiset(),
                (forall|q: int| 0 <= q < n ==> is_normal_ordered(#[trigger] self.terms()[q])) ==> {
                    &&& r@.len() == i
                    &&& forall|k: int|
                        0 <= k < r@.len() ==> (#[trigger] r@[k]).0 == k && !r@[k].1 && r@[k].2@
                            == self.terms()[k]
                },
                entries_view(r@) == operator_expansion(self.terms().subrange(0, i as int)),
            decreases n - i,
        {
            let t = self.get_term(i);
            let expanded = normal_ordered_term(&t);
            let mut e: usize = 0;
            let ghost r0 = r@.len();
            let ghost base = entries_view(r@);
            let ghost full = tagged(signed_view(expanded@), i);
            while e < expanded.len()
                invariant
                    e <= expanded@.len(),
                    i < n,
                    n == self.terms().len(),
                    t@ == self.terms()[i as int],
                    r@.len() == r0 + e,
                    forall|k: int|
                        0 <= k < expanded@.len() ==> ordered_output(
                            (#[trigger] expanded@[k].0, expanded@[k].1@),
                            t@,
                        ),
                    is_normal_ordered(t@) ==> expanded@.len() == 1 && expanded@[0].0 == false
                        && expanded@[0].1@ == t@,
                    forall|k: int|
                        0 <= k < r@.len() ==> {
                            &&& (#[trigger] r@[k]).0 <= i
                            &&& ordered_output(
                                (r@[k].1, r@[k].2@),
                                self.terms()[r@[k].0 as int],
                            )
                            &&& !self.terms()[r@[k].0 as int].no_duplicates() ==> r@[k].2@.len()
                                < self.terms()[r@[k].0 as int].len()
                        },
                    !t@.no_duplicates() ==> forall|k: int|
                        0 <= k < expanded@.len() ==> (#[trigger] expanded@[k]).1@.len() < t@.len(),
                    forall|k: int| r0 <= k < r@.len() ==> (#[trigger] r@[k]).0 == i && r@[k].1
                        == expanded@[k - r0].0 && r@[k].2@ == expanded@[k - r0].1@,
                    forall|k: int| 0 <= k < r0 ==> (#[trigger] r@[k]).0 < i,
                    (forall|q: int| 0 <= q < n ==> is_normal_ordered(#[trigger] self.terms()[q]))
                        ==> r0 == i && forall|k: int|
                        0 <= k < r0 ==> (#[trigger] r@[k]).0 == k && !r@[k].1 && r@[k].2@
                            == self.terms()[k],
                    forall|k: int, l: int| 0 <= k < l < r@.len() ==> r@[k].0 <= r@[l].0,
                    t@.no_duplicates() ==> expanded@.len() > 0 && expanded@[0].1@.to_multiset()
                        == t@.to_multiset() && expanded@[0].0 == (key_inversions(t@) % 2 == 1),
                    forall|q: int|
                        0 <= q < i && (#[trigger] self.terms()[q]).no_duplicates() ==> exists|k: int|
                            0 <= k < r@.len() && r@[k].0 == q && r@[k].1 == (key_inversions(
                                self.terms()[q],
                            ) % 2 == 1) && r@[k].2@.to_multiset() == self.terms()[q].to_multiset(),
                    e > 0 && t@.no_duplicates() ==> r@[r0 as int].0 == i && r@[r0 as int].1 == (
                    key_inversions(t@) % 2 == 1) && r@[r0 as int].2@.to_multiset() == t@.to_multiset(),
                    full == tagged(signed_view(expanded@), i),
                    entries_view(r@) == base + full.subrange(0, e as int),
                decreases expanded@.len() - e,
            {
                let negative = expanded[e].0;
                let actions = copy_term(&expanded[e].1);
                let ghost before = r@;
                r.push((i, negative, actions));
                assert(forall|k: int| 0 <= k < before.len() ==> r@[k] == before[k]);
                assert forall|q: int|
                    0 <= q < i && (#[trigger] self.terms()[q]).no_duplicates() implies exists|k: int|
                        0 <= k < r@.len() && r@[k].0 == q && r@[k].1 == (key_inversions(
                            self.terms()[q],
                        ) % 2 == 1) && r@[k].2@.to_multiset() == self.terms()[q].to_multiset() by {
                    let k = choose|k: int|
                        0 <= k < before.len() && before[k].0 == q && before[k].1 == (key_inversions(
                            self.terms()[q],
                        ) % 2 == 1) && before[k].2@.to_multiset() == self.terms()[q].to_multiset();
                    assert(r@[k] == before[k]);
                }
                assert(full[e as int] == (i, expanded@[e as int].0, expanded@[e as int].1@));
                assert(entries_view(r@) =~= entries_view(before).push(full[e as int]));
                assert(base + full.subrange(0, e + 1) =~= (base + full.subrange(0, e as int)).push(
                    full[e as int],
                ));
                assert(entries_view(r@) =~= base + full.subrange(0, e + 1));
                e = e + 1;
            }
            proof {
                assert(full.subrange(0, expanded@.len() as int) =~= full);
                let ts = self.terms().subrange(0, i + 1);
                assert(ts.drop_last() =~= self.terms().subrange(0, i as int));
                assert(ts.last() == t@);
                assert(operator_expansion(ts) == operator_expansion(ts.drop_last()) + tagged(
                    expansion(t@, false),
                    i,
                ));
            }
            proof {
                if t@.no_duplicates() {
                    assert(r@[r0 as int].0 == i);
                }
                assert forall|q: int|
                    0 <= q < i + 1 && (#[trigger] self.terms()[q]).no_duplicates() implies exists|
                    k: int|
                        0 <= k < r@.len() && r@[k].0 == q && r@[k].1 == (key_inversions(
                            self.terms()[q],
                        ) % 2 == 1) && r@[k].2@.to_multiset() == self.terms()[q].to_multiset() by {
                    if q == i {
                        assert(r@[r0 as int].0 == q);
                    }
                }
            }
            i = i + 1;
        }
        let ghost v = entries_view(r@);
        assert(self.terms().subrange(0, n as int) =~= self.terms());
        assert forall|k: int| 0 <= k < v.len() implies #[trigger] v[k] == entry_view(r@[k]) by {}
        assert forall|q: int|
            0 <= q < n && (#[trigger] self.terms()[q]).no_duplicates() implies exists|k: int|
                0 <= k < v.len() && v[k].0 == q && v[k].1 == (key_inversions(self.terms()[q]) % 2
                    == 1) && v[k].2.to_multiset() == self.terms()[q].to_multiset() by {
            let k = choose|k: int|
                0 <= k < r@.len() && r@[k].0 == q && r@[k].1 == (key_inversions(self.terms()[q])
                    % 2 == 1) && r@[k].2@.to_multiset() == self.terms()[q].to_multiset();
            assert(v[k] == entry_view(r@[k]));
        }
        r
    }
}

} // verus!
