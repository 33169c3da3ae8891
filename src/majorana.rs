use vstd::prelude::*;
use vstd::seq_lib::to_multiset_update;
use crate::inversions::{inversions_by, lemma_descending_no_inversions, lemma_swap_removes_inversion};
use crate::terms::Terms;

verus! {

/// The term layout of a Majorana operator: each action is a mode.
pub type MajoranaTerms = Terms<u32>;

/// Modes never increase from left to right.
pub open spec fn non_increasing(t: Seq<u32>) -> bool {
    forall|i: int, j: int| 0 <= i < j < t.len() ==> t[i] >= t[j]
}

/// Modes strictly decrease from left to right.
pub open spec fn strictly_decreasing(t: Seq<u32>) -> bool {
    forall|i: int, j: int| 0 <= i < j < t.len() ==> t[i] > t[j]
}

/// The key by which modes are sorted: the mode itself.
pub open spec fn mode_key() -> spec_fn(u32) -> int {
    |m: u32| m as int
}

/// Pairs of positions `i < j` whose modes are out of descending order (`t[i] < t[j]`). Each
/// exchange of two such anticommuting modes flips the sign of the term, so a term sorted into
/// descending order picks up the sign `(-1)^inversions`.
pub open spec fn inversions(t: Seq<u32>) -> nat {
    inversions_by(t, mode_key())
}

/// Collapses runs of equal adjacent modes: a run of even length is the identity, a run of odd
/// length leaves one mode.
pub open spec fn reduced(t: Seq<u32>) -> Seq<u32>
    decreases t.len(),
{
    if t.len() == 0 {
        t
    } else if t.len() >= 2 && t[0] == t[1] {
        reduced(t.subrange(2, t.len() as int))
    } else {
        seq![t[0]] + reduced(t.subrange(1, t.len() as int))
    }
}

/// The term reversed: the adjoint of a product of self-adjoint modes.
pub open spec fn reversed(t: Seq<u32>) -> Seq<u32> {
    Seq::new(t.len(), |k: int| t[t.len() - 1 - k])
}

/// Sorts the modes of a term into descending order, keeping equal modes in place, and tells
/// whether the sorting permutation is odd. Equal modes are never exchanged, so the parity is
/// that of the inversions of the input.
pub fn sort_and_parity(t: &Vec<u32>) -> (r: (Vec<u32>, bool))
    ensures
        non_increasing(r.0@),
        r.0@.to_multiset() == t@.to_multiset(),
        r.1 == (inversions(t@) % 2 == 1),
        non_increasing(t@) ==> r.0@ == t@,
{
    let mut s: Vec<u32> = Vec::new();
    let mut k: usize = 0;
    while k < t.len()
        invariant
            k <= t@.len(),
            s@ == t@.subrange(0, k as int),
        decreases t@.len() - k,
    {
        s.push(t[k]);
        k = k + 1;
        assert(s@ =~= t@.subrange(0, k as int));
    }
    assert(s@ =~= t@);
    let n = s.len();
    let mut odd = false;
    let mut i: usize = 1;
    while i < n
        invariant
            1 <= i <= n || n == 0,
            s@.len() == n,
            forall|a: int, b: int| 0 <= a < b < i ==> s@[a] >= s@[b],
            s@.to_multiset() == t@.to_multiset(),
            (odd == (inversions(s@) % 2 != inversions(t@) % 2)),
            non_increasing(t@) ==> s@ == t@,
        decreases n - i,
    {
        let mut j: usize = i;
        while j > 0 && s[j] > s[j - 1]
            invariant
                j <= i < n,
                s@.len() == n,
                forall|a: int, b: int| 0 <= a < b < j ==> s@[a] >= s@[b],
                forall|a: int, b: int| j <= a < b <= i ==> s@[a] >= s@[b],
                forall|a: int, b: int| 0 <= a < j && j < b <= i ==> s@[a] >= s@[b],
                s@.to_multiset() == t@.to_multiset(),
                (odd == (inversions(s@) % 2 != inversions(t@) % 2)),
                non_increasing(t@) ==> s@ == t@,
            decreases j,
        {
            let ghost before = s@;
            let hi = s[j];
            let lo = s[j - 1];
            s.set(j - 1, hi);
            s.set(j, lo);
            odd = !odd;
            proof {
                lemma_swap_removes_inversion(before, j - 1, mode_key());
                to_multiset_update(before, j - 1, hi);
                to_multiset_update(before.update(j - 1, hi), j as int, lo);
                assert(s@ == before.update(j - 1, hi).update(j as int, lo));
                assert(hi == before[j as int] && lo == before[j - 1]);
                assert(before.update(j - 1, hi)[j as int] == hi);
                assert(s@.to_multiset() =~= before.to_multiset().insert(hi).remove(lo).insert(
                    lo,
                ).remove(hi));
                assert(before.to_multiset().insert(hi).remove(lo).insert(lo).remove(hi)
                    =~= before.to_multiset()) by {
                    broadcast use vstd::multiset::group_multiset_axioms;
                    assert(before.to_multiset().contains(lo)) by {
                        broadcast use vstd::seq_lib::to_multiset_contains;
                        assert(before.contains(lo)) by { assert(before[j - 1] == lo); }
                    }
                }
            }
            j = j - 1;
        }
        proof {
            assert forall|a: int, b: int| 0 <= a < b <= i implies s@[a] >= s@[b] by {
                if j > 0 && b >= j && a < j {
                    if b == j {
                        assert(s@[a] >= s@[j - 1] || a == j - 1);
                    }
                }
            }
        }
        i = i + 1;
    }
    proof {
        lemma_descending_no_inversions(s@, mode_key());
    }
    (s, odd)
}

proof fn lemma_reduced_shape(t: Seq<u32>)
    requires
        non_increasing(t),
    ensures
        strictly_decreasing(reduced(t)),
        forall|k: int| 0 <= k < reduced(t).len() ==> t.contains(#[trigger] reduced(t)[k]),
        reduced(t).len() <= t.len(),
    decreases t.len(),
{
    if t.len() == 0 {
    } else if t.len() >= 2 && t[0] == t[1] {
        let rest = t.subrange(2, t.len() as int);
        lemma_reduced_shape(rest);
        assert forall|k: int| 0 <= k < reduced(t).len() implies t.contains(
            #[trigger] reduced(t)[k],
        ) by {
            assert(rest.contains(reduced(rest)[k]));
            let w = choose|w: int| 0 <= w < rest.len() && rest[w] == reduced(rest)[k];
            assert(t[w + 2] == rest[w]);
        }
    } else {
        let rest = t.subrange(1, t.len() as int);
        lemma_reduced_shape(rest);
        let r = reduced(t);
        assert(r == seq![t[0]] + reduced(rest));
        assert forall|k: int| 0 <= k < r.len() implies t.contains(#[trigger] r[k]) by {
            if k == 0 {
                assert(t[0] == r[0]);
            } else {
                assert(r[k] == reduced(rest)[k - 1]);
                assert(rest.contains(reduced(rest)[k - 1]));
                let w = choose|w: int| 0 <= w < rest.len() && rest[w] == reduced(rest)[k - 1];
                assert(t[w + 1] == rest[w]);
            }
        }
        assert forall|a: int, b: int| 0 <= a < b < r.len() implies r[a] > r[b] by {
            if a == 0 {
                assert(rest.contains(r[b]));
                let w = choose|w: int| 0 <= w < rest.len() && rest[w] == r[b];
                assert(t[w + 1] == r[b]);
                if w == 0 {
                    assert(t[1] != t[0]);
                } else {
                    assert(t[0] >= t[1] && t[1] >= t[w + 1]);
                    assert(t[0] != t[1]);
                }
            } else {
                assert(r[a] == reduced(rest)[a - 1] && r[b] == reduced(rest)[b - 1]);
            }
        }
    }
}

/// A term with strictly decreasing modes is its own normal form: it is sorted, has no
/// inversions, and has no runs to collapse. Every term that normal ordering with reduction
/// emits is such a term, so normal ordering it again changes nothing.
pub proof fn lemma_reduced_is_normal_form(t: Seq<u32>)
    requires
        strictly_decreasing(t),
    ensures
        non_increasing(t),
        inversions(t) == 0,
        reduced(t) == t,
    decreases t.len(),
{
    lemma_descending_no_inversions(t, mode_key());
    if t.len() > 0 {
        let rest = t.subrange(1, t.len() as int);
        lemma_reduced_is_normal_form(rest);
        if t.len() >= 2 {
            assert(t[0] != t[1]);
        }
        assert(seq![t[0]] + rest =~= t);
    }
}

/// Collapses runs of equal adjacent modes: a run of even length vanishes, a run of odd length
/// leaves one mode.
pub fn reduce_pairs(t: &Vec<u32>) -> (r: Vec<u32>)
    ensures
        r@ == reduced(t@),
{
    let n = t.len();
    let mut r: Vec<u32> = Vec::new();
    let mut i: usize = 0;
    assert(t@.subrange(0, n as int) =~= t@);
    assert(Seq::<u32>::empty() + reduced(t@) =~= reduced(t@));
    while i < n
        invariant
            i <= n,
            n == t@.len(),
            r@ + reduced(t@.subrange(i as int, n as int)) == reduced(t@),
        decreases n - i,
    {
        if i + 1 < n && t[i] == t[i + 1] {
            assert(t@.subrange(i + 2, n as int) =~= t@.subrange(i as int, n as int).subrange(
                2,
                n - i,
            ));
            i = i + 2;
        } else {
            assert(t@.subrange(i + 1, n as int) =~= t@.subrange(i as int, n as int).subrange(
                1,
                n - i,
            ));
            r.push(t[i]);
            assert(seq![t@[i as int]] + reduced(t@.subrange(i + 1, n as int)) == reduced(
                t@.subrange(i as int, n as int),
            ));
            assert(r@ + reduced(t@.subrange(i + 1, n as int)) =~= r@.drop_last() + (seq![
                t@[i as int],
            ] + reduced(t@.subrange(i + 1, n as int))));
            i = i + 1;
        }
    }
    assert(t@.subrange(n as int, n as int) =~= Seq::<u32>::empty());
    assert(r@ + Seq::<u32>::empty() =~= r@);
    r
}


/// Normal orders one Majorana term: its modes in descending order, with runs of equal modes
/// collapsed when `reduce` is set, and `true` where the sign flips.
pub fn normal_ordered_modes(t: &Vec<u32>, reduce: bool) -> (r: (Vec<u32>, bool))
    ensures
        r.1 == (inversions(t@) % 2 == 1),
        exists|s: Seq<u32>|
            non_increasing(s) && s.to_multiset() == t@.to_multiset() && r.0@ == if reduce {
                reduced(s)
            } else {
                s
            },
        r.0@.len() <= t@.len(),
        reduce ==> strictly_decreasing(r.0@),
        non_increasing(t@) ==> !r.1 && r.0@ == if reduce {
            reduced(t@)
        } else {
            t@
        },
{
    let (sorted, odd) = sort_and_parity(t);
    proof {
        if non_increasing(t@) {
            lemma_descending_no_inversions(t@, mode_key());
        }
        assert(sorted@.len() == t@.len()) by {
            vstd::seq_lib::to_multiset_len(sorted@);
            vstd::seq_lib::to_multiset_len(t@);
        }
    }
    if reduce {
        let out = reduce_pairs(&sorted);
        proof {
            lemma_reduced_shape(sorted@);
        }
        (out, odd)
    } else {
        (sorted, odd)
    }
}

/// The modes of one term in reverse order.
pub fn reverse_modes(t: &Vec<u32>) -> (r: Vec<u32>)
    ensures
        r@ == reversed(t@),
{
    let n = t.len();
    let mut r: Vec<u32> = Vec::new();
    let mut k: usize = 0;
    while k < n
        invariant
            k <= n,
            n == t@.len(),
            r@ == reversed(t@).subrange(0, k as int),
        decreases n - k,
    {
        r.push(t[n - 1 - k]);
        k = k + 1;
        assert(r@ =~= reversed(t@).subrange(0, k as int));
    }
    assert(r@ =~= reversed(t@));
    r
}

impl Terms<u32> {
    /// The adjoint layout: each term reversed, the offsets unchanged; each coefficient is to be
    /// conjugated.
    pub fn adjoint(&self) -> (r: Self)
        requires
            self.wf(),
        ensures
            r.wf(),
            r.terms().len() == self.terms().len(),
            forall|i: int|
                0 <= i < r.terms().len() ==> #[trigger] r.terms()[i] == reversed(self.terms()[i]),
            r.boundaries@ == self.boundaries@,
    {
        let n = self.len();
        let mut r = Self::zero();
        let mut i: usize = 0;
        while i < n
            invariant
                i <= n,
                n == self.terms().len(),
                self.wf(),
                r.wf(),
                r.terms().len() == i,
                forall|q: int| 0 <= q < i ==> #[trigger] r.terms()[q] == reversed(self.terms()[q]),
                r.items@.len() == self.boundaries@[i as int],
                r.boundaries@ == self.boundaries@.subrange(0, i + 1),
            decreases n - i,
        {
            let t = self.get_term(i);
            let a = reverse_modes(&t);
            assert(self.boundaries@[i + 1] <= self.items@.len());
            let ghost before = r.terms();
            r.push_term(&a);
            assert(forall|q: int| 0 <= q < i ==> r.terms()[q] == before[q]);
            assert(r.boundaries@ =~= self.boundaries@.subrange(0, i + 2));
            i = i + 1;
        }
        assert(self.boundaries@.subrange(0, n + 1) =~= self.boundaries@);
        r
    }

    /// Whether every term has an even number of modes.
    pub fn is_even(&self) -> (r: bool)
        requires
            self.wf(),
        ensures
            r == forall|i: int|
                0 <= i < self.terms().len() ==> (#[trigger] self.terms()[i]).len() % 2 == 0,
    {
        let n = self.len();
        let mut i: usize = 0;
        while i < n
            invariant
                i <= n,
                n == self.terms().len(),
                self.wf(),
                forall|q: int| 0 <= q < i ==> (#[trigger] self.terms()[q]).len() % 2 == 0,
            decreases n - i,
        {
            if self.term_len(i) % 2 != 0 {
                return false;
            }
            i = i + 1;
        }
        true
    }

    /// Normal orders every term: term `i` of the result is term `i` normal ordered, and
    /// `negated[i]` tells whether its coefficient changes sign.
    pub fn normal_ordered(&self, reduce: bool) -> (r: (Self, Vec<bool>))
        requires
            self.wf(),
        ensures
            r.0.wf(),
            r.0.terms().len() == self.terms().len(),
            r.1@.len() == self.terms().len(),
            forall|i: int|
                0 <= i < self.terms().len() ==> {
                    &&& #[trigger] r.1@[i] == (inversions(self.terms()[i]) % 2 == 1)
                    &&& exists|s: Seq<u32>|
                        non_increasing(s) && s.to_multiset() == self.terms()[i].to_multiset()
                            && r.0.terms()[i] == if reduce {
                            reduced(s)
                        } else {
                            s
                        }
                },
            forall|i: int|
                0 <= i < self.terms().len() && non_increasing(#[trigger] self.terms()[i]) ==> !r.1@[i]
                    && r.0.terms()[i] == if reduce {
                    reduced(self.terms()[i])
                } else {
                    self.terms()[i]
                },
    {
        let n = self.len();
        let mut out = Self::zero();
        let mut negated: Vec<bool> = Vec::new();
        let mut i: usize = 0;
        while i < n
            invariant
                i <= n,
                n == self.terms().len(),
                self.wf(),
                out.wf(),
                out.terms().len() == i,
                negated@.len() == i,
                out.items@.len() <= self.boundaries@[i as int],
                forall|q: int|
                    0 <= q < i ==> {
                        &&& #[trigger] negated@[q] == (inversions(self.terms()[q]) % 2 == 1)
                        &&& exists|s: Seq<u32>|
                            non_increasing(s) && s.to_multiset() == self.terms()[q].to_multiset()
                                && out.terms()[q] == if reduce {
                                reduced(s)
                            } else {
                                s
                            }
                    },
                forall|q: int|
                    0 <= q < i && non_increasing(#[trigger] self.terms()[q]) ==> !negated@[q]
                        && out.terms()[q] == if reduce {
                        reduced(self.terms()[q])
                    } else {
                        self.terms()[q]
                    },
            decreases n - i,
        {
            let t = self.get_term(i);
            let (modes, odd) = normal_ordered_modes(&t, reduce);
            assert(self.boundaries@[i + 1] <= self.items@.len());
            let ghost before = out.terms();
            out.push_term(&modes);
            negated.push(odd);
            assert(forall|q: int| 0 <= q < i ==> out.terms()[q] == before[q]);
            assert(out.terms()[i as int] == modes@);
            i = i + 1;
        }
        (out, negated)
    }
}


/// The key by which a permutation is sorted into ascending order.
pub open spec fn ascending_key() -> spec_fn(usize) -> int {
    |x: usize| -(x as int)
}

/// Pairs of positions `i < j` with `p[i] > p[j]`: the inversions of a permutation, whose
/// parity is the parity of the permutation.
pub open spec fn perm_inversions(p: Seq<usize>) -> nat {
    inversions_by(p, ascending_key())
}

/// The sign of a permutation: `+1` when it is even, `-1` when it is odd. It sorts a copy by
/// exchanging adjacent entries, each exchange removing one inversion; for a permutation this
/// agrees with the product of `-1` over its cycles of even length.
pub fn permutation_parity(perm: &Vec<usize>) -> (r: i32)
    ensures
        r == if perm_inversions(perm@) % 2 == 0 {
            1i32
        } else {
            -1i32
        },
{
    let mut s: Vec<usize> = Vec::new();
    let mut k: usize = 0;
    while k < perm.len()
        invariant
            k <= perm@.len(),
            s@ == perm@.subrange(0, k as int),
        decreases perm@.len() - k,
    {
        s.push(perm[k]);
        k = k + 1;
        assert(s@ =~= perm@.subrange(0, k as int));
    }
    assert(s@ =~= perm@);
    let n = s.len();
    let mut sign: i32 = 1;
    let mut i: usize = 1;
    while i < n
        invariant
            1 <= i <= n || n == 0,
            s@.len() == n,
            forall|a: int, b: int| 0 <= a < b < i ==> s@[a] <= s@[b],
            (sign == 1 || sign == -1),
            (sign == -1) == (perm_inversions(s@) % 2 != perm_inversions(perm@) % 2),
        decreases n - i,
    {
        let mut j: usize = i;
        while j > 0 && s[j] < s[j - 1]
            invariant
                j <= i < n,
                s@.len() == n,
                forall|a: int, b: int| 0 <= a < b < j ==> s@[a] <= s@[b],
                forall|a: int, b: int| j <= a < b <= i ==> s@[a] <= s@[b],
                forall|a: int, b: int| 0 <= a < j && j < b <= i ==> s@[a] <= s@[b],
                (sign == 1 || sign == -1),
                (sign == -1) == (perm_inversions(s@) % 2 != perm_inversions(perm@) % 2),
            decreases j,
        {
            let ghost before = s@;
            let lo = s[j];
            let hi = s[j - 1];
            s.set(j - 1, lo);
            s.set(j, hi);
            sign = -sign;
            proof {
                lemma_swap_removes_inversion(before, j - 1, ascending_key());
                assert(s@ == before.update(j - 1, before[j as int]).update(j as int, before[j - 1]));
            }
            j = j - 1;
        }
        proof {
            assert forall|a: int, b: int| 0 <= a < b <= i implies s@[a] <= s@[b] by {
                if j > 0 && b >= j && a < j {
                    if b == j {
                        assert(s@[a] <= s@[j - 1] || a == j - 1);
                    }
                }
            }
        }
        i = i + 1;
    }
    proof {
        lemma_descending_no_inversions(s@, ascending_key());
    }
    sign
}

} // verus!
