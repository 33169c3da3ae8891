use vstd::prelude::*;
use vstd::arithmetic::div_mod::lemma_fundamental_div_mod_converse;

verus! {

/// The term layout of an operator in compressed-sparse-row form: the elementary actions of all
/// terms concatenated, and the offsets at which each term starts and ends.
///
/// An operator is this layout with one coefficient per term beside it. Every operation here
/// says, term by term, where each term of its result comes from, so that the coefficient of each
/// term can follow it.
#[derive(Clone, Debug)]
pub struct Terms<A> {
    pub items: Vec<A>,
    pub boundaries: Vec<usize>,
}

/// The items stored between two offsets.
pub open spec fn slice_items<A>(items: Seq<A>, start: int, end: int) -> Seq<A> {
    Seq::new((end - start) as nat, |k: int| items[start + k])
}

/// The terms of the product `a & b`: for each term of `a` in turn, and for each term of `b`
/// within it, the term of `b` followed by the term of `a` (the right operand acts first).
pub open spec fn composed_terms<A>(a: Seq<Seq<A>>, b: Seq<Seq<A>>) -> Seq<Seq<A>> {
    Seq::new(a.len() * b.len(), |k: int| b[k % (b.len() as int)] + a[k / (b.len() as int)])
}

/// The terms of the `n`-fold product `one() & a & ... & a`.
pub open spec fn power_terms<A>(a: Seq<Seq<A>>, n: nat) -> Seq<Seq<A>>
    decreases n,
{
    if n == 0 {
        seq![Seq::<A>::empty()]
    } else {
        composed_terms(power_terms(a, (n - 1) as nat), a)
    }
}

/// Number of terms of the `n`-th power of an operator with `m` terms.
pub open spec fn power_count(m: nat, n: nat) -> nat
    decreases n,
{
    if n == 0 {
        1
    } else {
        power_count(m, (n - 1) as nat) * m
    }
}

/// Number of actions over all terms of the `n`-th power of an operator with `m` terms and
/// `l` actions.
pub open spec fn power_items(l: nat, m: nat, n: nat) -> nat
    decreases n,
{
    if n == 0 {
        0
    } else {
        power_items(l, m, (n - 1) as nat) * m + l * power_count(m, (n - 1) as nat)
    }
}

/// Total length of a sequence of terms.
pub open spec fn total_len<A>(ts: Seq<Seq<A>>) -> nat
    decreases ts.len(),
{
    if ts.len() == 0 {
        0
    } else {
        total_len(ts.drop_last()) + ts.last().len()
    }
}

/// The length of the longest term, 0 when there are none.
pub open spec fn max_len<A>(ts: Seq<Seq<A>>) -> nat
    decreases ts.len(),
{
    if ts.len() == 0 {
        0
    } else {
        let m = max_len(ts.drop_last());
        if ts.last().len() > m {
            ts.last().len()
        } else {
            m
        }
    }
}

/// Terms `i` of `ts` for which `keep[i]` holds, in order.
pub open spec fn kept<A>(ts: Seq<Seq<A>>, keep: Seq<bool>) -> Seq<Seq<A>>
    decreases ts.len(),
{
    if ts.len() == 0 || keep.len() != ts.len() {
        Seq::empty()
    } else {
        let rest = kept(ts.drop_last(), keep.drop_last());
        if keep.last() {
            rest.push(ts.last())
        } else {
            rest
        }
    }
}

proof fn lemma_max_len_bounds<A>(ts: Seq<Seq<A>>)
    ensures
        forall|i: int| 0 <= i < ts.len() ==> (#[trigger] ts[i]).len() <= max_len(ts),
        ts.len() == 0 ==> max_len(ts) == 0,
        ts.len() > 0 ==> exists|i: int| 0 <= i < ts.len() && (#[trigger] ts[i]).len() == max_len(ts),
    decreases ts.len(),
{
    if ts.len() > 0 {
        lemma_max_len_bounds(ts.drop_last());
        assert forall|i: int| 0 <= i < ts.len() implies (#[trigger] ts[i]).len() <= max_len(ts) by {
            if i < ts.len() - 1 {
                assert(ts[i] == ts.drop_last()[i]);
            }
        }
        if ts.len() > 1 && ts.last().len() <= max_len(ts.drop_last()) {
            let i = choose|i: int|
                0 <= i < ts.drop_last().len() && (#[trigger] ts.drop_last()[i]).len() == max_len(
                    ts.drop_last(),
                );
            assert(ts[i] == ts.drop_last()[i]);
        } else {
            assert(ts[ts.len() - 1] == ts.last());
        }
    }
}

impl<A: Copy> Terms<A> {
    /// Offsets start at 0, never decrease, and end at the number of items.
    pub open spec fn wf(&self) -> bool {
        &&& self.boundaries@.len() >= 1
        &&& self.boundaries@[0] == 0
        &&& forall|i: int, j: int|
            0 <= i <= j < self.boundaries@.len() ==> self.boundaries@[i] <= self.boundaries@[j]
        &&& self.boundaries@.last() == self.items@.len()
    }

    pub open spec fn term(&self, i: int) -> Seq<A> {
        slice_items(self.items@, self.boundaries@[i] as int, self.boundaries@[i + 1] as int)
    }

    /// The operator's terms, in storage order.
    pub open spec fn terms(&self) -> Seq<Seq<A>> {
        Seq::new((self.boundaries@.len() - 1) as nat, |i: int| self.term(i))
    }

    proof fn lemma_term_len(&self, i: int)
        requires
            self.wf(),
            0 <= i < self.terms().len(),
        ensures
            self.terms()[i].len() == self.boundaries@[i + 1] - self.boundaries@[i],
            self.boundaries@[i + 1] <= self.items@.len(),
    {
    }

    /// The offsets are the running totals of the term lengths.
    proof fn lemma_total_len(&self, i: int)
        requires
            self.wf(),
            0 <= i <= self.terms().len(),
        ensures
            total_len(self.terms().subrange(0, i)) == self.boundaries@[i],
        decreases i,
    {
        if i > 0 {
            self.lemma_total_len(i - 1);
            assert(self.terms().subrange(0, i).drop_last() =~= self.terms().subrange(0, i - 1));
        }
    }

    /// The additive identity: no terms.
    pub fn zero() -> (r: Self)
        ensures
            r.wf(),
            r.terms() == Seq::<Seq<A>>::empty(),
            r.items@.len() == 0,
            r.boundaries@ == seq![0usize],
    {
        let r = Terms { items: Vec::new(), boundaries: vec![0] };
        assert(r.terms() =~= Seq::<Seq<A>>::empty());
        assert(r.boundaries@ =~= seq![0usize]);
        r
    }

    /// The multiplicative identity: one empty term.
    pub fn one() -> (r: Self)
        ensures
            r.wf(),
            r.terms() == seq![Seq::<A>::empty()],
            r.items@.len() == 0,
    {
        let r = Terms { items: Vec::new(), boundaries: vec![0, 0] };
        assert(r.term(0) =~= Seq::<A>::empty());
        assert(r.terms() =~= seq![Seq::<A>::empty()]);
        r
    }

    /// Number of terms.
    pub fn len(&self) -> (r: usize)
        requires
            self.wf(),
        ensures
            r == self.terms().len(),
    {
        self.boundaries.len() - 1
    }

    /// Number of elementary actions over all terms.
    pub fn num_items(&self) -> (r: usize)
        requires
            self.wf(),
        ensures
            r == self.items@.len(),
            r == total_len(self.terms()),
    {
        proof {
            self.lemma_total_len(self.terms().len() as int);
            assert(self.terms().subrange(0, self.terms().len() as int) =~= self.terms());
        }
        self.items.len()
    }

    /// Appends one term.
    pub fn push_term(&mut self, t: &Vec<A>)
        requires
            old(self).wf(),
            old(self).items@.len() + t@.len() <= usize::MAX,
        ensures
            final(self).wf(),
            final(self).terms() == old(self).terms().push(t@),
            final(self).items@.len() == old(self).items@.len() + t@.len(),
            final(self).boundaries@ == old(self).boundaries@.push(final(self).items@.len() as usize),
    {
        let ghost old_self = *self;
        let ghost ol = old_self.items@.len() as int;
        let n = t.len();
        let mut k: usize = 0;
        while k < n
            invariant
                0 <= k <= n,
                n == t@.len(),
                old_self.wf(),
                ol == old_self.items@.len(),
                self.boundaries@ == old_self.boundaries@,
                self.items@.len() == ol + k,
                ol + n <= usize::MAX,
                self.items@.subrange(0, ol) == old_self.items@,
                forall|q: int| 0 <= q < k ==> self.items@[ol + q] == t@[q],
            decreases n - k,
        {
            self.items.push(t[k]);
            assert(self.items@.subrange(0, ol) =~= old_self.items@);
            k = k + 1;
        }
        self.boundaries.push(self.items.len());
        let ghost nt = old_self.terms().len() as int;
        assert forall|x: int| 0 <= x < ol implies #[trigger] self.items@[x] == old_self.items@[x] by {
            assert(self.items@.subrange(0, ol)[x] == self.items@[x]);
        }
        assert forall|i: int| 0 <= i < nt implies self.term(i) == old_self.term(i) by {
            assert(old_self.boundaries@[i + 1] <= old_self.boundaries@.last());
            assert(self.term(i) =~= old_self.term(i));
        }
        assert(self.term(nt) =~= t@);
        assert(self.terms() =~= old_self.terms().push(t@));
    }

    /// The actions of term `i`.
    pub fn get_term(&self, i: usize) -> (r: Vec<A>)
        requires
            self.wf(),
            i < self.terms().len(),
        ensures
            r@ == self.terms()[i as int],
    {
        let nb = self.boundaries.len();
        assert(self.terms().len() == nb - 1);
        let s = self.boundaries[i];
        let e = self.boundaries[i + 1];
        assert(s <= e);
        assert(e <= self.boundaries@.last());
        let mut r: Vec<A> = Vec::new();
        let mut k: usize = s;
        while k < e
            invariant
                s <= k <= e,
                e <= self.items@.len(),
                self.wf(),
                r@ == slice_items(self.items@, s as int, k as int),
            decreases e - k,
        {
            r.push(self.items[k]);
            k = k + 1;
            assert(r@ =~= slice_items(self.items@, s as int, k as int));
        }
        r
    }

    /// Length of term `i`.
    pub fn term_len(&self, i: usize) -> (r: usize)
        requires
            self.wf(),
            i < self.terms().len(),
        ensures
            r == self.terms()[i as int].len(),
    {
        let nb = self.boundaries.len();
        proof {
            self.lemma_term_len(i as int);
        }
        assert(i + 1 < nb);
        self.boundaries[i + 1] - self.boundaries[i]
    }

    /// In-place sum: appends the terms of `other`, merging nothing.
    pub fn iadd(&mut self, other: &Self)
        requires
            old(self).wf(),
            other.wf(),
            old(self).items@.len() + other.items@.len() <= usize::MAX,
        ensures
            final(self).wf(),
            final(self).terms() == old(self).terms() + other.terms(),
            final(self).items@.len() == old(self).items@.len() + other.items@.len(),
    {
        let ghost start = self.terms();
        let ghost l0 = self.items@.len();
        let m = other.len();
        let mut j: usize = 0;
        while j < m
            invariant
                j <= m,
                m == other.terms().len(),
                other.wf(),
                self.wf(),
                self.terms() == start + other.terms().subrange(0, j as int),
                self.items@.len() == l0 + other.boundaries@[j as int],
                l0 + other.items@.len() <= usize::MAX,
            decreases m - j,
        {
            let t = other.get_term(j);
            proof {
                other.lemma_term_len(j as int);
            }
            self.push_term(&t);
            j = j + 1;
            assert(self.terms() =~= start + other.terms().subrange(0, j as int));
        }
        assert(other.terms().subrange(0, m as int) =~= other.terms());
    }

    /// The sum `self + other`.
    pub fn add(&self, other: &Self) -> (r: Self)
        requires
            self.wf(),
            other.wf(),
            self.items@.len() + other.items@.len() <= usize::MAX,
        ensures
            r.wf(),
            r.terms() == self.terms() + other.terms(),
    {
        let mut r = Self::zero();
        r.iadd(self);
        assert(Seq::<Seq<A>>::empty() + self.terms() =~= self.terms());
        r.iadd(other);
        r
    }

    /// The product `self & other`: every term of `other` followed by every term of `self`.
    pub fn compose(&self, other: &Self) -> (r: Self)
        requires
            self.wf(),
            other.wf(),
            self.items@.len() * other.terms().len() + other.items@.len() * self.terms().len()
                <= usize::MAX,
        ensures
            r.wf(),
            r.terms() == composed_terms(self.terms(), other.terms()),
            r.items@.len() == self.items@.len() * other.terms().len() + other.items@.len()
                * self.terms().len(),
    {
        let ghost full = composed_terms(self.terms(), other.terms());
        let ghost la = self.items@.len() as int;
        let ghost lb = other.items@.len() as int;
        let n = self.len();
        let m = other.len();
        let mut r = Self::zero();
        let mut i: usize = 0;
        assert(m * self.boundaries@[0] + 0 * lb == 0) by (nonlinear_arith)
            requires
                self.boundaries@[0] == 0,
        ;
        assert(0 * m <= n * m) by (nonlinear_arith);
        while i < n
            invariant
                i <= n,
                n == self.terms().len(),
                m == other.terms().len(),
                self.wf(),
                other.wf(),
                r.wf(),
                full == composed_terms(self.terms(), other.terms()),
                i * m <= n * m,
                full.len() == n * m,
                r.terms() == full.subrange(0, i * m),
                r.items@.len() == m * self.boundaries@[i as int] + i * lb,
                la == self.items@.len(),
                lb == other.items@.len(),
                la * m + lb * n <= usize::MAX,
            decreases n - i,
        {
            let left = self.get_term(i);
            proof {
                self.lemma_term_len(i as int);
            }
            let ghost li = left@.len() as int;
            let mut j: usize = 0;
            while j < m
                invariant
                    j <= m,
                    i < n,
                    n == self.terms().len(),
                    m == other.terms().len(),
                    self.wf(),
                    other.wf(),
                    r.wf(),
                    left@ == self.terms()[i as int],
                    li == left@.len(),
                    li == self.boundaries@[i + 1] - self.boundaries@[i as int],
                    self.boundaries@[i + 1] <= la,
                    full == composed_terms(self.terms(), other.terms()),
                    i * m + j <= n * m,
                    full.len() == n * m,
                    r.terms() == full.subrange(0, i * m + j),
                    r.items@.len() == m * self.boundaries@[i as int] + i * lb + j * li
                        + other.boundaries@[j as int],
                    la == self.items@.len(),
                    lb == other.items@.len(),
                    la * m + lb * n <= usize::MAX,
                decreases m - j,
            {
                let right = other.get_term(j);
                proof {
                    other.lemma_term_len(j as int);
                }
                let ghost bj1 = other.boundaries@[j + 1] as int;
                let ghost bi = self.boundaries@[i as int] as int;
                assert(r.items@.len() + right@.len() + left@.len() <= usize::MAX) by {
                    assert(j * li + li <= m * li) by (nonlinear_arith)
                        requires
                            j < m,
                            li >= 0,
                    ;
                    assert(m * bi + m * li == m * (bi + li)) by (nonlinear_arith);
                    assert(m * (bi + li) <= m * la) by (nonlinear_arith)
                        requires
                            bi + li <= la,
                            m >= 0,
                    ;
                    assert(i * lb + lb <= n * lb) by (nonlinear_arith)
                        requires
                            i < n,
                            lb >= 0,
                    ;
                    assert(la * m == m * la && lb * n == n * lb) by (nonlinear_arith);
                    assert(bj1 <= lb);
                }
                let mut t = right;
                let ghost rt = t@;
                let mut k: usize = 0;
                while k < left.len()
                    invariant
                        k <= left@.len(),
                        t@ == rt + left@.subrange(0, k as int),
                    decreases left@.len() - k,
                {
                    t.push(left[k]);
                    k = k + 1;
                    assert(t@ =~= rt + left@.subrange(0, k as int));
                }
                assert(left@.subrange(0, left@.len() as int) =~= left@);
                r.push_term(&t);
                proof {
                    let idx = i * m + j;
                    assert(idx / (m as int) == i && idx % (m as int) == j) by {
                        lemma_fundamental_div_mod_converse(idx, m as int, i as int, j as int);
                    }
                    assert(i * m + j < n * m) by (nonlinear_arith)
                        requires
                            i < n,
                            j < m,
                    ;
                    assert(full[idx] == t@);
                    assert(idx + 1 <= n * m);
                    assert(r.terms() =~= full.subrange(0, idx + 1));
                    assert((j + 1) * li == j * li + li) by (nonlinear_arith);
                }
                j = j + 1;
            }
            proof {
                assert(i * m + m == (i + 1) * m) by (nonlinear_arith);
                assert((i + 1) * m <= n * m) by (nonlinear_arith)
                    requires
                        i < n,
                ;
                assert((i + 1) * lb == i * lb + lb) by (nonlinear_arith);
                assert(m * (self.boundaries@[i as int] as int) + m * li == m * (
                self.boundaries@[i + 1] as int)) by (nonlinear_arith)
                    requires
                        li == self.boundaries@[i + 1] - self.boundaries@[i as int],
                ;
            }
            i = i + 1;
        }
        proof {
            assert(full.len() == n * m);
            assert(full.subrange(0, n * m) =~= full);
            assert(m * la + n * lb == la * m + lb * n) by (nonlinear_arith);
        }
        r
    }

    /// The `exponent`-fold product of `self` with itself; the zeroth power is `one()`.
    pub fn power(&self, exponent: usize) -> (r: Self)
        requires
            self.wf(),
            forall|k: nat|
                k <= exponent ==> #[trigger] power_items(
                    self.items@.len(),
                    self.terms().len(),
                    k,
                ) <= usize::MAX,
        ensures
            r.wf(),
            r.terms() == power_terms(self.terms(), exponent as nat),
    {
        let ghost l = self.items@.len();
        let ghost m = self.terms().len();
        let mut r = Self::one();
        let mut k: usize = 0;
        assert(r.terms() == power_terms(self.terms(), 0));
        while k < exponent
            invariant
                k <= exponent,
                self.wf(),
                r.wf(),
                l == self.items@.len(),
                m == self.terms().len(),
                r.terms() == power_terms(self.terms(), k as nat),
                r.items@.len() == power_items(l, m, k as nat),
                r.terms().len() == power_count(m, k as nat),
                forall|q: nat| q <= exponent ==> #[trigger] power_items(l, m, q) <= usize::MAX,
            decreases exponent - k,
        {
            proof {
                assert(power_items(l, m, (k + 1) as nat) <= usize::MAX);
                assert(r.items@.len() * m + l * r.terms().len() == power_items(l, m, (k + 1) as nat));
            }
            r = r.compose(self);
            proof {
                assert(r.terms().len() == power_count(m, (k + 1) as nat));
            }
            k = k + 1;
        }
        r
    }

    /// The terms `i` with `keep[i]`, in order.
    pub fn retain(&self, keep: &Vec<bool>) -> (r: Self)
        requires
            self.wf(),
            keep@.len() == self.terms().len(),
        ensures
            r.wf(),
            r.terms() == kept(self.terms(), keep@),
            r.items@.len() <= self.items@.len(),
    {
        let n = self.len();
        let mut r = Self::zero();
        let mut i: usize = 0;
        while i < n
            invariant
                i <= n,
                n == self.terms().len(),
                keep@.len() == n,
                self.wf(),
                r.wf(),
                r.terms() == kept(self.terms().subrange(0, i as int), keep@.subrange(0, i as int)),
                r.items@.len() <= self.boundaries@[i as int],
            decreases n - i,
        {
            proof {
                self.lemma_term_len(i as int);
                assert(self.terms().subrange(0, i + 1).drop_last() =~= self.terms().subrange(
                    0,
                    i as int,
                ));
                assert(keep@.subrange(0, i + 1).drop_last() =~= keep@.subrange(0, i as int));
            }
            if keep[i] {
                let t = self.get_term(i);
                r.push_term(&t);
            }
            i = i + 1;
        }
        proof {
            assert(self.terms().subrange(0, n as int) =~= self.terms());
            assert(keep@.subrange(0, n as int) =~= keep@);
        }
        r
    }

    /// Many-body order: the length of the longest term, 0 when there is none.
    pub fn many_body_order(&self) -> (r: usize)
        requires
            self.wf(),
        ensures
            r == max_len(self.terms()),
    {
        let n = self.len();
        let mut best: usize = 0;
        let mut i: usize = 0;
        while i < n
            invariant
                i <= n,
                n == self.terms().len(),
                self.wf(),
                best == max_len(self.terms().subrange(0, i as int)),
            decreases n - i,
        {
            let d = self.term_len(i);
            proof {
                assert(self.terms().subrange(0, i + 1).drop_last() =~= self.terms().subrange(
                    0,
                    i as int,
                ));
            }
            if d > best {
                best = d;
            }
            i = i + 1;
        }
        assert(self.terms().subrange(0, n as int) =~= self.terms());
        best
    }
}

/// The longest term is as long as every term, and is one of them.
pub proof fn lemma_many_body_order<A>(ts: Seq<Seq<A>>)
    ensures
        forall|i: int| 0 <= i < ts.len() ==> (#[trigger] ts[i]).len() <= max_len(ts),
        ts.len() > 0 ==> exists|i: int| 0 <= i < ts.len() && (#[trigger] ts[i]).len() == max_len(ts),
{
    lemma_max_len_bounds(ts);
}

} // verus!
