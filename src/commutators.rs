use vstd::prelude::*;
use crate::terms::{Terms, composed_terms};

verus! {

/// The terms of `a & b` followed by those of `b & a`: the layout of both the commutator
/// `a & b - b & a` and the anticommutator `a & b + b & a`.
pub open spec fn commutator_terms<A>(a: Seq<Seq<A>>, b: Seq<Seq<A>>) -> Seq<Seq<A>> {
    composed_terms(a, b) + composed_terms(b, a)
}

/// The size that the layout of `a & b` and `b & a` together takes.
pub open spec fn commutator_size<A: Copy>(a: Terms<A>, b: Terms<A>) -> nat {
    2 * (a.items@.len() * b.terms().len() + b.items@.len() * a.terms().len())
}

fn both_products<A: Copy>(a: &Terms<A>, b: &Terms<A>) -> (r: Terms<A>)
    requires
        a.wf(),
        b.wf(),
        commutator_size(*a, *b) <= usize::MAX,
    ensures
        r.wf(),
        r.terms() == commutator_terms(a.terms(), b.terms()),
{
    let ab = a.compose(b);
    assert(b.items@.len() * a.terms().len() + a.items@.len() * b.terms().len() <= usize::MAX);
    let ba = b.compose(a);
    ab.add(&ba)
}

/// The commutator `[a, b] = a & b - b & a`: its layout, and for each term whether its
/// coefficient, the product of the two factors' coefficients, is negated.
pub fn commutator<A: Copy>(a: &Terms<A>, b: &Terms<A>) -> (r: (Terms<A>, Vec<bool>))
    requires
        a.wf(),
        b.wf(),
        commutator_size(*a, *b) <= usize::MAX,
    ensures
        r.0.wf(),
        r.0.terms() == commutator_terms(a.terms(), b.terms()),
        r.1@ == Seq::new(
            r.0.terms().len(),
            |k: int| k >= a.terms().len() * b.terms().len(),
        ),
{
    let t = both_products(a, b);
    let total = t.len();
    assert(total == 2 * (a.terms().len() * b.terms().len())) by {
        assert(a.terms().len() * b.terms().len() == b.terms().len() * a.terms().len())
            by (nonlinear_arith);
    }
    let half = total / 2;
    let mut negated: Vec<bool> = Vec::new();
    let mut k: usize = 0;
    while k < total
        invariant
            k <= total,
            negated@ == Seq::new(k as nat, |q: int| q >= half),
        decreases total - k,
    {
        negated.push(k >= half);
        k = k + 1;
        assert(negated@ =~= Seq::new(k as nat, |q: int| q >= half));
    }
    (t, negated)
}

/// The anticommutator `{a, b} = a & b + b & a`: every coefficient keeps its sign.
pub fn anti_commutator<A: Copy>(a: &Terms<A>, b: &Terms<A>) -> (r: Terms<A>)
    requires
        a.wf(),
        b.wf(),
        commutator_size(*a, *b) <= usize::MAX,
    ensures
        r.wf(),
        r.terms() == commutator_terms(a.terms(), b.terms()),
{
    both_products(a, b)
}

/// The commutator is antisymmetric: `[b, a]` holds the terms of `[a, b]` with its two halves
/// exchanged, so that every term of `[a, b]` appears in `[b, a]` with the opposite sign.
pub proof fn lemma_commutator_antisymmetric<A>(a: Seq<Seq<A>>, b: Seq<Seq<A>>)
    ensures
        commutator_terms(b, a).len() == commutator_terms(a, b).len(),
        commutator_terms(a, b).len() == 2 * (a.len() * b.len()),
        forall|k: int|
            0 <= k < a.len() * b.len() ==> #[trigger] commutator_terms(b, a)[k] == commutator_terms(
                a,
                b,
            )[k + a.len() * b.len()],
        forall|k: int|
            a.len() * b.len() <= k < 2 * (a.len() * b.len()) ==> #[trigger] commutator_terms(
                b,
                a,
            )[k] == commutator_terms(a, b)[k - a.len() * b.len()],
{
    assert(a.len() * b.len() == b.len() * a.len()) by (nonlinear_arith);
}

/// Adding the zero operator changes nothing: `a + zero()` has the terms of `a`.
pub proof fn lemma_add_zero<A>(a: Seq<Seq<A>>)
    ensures
        a + Seq::<Seq<A>>::empty() == a,
{
    assert(a + Seq::<Seq<A>>::empty() =~= a);
}

/// Composing with the identity changes nothing: `a & one()` has the terms of `a`, in order.
pub proof fn lemma_compose_one<A>(a: Seq<Seq<A>>)
    ensures
        composed_terms(a, seq![Seq::<A>::empty()]) == a,
{
    let one = seq![Seq::<A>::empty()];
    let c = composed_terms(a, one);
    assert(one.len() == 1);
    assert(a.len() * one.len() == a.len()) by (nonlinear_arith)
        requires
            one.len() == 1,
    ;
    assert forall|k: int| 0 <= k < c.len() implies c[k] == a[k] by {
        assert(k / 1 == k && k % 1 == 0);
        assert(one[0] == Seq::<A>::empty());
        assert(Seq::<A>::empty() + a[k] =~= a[k]);
    }
    assert(c =~= a);
}


/// The size that the layout of a product of two factors takes.
pub open spec fn pair_size<A: Copy>(a: Terms<A>, b: Terms<A>) -> nat {
    a.items@.len() * b.terms().len() + b.items@.len() * a.terms().len()
}

/// The size that the layout of a product of three factors takes, in whichever order.
pub open spec fn triple_size<A: Copy>(a: Terms<A>, b: Terms<A>, c: Terms<A>) -> nat {
    a.items@.len() * (b.terms().len() * c.terms().len()) + b.items@.len() * (a.terms().len()
        * c.terms().len()) + c.items@.len() * (a.terms().len() * b.terms().len())
}

/// The six triple products of the double commutator, in the order `abc`, `cba`, `bac`, `cab`,
/// `acb`, `bca`, where `xyz` is `(x & y) & z` for `abc`, `bac` and `acb`, and `x & (y & z)`
/// for `cba`, `cab` and `bca`.
pub open spec fn double_commutator_terms<A>(a: Seq<Seq<A>>, b: Seq<Seq<A>>, c: Seq<Seq<A>>) -> Seq<
    Seq<A>,
> {
    composed_terms(composed_terms(a, b), c) + composed_terms(c, composed_terms(b, a))
        + composed_terms(composed_terms(b, a), c) + composed_terms(c, composed_terms(a, b))
        + composed_terms(composed_terms(a, c), b) + composed_terms(b, composed_terms(c, a))
}

/// The weight of block `k` of the double commutator, as (negated, halved): `abc - s cba +
/// (-bac + s cab - acb - s bca) / 2`, with `s = +1` when `sign` holds and `-1` otherwise.
pub open spec fn double_commutator_weight(k: int, sign: bool) -> (bool, bool) {
    if k == 0 {
        (false, false)
    } else if k == 1 {
        (sign, false)
    } else if k == 2 {
        (true, true)
    } else if k == 3 {
        (!sign, true)
    } else if k == 4 {
        (true, true)
    } else {
        (sign, true)
    }
}

proof fn lemma_product_sizes<A: Copy>(a: Terms<A>, b: Terms<A>, c: Terms<A>)
    ensures
        pair_size(a, b) * c.terms().len() + c.items@.len() * (a.terms().len() * b.terms().len())
            == triple_size(a, b, c),
        c.items@.len() * (a.terms().len() * b.terms().len()) + pair_size(a, b) * c.terms().len()
            == triple_size(a, b, c),
        pair_size(a, b) == pair_size(b, a),
{
    let la = a.items@.len() as int;
    let lb = b.items@.len() as int;
    let lc = c.items@.len() as int;
    let na = a.terms().len() as int;
    let nb = b.terms().len() as int;
    let nc = c.terms().len() as int;
    assert((la * nb + lb * na) * nc == la * (nb * nc) + lb * (na * nc)) by (nonlinear_arith);
    assert(lb * na + la * nb == la * nb + lb * na);
}

/// The double commutator of `a`, `b` and `c`: the layout of its six triple products, and for
/// each term its weight as (negated, halved) on the product of the three factors'
/// coefficients.
pub fn double_commutator<A: Copy>(a: &Terms<A>, b: &Terms<A>, c: &Terms<A>, sign: bool) -> (r: (
    Terms<A>,
    Vec<(bool, bool)>,
))
    requires
        a.wf(),
        b.wf(),
        c.wf(),
        pair_size(*a, *b) <= usize::MAX,
        pair_size(*a, *c) <= usize::MAX,
        pair_size(*b, *c) <= usize::MAX,
        6 * triple_size(*a, *b, *c) <= usize::MAX,
    ensures
        r.0.wf(),
        r.0.terms() == double_commutator_terms(a.terms(), b.terms(), c.terms()),
        r.1@.len() == r.0.terms().len(),
        forall|k: int|
            0 <= k < r.1@.len() ==> #[trigger] r.1@[k] == double_commutator_weight(
                k / (a.terms().len() * b.terms().len() * c.terms().len()) as int,
                sign,
            ),
{
    proof {
        lemma_product_sizes(*a, *b, *c);
        lemma_product_sizes(*b, *a, *c);
        lemma_product_sizes(*a, *c, *b);
        lemma_product_sizes(*c, *a, *b);
        lemma_product_sizes(*c, *b, *a);
        lemma_product_sizes(*b, *c, *a);
        let la = a.items@.len() as int;
        let lb = b.items@.len() as int;
        let lc = c.items@.len() as int;
        let na = a.terms().len() as int;
        let nb = b.terms().len() as int;
        let nc = c.terms().len() as int;
        assert(triple_size(*b, *a, *c) == triple_size(*a, *b, *c)) by (nonlinear_arith)
            requires
                triple_size(*b, *a, *c) == lb * (na * nc) + la * (nb * nc) + lc * (nb * na),
                triple_size(*a, *b, *c) == la * (nb * nc) + lb * (na * nc) + lc * (na * nb),
        ;
        assert(triple_size(*a, *c, *b) == triple_size(*a, *b, *c)) by (nonlinear_arith)
            requires
                triple_size(*a, *c, *b) == la * (nc * nb) + lc * (na * nb) + lb * (na * nc),
                triple_size(*a, *b, *c) == la * (nb * nc) + lb * (na * nc) + lc * (na * nb),
        ;
        assert(triple_size(*c, *a, *b) == triple_size(*a, *b, *c)) by (nonlinear_arith)
            requires
                triple_size(*c, *a, *b) == lc * (na * nb) + la * (nc * nb) + lb * (nc * na),
                triple_size(*a, *b, *c) == la * (nb * nc) + lb * (na * nc) + lc * (na * nb),
        ;
        assert(triple_size(*c, *b, *a) == triple_size(*a, *b, *c)) by (nonlinear_arith)
            requires
                triple_size(*c, *b, *a) == lc * (nb * na) + lb * (nc * na) + la * (nc * nb),
                triple_size(*a, *b, *c) == la * (nb * nc) + lb * (na * nc) + lc * (na * nb),
        ;
        assert(triple_size(*b, *c, *a) == triple_size(*a, *b, *c)) by (nonlinear_arith)
            requires
                triple_size(*b, *c, *a) == lb * (nc * na) + lc * (nb * na) + la * (nb * nc),
                triple_size(*a, *b, *c) == la * (nb * nc) + lb * (na * nc) + lc * (na * nb),
        ;
        assert(pair_size(*c, *a) == pair_size(*a, *c)) by (nonlinear_arith)
            requires
                pair_size(*c, *a) == lc * na + la * nc,
                pair_size(*a, *c) == la * nc + lc * na,
        ;
    }
    let ab = a.compose(b);
    let ba = b.compose(a);
    let ac = a.compose(c);
    let ca = c.compose(a);
    let abc = ab.compose(c);
    let cba = c.compose(&ba);
    let bac = ba.compose(c);
    let cab = c.compose(&ab);
    let acb = ac.compose(b);
    let bca = b.compose(&ca);
    let ghost t = triple_size(*a, *b, *c);
    let mut r = abc;
    r.iadd(&cba);
    r.iadd(&bac);
    r.iadd(&cab);
    r.iadd(&acb);
    r.iadd(&bca);
    let ghost n = a.terms().len() * b.terms().len() * c.terms().len();
    proof {
        let na = a.terms().len() as int;
        let nb = b.terms().len() as int;
        let nc = c.terms().len() as int;
        assert(abc.terms().len() == n) by (nonlinear_arith)
            requires
                abc.terms().len() == (na * nb) * nc,
                n == na * nb * nc,
        ;
        assert(cba.terms().len() == n) by (nonlinear_arith)
            requires
                cba.terms().len() == nc * (nb * na),
                n == na * nb * nc,
        ;
        assert(bac.terms().len() == n) by (nonlinear_arith)
            requires
                bac.terms().len() == (nb * na) * nc,
                n == na * nb * nc,
        ;
        assert(cab.terms().len() == n) by (nonlinear_arith)
            requires
                cab.terms().len() == nc * (na * nb),
                n == na * nb * nc,
        ;
        assert(acb.terms().len() == n) by (nonlinear_arith)
            requires
                acb.terms().len() == (na * nc) * nb,
                n == na * nb * nc,
        ;
        assert(bca.terms().len() == n) by (nonlinear_arith)
            requires
                bca.terms().len() == nb * (nc * na),
                n == na * nb * nc,
        ;
    }
    let total = r.len();
    let block = total / 6;
    let mut weights: Vec<(bool, bool)> = Vec::new();
    let mut k: usize = 0;
    while k < total
        invariant
            k <= total,
            total == r.terms().len(),
            total == 6 * n,
            block == n,
            weights@.len() == k,
            forall|q: int|
                0 <= q < k ==> #[trigger] weights@[q] == double_commutator_weight(
                    q / (n as int),
                    sign,
                ),
        decreases total - k,
    {
        let blk = k / block;
        let w = if blk == 0 {
            (false, false)
        } else if blk == 1 {
            (sign, false)
        } else if blk == 2 {
            (true, true)
        } else if blk == 3 {
            (!sign, true)
        } else if blk == 4 {
            (true, true)
        } else {
            (sign, true)
        };
        weights.push(w);
        k = k + 1;
    }
    (r, weights)
}

} // verus!
