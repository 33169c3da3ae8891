use vstd::prelude::*;
use vstd::arithmetic::div_mod::lemma_fundamental_div_mod_converse;
use crate::fermion::FermionAction;
use crate::terms::Terms;

verus! {

/// A term of a mapped operator: the power `p` of the phase `i^p` on its coefficient, and its
/// actions.
pub type PhasedTerm<B> = (u8, Vec<B>);

pub open spec fn phased_view<B>(v: Seq<PhasedTerm<B>>) -> Seq<(nat, Seq<B>)> {
    Seq::new(v.len(), |k: int| (v[k].0 as nat, v[k].1@))
}

/// The product of two phased sums, with the convention of `compose`: for each term of `acc`
/// in turn, and for each term of `m` within it, the actions of `m`'s term followed by those of
/// `acc`'s term, the phases added modulo 4.
pub open spec fn phased_compose<B>(acc: Seq<(nat, Seq<B>)>, m: Seq<(nat, Seq<B>)>) -> Seq<
    (nat, Seq<B>),
> {
    Seq::new(
        acc.len() * m.len(),
        |k: int|
            (
                ((acc[k / (m.len() as int)].0 + m[k % (m.len() as int)].0) % 4) as nat,
                m[k % (m.len() as int)].1 + acc[k / (m.len() as int)].1,
            ),
    )
}

/// A fermionic action on mode `j` as Majorana operators, up to the factor 1/2: creation is
/// `g(2j) - i g(2j+1)`, annihilation `g(2j) + i g(2j+1)`.
pub open spec fn action_to_majorana(a: FermionAction) -> Seq<(nat, Seq<u32>)> {
    seq![
        (0nat, seq![(2 * a.1) as u32]),
        (if a.0 {
            3nat
        } else {
            1nat
        }, seq![(2 * a.1 + 1) as u32]),
    ]
}

/// A fermionic term as a sum of Majorana terms: the product of its actions, in the order of
/// `compose`, up to the factor `2^-len`.
pub open spec fn term_to_majorana(t: Seq<FermionAction>) -> Seq<(nat, Seq<u32>)>
    decreases t.len(),
{
    if t.len() == 0 {
        seq![(0nat, Seq::<u32>::empty())]
    } else {
        phased_compose(term_to_majorana(t.drop_last()), action_to_majorana(t.last()))
    }
}

/// A Majorana mode `m` as fermionic operators on mode `j = m / 2`, the inverse of
/// `action_to_majorana`: `g(2j) = a+_j + a_j` and `g(2j+1) = i a+_j - i a_j`.
pub open spec fn mode_to_fermion(m: u32) -> Seq<(nat, Seq<FermionAction>)> {
    seq![
        (if m % 2 == 0 {
            0nat
        } else {
            1nat
        }, seq![(true, m / 2)]),
        (if m % 2 == 0 {
            0nat
        } else {
            3nat
        }, seq![(false, m / 2)]),
    ]
}

/// A Majorana term as a sum of fermionic terms: the product of its modes, in the order of
/// `compose`.
pub open spec fn term_to_fermion(t: Seq<u32>) -> Seq<(nat, Seq<FermionAction>)>
    decreases t.len(),
{
    if t.len() == 0 {
        seq![(0nat, Seq::<FermionAction>::empty())]
    } else {
        phased_compose(term_to_fermion(t.drop_last()), mode_to_fermion(t.last()))
    }
}

/// The product of two phased sums.
fn compose_phased<B: Copy>(acc: &Vec<PhasedTerm<B>>, m: &Vec<PhasedTerm<B>>) -> (r: Vec<
    PhasedTerm<B>,
>)
    requires
        forall|k: int| 0 <= k < acc@.len() ==> (#[trigger] acc@[k]).0 < 4,
        forall|k: int| 0 <= k < m@.len() ==> (#[trigger] m@[k]).0 < 4,
    ensures
        phased_view(r@) == phased_compose(phased_view(acc@), phased_view(m@)),
        forall|k: int| 0 <= k < r@.len() ==> (#[trigger] r@[k]).0 < 4,
{
    let ghost full = phased_compose(phased_view(acc@), phased_view(m@));
    let n = acc.len();
    let ml = m.len();
    let mut r: Vec<PhasedTerm<B>> = Vec::new();
    let mut i: usize = 0;
    assert(0 * ml <= n * ml) by (nonlinear_arith);
    while i < n
        invariant
            i <= n,
            n == acc@.len(),
            ml == m@.len(),
            full == phased_compose(phased_view(acc@), phased_view(m@)),
            full.len() == n * ml,
            i * ml <= n * ml,
            phased_view(r@) == full.subrange(0, i * ml),
            forall|k: int| 0 <= k < acc@.len() ==> (#[trigger] acc@[k]).0 < 4,
            forall|k: int| 0 <= k < m@.len() ==> (#[trigger] m@[k]).0 < 4,
            forall|k: int| 0 <= k < r@.len() ==> (#[trigger] r@[k]).0 < 4,
        decreases n - i,
    {
        let mut j: usize = 0;
        while j < ml
            invariant
                j <= ml,
                i < n,
                n == acc@.len(),
                ml == m@.len(),
                full == phased_compose(phased_view(acc@), phased_view(m@)),
                full.len() == n * ml,
                i * ml + j <= n * ml,
                phased_view(r@) == full.subrange(0, i * ml + j),
                forall|k: int| 0 <= k < acc@.len() ==> (#[trigger] acc@[k]).0 < 4,
                forall|k: int| 0 <= k < m@.len() ==> (#[trigger] m@[k]).0 < 4,
                forall|k: int| 0 <= k < r@.len() ==> (#[trigger] r@[k]).0 < 4,
            decreases ml - j,
        {
            let mut t: Vec<B> = Vec::new();
            let mut k: usize = 0;
            while k < m[j].1.len()
                invariant
                    k <= m@[j as int].1@.len(),
                    j < ml,
                    ml == m@.len(),
                    t@ == m@[j as int].1@.subrange(0, k as int),
                decreases m@[j as int].1@.len() - k,
            {
                t.push(m[j].1[k]);
                k = k + 1;
                assert(t@ =~= m@[j as int].1@.subrange(0, k as int));
            }
            let mut k: usize = 0;
            while k < acc[i].1.len()
                invariant
                    k <= acc@[i as int].1@.len(),
                    i < n,
                    n == acc@.len(),
                    j < ml,
                    ml == m@.len(),
                    t@ == m@[j as int].1@ + acc@[i as int].1@.subrange(0, k as int),
                decreases acc@[i as int].1@.len() - k,
            {
                t.push(acc[i].1[k]);
                k = k + 1;
                assert(t@ =~= m@[j as int].1@ + acc@[i as int].1@.subrange(0, k as int));
            }
            assert(m@[j as int].1@.subrange(0, m@[j as int].1@.len() as int) =~= m@[j as int].1@);
            assert(acc@[i as int].1@.subrange(0, acc@[i as int].1@.len() as int)
                =~= acc@[i as int].1@);
            let phase = (acc[i].0 + m[j].0) % 4;
            let ghost before = r@;
            r.push((phase, t));
            proof {
                let idx = i * ml + j;
                assert(idx / (ml as int) == i && idx % (ml as int) == j) by {
                    lemma_fundamental_div_mod_converse(idx, ml as int, i as int, j as int);
                }
                assert(i * ml + j < n * ml) by (nonlinear_arith)
                    requires
                        i < n,
                        j < ml,
                ;
                assert(phased_view(r@) =~= phased_view(before).push(full[idx]));
                assert(phased_view(r@) =~= full.subrange(0, idx + 1));
            }
            j = j + 1;
        }
        proof {
            assert(i * ml + ml == (i + 1) * ml) by (nonlinear_arith);
            assert((i + 1) * ml <= n * ml) by (nonlinear_arith)
                requires
                    i < n,
            ;
        }
        i = i + 1;
    }
    assert(full.subrange(0, n * ml) =~= full);
    r
}

fn one_phased<B>() -> (r: Vec<PhasedTerm<B>>)
    ensures
        phased_view(r@) == seq![(0nat, Seq::<B>::empty())],
        forall|k: int| 0 <= k < r@.len() ==> (#[trigger] r@[k]).0 < 4,
{
    let r = vec![(0u8, Vec::new())];
    assert(phased_view(r@) =~= seq![(0nat, Seq::<B>::empty())]);
    r
}

/// Maps one fermionic term to Majorana terms. The term with coefficient `c` becomes the sum of
/// the result's terms, each with coefficient `c * i^p / 2^len`.
pub fn fermion_term_to_majorana(t: &Vec<FermionAction>) -> (r: Vec<PhasedTerm<u32>>)
    requires
        forall|k: int| 0 <= k < t@.len() ==> (#[trigger] t@[k]).1 < 0x8000_0000,
    ensures
        phased_view(r@) == term_to_majorana(t@),
        forall|k: int| 0 <= k < r@.len() ==> (#[trigger] r@[k]).0 < 4,
{
    let mut acc = one_phased();
    let mut k: usize = 0;
    assert(t@.subrange(0, 0) =~= Seq::<FermionAction>::empty());
    while k < t.len()
        invariant
            k <= t@.len(),
            phased_view(acc@) == term_to_majorana(t@.subrange(0, k as int)),
            forall|q: int| 0 <= q < acc@.len() ==> (#[trigger] acc@[q]).0 < 4,
            forall|q: int| 0 <= q < t@.len() ==> (#[trigger] t@[q]).1 < 0x8000_0000,
        decreases t@.len() - k,
    {
        let (create, j) = t[k];
        let m: Vec<PhasedTerm<u32>> = vec![
            (0u8, vec![2 * j]),
            (if create { 3u8 } else { 1u8 }, vec![2 * j + 1]),
        ];
        assert(phased_view(m@) =~= action_to_majorana(t@[k as int])) by {
            assert(m@[0].1@ =~= seq![(2 * j) as u32]);
            assert(m@[1].1@ =~= seq![(2 * j + 1) as u32]);
        }
        acc = compose_phased(&acc, &m);
        assert(t@.subrange(0, k + 1).drop_last() =~= t@.subrange(0, k as int));
        k = k + 1;
    }
    assert(t@.subrange(0, t@.len() as int) =~= t@);
    acc
}

/// Maps one Majorana term to fermionic terms. The term with coefficient `c` becomes the sum of
/// the result's terms, each with coefficient `c * i^p`.
pub fn majorana_term_to_fermion(t: &Vec<u32>) -> (r: Vec<PhasedTerm<FermionAction>>)
    ensures
        phased_view(r@) == term_to_fermion(t@),
        forall|k: int| 0 <= k < r@.len() ==> (#[trigger] r@[k]).0 < 4,
{
    let mut acc = one_phased();
    let mut k: usize = 0;
    assert(t@.subrange(0, 0) =~= Seq::<u32>::empty());
    while k < t.len()
        invariant
            k <= t@.len(),
            phased_view(acc@) == term_to_fermion(t@.subrange(0, k as int)),
            forall|q: int| 0 <= q < acc@.len() ==> (#[trigger] acc@[q]).0 < 4,
        decreases t@.len() - k,
    {
        let mode = t[k];
        let m: Vec<PhasedTerm<FermionAction>> = vec![
            (if mode % 2 == 0 { 0u8 } else { 1u8 }, vec![(true, mode / 2)]),
            (if mode % 2 == 0 { 0u8 } else { 3u8 }, vec![(false, mode / 2)]),
        ];
        assert(phased_view(m@) =~= mode_to_fermion(t@[k as int])) by {
            assert(m@[0].1@ =~= seq![(true, mode / 2)]);
            assert(m@[1].1@ =~= seq![(false, mode / 2)]);
        }
        acc = compose_phased(&acc, &m);
        assert(t@.subrange(0, k + 1).drop_last() =~= t@.subrange(0, k as int));
        k = k + 1;
    }
    assert(t@.subrange(0, t@.len() as int) =~= t@);
    acc
}


/// The view of an emitted term that names its source term.
pub open spec fn sourced_view<B>(v: Seq<(usize, u8, Vec<B>)>) -> Seq<(nat, nat, Seq<B>)> {
    Seq::new(v.len(), |k: int| (v[k].0 as nat, v[k].1 as nat, v[k].2@))
}

/// Each term of `ts` mapped to Majorana terms, all in order, each tagged with its source.
pub open spec fn operator_to_majorana(ts: Seq<Seq<FermionAction>>) -> Seq<(nat, nat, Seq<u32>)>
    decreases ts.len(),
{
    if ts.len() == 0 {
        Seq::empty()
    } else {
        let i = (ts.len() - 1) as nat;
        operator_to_majorana(ts.drop_last()) + term_to_majorana(ts.last()).map_values(
            |e: (nat, Seq<u32>)| (i, e.0, e.1),
        )
    }
}

/// Each term of `ts` mapped to fermionic terms, all in order, each tagged with its source.
pub open spec fn operator_to_fermion(ts: Seq<Seq<u32>>) -> Seq<(nat, nat, Seq<FermionAction>)>
    decreases ts.len(),
{
    if ts.len() == 0 {
        Seq::empty()
    } else {
        let i = (ts.len() - 1) as nat;
        operator_to_fermion(ts.drop_last()) + term_to_fermion(ts.last()).map_values(
            |e: (nat, Seq<FermionAction>)| (i, e.0, e.1),
        )
    }
}

/// Maps a fermionic operator to a Majorana operator. Each emitted term names the term `i` it
/// came from and carries the phase power `p`: its coefficient is `c_i * i^p / 2^len_i`.
pub fn fermion_to_majorana(op: &Terms<FermionAction>) -> (r: Vec<(usize, u8, Vec<u32>)>)
    requires
        op.wf(),
        forall|i: int, k: int|
            0 <= i < op.terms().len() && 0 <= k < op.terms()[i].len() ==> (
            #[trigger] op.terms()[i][k]).1 < 0x8000_0000,
    ensures
        sourced_view(r@) == operator_to_majorana(op.terms()),
{
    let n = op.len();
    let mut r: Vec<(usize, u8, Vec<u32>)> = Vec::new();
    let mut i: usize = 0;
    while i < n
        invariant
            i <= n,
            n == op.terms().len(),
            op.wf(),
            forall|a: int, k: int|
                0 <= a < op.terms().len() && 0 <= k < op.terms()[a].len() ==> (
                #[trigger] op.terms()[a][k]).1 < 0x8000_0000,
            sourced_view(r@) == operator_to_majorana(op.terms().subrange(0, i as int)),
        decreases n - i,
    {
        let t = op.get_term(i);
        let mapped = fermion_term_to_majorana(&t);
        let ghost before = sourced_view(r@);
        let mut e: usize = 0;
        while e < mapped.len()
            invariant
                e <= mapped@.len(),
                sourced_view(r@) == before + phased_view(mapped@).subrange(0, e as int).map_values(
                    |x: (nat, Seq<u32>)| (i as nat, x.0, x.1),
                ),
            decreases mapped@.len() - e,
        {
            let phase = mapped[e].0;
            let mut modes: Vec<u32> = Vec::new();
            let mut k: usize = 0;
            while k < mapped[e].1.len()
                invariant
                    e < mapped@.len(),
                    k <= mapped@[e as int].1@.len(),
                    modes@ == mapped@[e as int].1@.subrange(0, k as int),
                decreases mapped@[e as int].1@.len() - k,
            {
                modes.push(mapped[e].1[k]);
                k = k + 1;
                assert(modes@ =~= mapped@[e as int].1@.subrange(0, k as int));
            }
            assert(modes@ =~= mapped@[e as int].1@);
            let ghost prev = r@;
            r.push((i, phase, modes));
            proof {
                let f = |x: (nat, Seq<u32>)| (i as nat, x.0, x.1);
                assert(sourced_view(r@) =~= sourced_view(prev).push((i as nat, phase as nat, modes@)));
                assert(phased_view(mapped@).subrange(0, e + 1).map_values(f) =~= phased_view(
                    mapped@,
                ).subrange(0, e as int).map_values(f).push(f(phased_view(mapped@)[e as int])));
            }
            e = e + 1;
        }
        assert(phased_view(mapped@).subrange(0, mapped@.len() as int) =~= phased_view(mapped@));
        assert(op.terms().subrange(0, i + 1).drop_last() =~= op.terms().subrange(0, i as int));
        i = i + 1;
    }
    assert(op.terms().subrange(0, n as int) =~= op.terms());
    r
}

/// Maps a Majorana operator to a fermionic operator. Each emitted term names the term `i` it
/// came from and carries the phase power `p`: its coefficient is `c_i * i^p`.
pub fn majorana_to_fermion(op: &Terms<u32>) -> (r: Vec<(usize, u8, Vec<FermionAction>)>)
    requires
        op.wf(),
    ensures
        sourced_view(r@) == operator_to_fermion(op.terms()),
{
    let n = op.len();
    let mut r: Vec<(usize, u8, Vec<FermionAction>)> = Vec::new();
    let mut i: usize = 0;
    while i < n
        invariant
            i <= n,
            n == op.terms().len(),
            op.wf(),
            sourced_view(r@) == operator_to_fermion(op.terms().subrange(0, i as int)),
        decreases n - i,
    {
        let t = op.get_term(i);
        let mapped = majorana_term_to_fermion(&t);
        let ghost before = sourced_view(r@);
        let mut e: usize = 0;
        while e < mapped.len()
            invariant
                e <= mapped@.len(),
                sourced_view(r@) == before + phased_view(mapped@).subrange(0, e as int).map_values(
                    |x: (nat, Seq<FermionAction>)| (i as nat, x.0, x.1),
                ),
            decreases mapped@.len() - e,
        {
            let phase = mapped[e].0;
            let mut actions: Vec<FermionAction> = Vec::new();
            let mut k: usize = 0;
            while k < mapped[e].1.len()
                invariant
                    e < mapped@.len(),
                    k <= mapped@[e as int].1@.len(),
                    actions@ == mapped@[e as int].1@.subrange(0, k as int),
                decreases mapped@[e as int].1@.len() - k,
            {
                actions.push(mapped[e].1[k]);
                k = k + 1;
                assert(actions@ =~= mapped@[e as int].1@.subrange(0, k as int));
            }
            assert(actions@ =~= mapped@[e as int].1@);
            let ghost prev = r@;
            r.push((i, phase, actions));
            proof {
                let f = |x: (nat, Seq<FermionAction>)| (i as nat, x.0, x.1);
                assert(sourced_view(r@) =~= sourced_view(prev).push((i as nat, phase as nat, actions@)));
                assert(phased_view(mapped@).subrange(0, e + 1).map_values(f) =~= phased_view(
                    mapped@,
                ).subrange(0, e as int).map_values(f).push(f(phased_view(mapped@)[e as int])));
            }
            e = e + 1;
        }
        assert(phased_view(mapped@).subrange(0, mapped@.len() as int) =~= phased_view(mapped@));
        assert(op.terms().subrange(0, i + 1).drop_last() =~= op.terms().subrange(0, i as int));
        i = i + 1;
    }
    assert(op.terms().subrange(0, n as int) =~= op.terms());
    r
}


/// The two mode maps invert each other on a single action: mapping `a+_j` (or `a_j`) to
/// Majorana modes and each mode back gives, with the factor 1/2, four terms in which the
/// opposite action appears twice with phases `i^p` and `i^q` that cancel (`p + 2 = q` modulo 4),
/// and the action itself twice with equal phases that add up to 1.
pub proof fn lemma_single_action_round_trip(a: FermionAction)
    requires
        a.1 < 0x8000_0000,
    ensures
        ({
            let m = term_to_majorana(seq![a]);
            let back0 = term_to_fermion(m[0].1);
            let back1 = term_to_fermion(m[1].1);
            &&& m.len() == 2
            &&& back0 == seq![(0nat, seq![(true, a.1)]), (0nat, seq![(false, a.1)])]
            &&& back1.len() == 2
            &&& back1[0].1 == seq![(true, a.1)]
            &&& back1[1].1 == seq![(false, a.1)]
            &&& (m[0].0 + back0[0].0) % 4 == (m[1].0 + back1[0].0) % 4 <==> a.0
            &&& (m[0].0 + back0[1].0) % 4 == (m[1].0 + back1[1].0) % 4 <==> !a.0
            &&& (m[0].0 + back0[0].0 + 2) % 4 == (m[1].0 + back1[0].0) % 4 <==> !a.0
            &&& (m[0].0 + back0[1].0 + 2) % 4 == (m[1].0 + back1[1].0) % 4 <==> a.0
        }),
{
    let t = seq![a];
    assert(t.drop_last() =~= Seq::<FermionAction>::empty());
    let one = seq![(0nat, Seq::<u32>::empty())];
    let m = term_to_majorana(t);
    assert(term_to_majorana(t.drop_last()) == one);
    assert(t.last() == a);
    assert(m == phased_compose(one, action_to_majorana(a)));
    assert(one.len() == 1 && action_to_majorana(a).len() == 2);
    assert(one.len() * action_to_majorana(a).len() == 2) by (nonlinear_arith)
        requires
            one.len() == 1 && action_to_majorana(a).len() == 2,
    ;
    assert(m.len() == 2);
    assert(0int / 2 == 0 && 0int % 2 == 0 && 1int / 2 == 0 && 1int % 2 == 1);
    assert(m[0].1 =~= seq![(2 * a.1) as u32]);
    assert(m[1].1 =~= seq![(2 * a.1 + 1) as u32]);
    assert(m[0].0 == 0);
    assert(m[1].0 == if a.0 { 3nat } else { 1nat });
    let e = seq![(0nat, Seq::<FermionAction>::empty())];
    let s0 = m[0].1;
    let s1 = m[1].1;
    assert(s0.drop_last() =~= Seq::<u32>::empty());
    assert(s1.drop_last() =~= Seq::<u32>::empty());
    let b0 = term_to_fermion(s0);
    let b1 = term_to_fermion(s1);
    assert(term_to_fermion(s0.drop_last()) == e);
    assert(term_to_fermion(s1.drop_last()) == e);
    assert(b0 == phased_compose(e, mode_to_fermion(s0.last())));
    assert(b1 == phased_compose(e, mode_to_fermion(s1.last())));
    assert(((2 * a.1) as u32) / 2 == a.1 && ((2 * a.1) as u32) % 2 == 0);
    assert(((2 * a.1 + 1) as u32) / 2 == a.1 && ((2 * a.1 + 1) as u32) % 2 == 1);
    assert(b0[0].1 =~= seq![(true, a.1)]);
    assert(b0[1].1 =~= seq![(false, a.1)]);
    assert(b1[0].1 =~= seq![(true, a.1)]);
    assert(b1[1].1 =~= seq![(false, a.1)]);
    assert(b0 =~= seq![(0nat, seq![(true, a.1)]), (0nat, seq![(false, a.1)])]);
    assert(b1[0].0 == 1 && b1[1].0 == 3);
}

} // verus!
