use vstd::prelude::*;
use crate::fermion::FermionAction;
use crate::terms::Terms;

verus! {

/// The `p`-th triangular number, `p (p + 1) / 2`: the number of pairs `(i, a)` with `a <= i < p`.
pub open spec fn tri(p: nat) -> nat
    decreases p,
{
    if p == 0 {
        0
    } else {
        tri((p - 1) as nat) + p
    }
}

/// `(i, a)` is the pair at position `index` of the lower triangle stored row by row:
/// `(0, 0), (1, 0), (1, 1), (2, 0), ...`.
pub open spec fn is_inflation(index: nat, i: nat, a: nat) -> bool {
    &&& tri(i) <= index < tri(i + 1)
    &&& a == index - tri(i)
}

/// The index quadruples that the 4-fold symmetry of two-body integrals gives for `(i, a, j, b)`:
/// each pair may also appear swapped when its two orbitals differ.
pub open spec fn s4_list(i: u32, a: u32, j: u32, b: u32) -> Seq<(u32, u32, u32, u32)> {
    seq![(i, a, j, b)] + (if i > a {
        seq![(a, i, j, b)]
    } else {
        Seq::empty()
    }) + (if j > b {
        seq![(i, a, b, j)]
    } else {
        Seq::empty()
    }) + (if i > a && j > b {
        seq![(a, i, b, j)]
    } else {
        Seq::empty()
    })
}

/// Unpacks a position of the lower triangle into its row and column.
pub fn _inflate_index(index: u32) -> (r: (u32, u32))
    ensures
        is_inflation(index as nat, r.0 as nat, r.1 as nat),
{
    let mut p: u64 = 0;
    let mut t: u64 = 0;
    while t + p + 1 <= index as u64
        invariant
            t == tri(p as nat),
            t <= index,
            p <= t,
        decreases index - t,
    {
        t = t + p + 1;
        p = p + 1;
    }
    assert(tri((p + 1) as nat) == t + p + 1);
    ((p as u32), (index as u64 - t) as u32)
}

/// The quadruples `(i, a, j, b)` behind one entry of a two-body integral array with 4-fold
/// symmetry, `npair` pairs per row.
pub fn _expand_s4_index(iajb: u32, npair: u32) -> (r: Vec<(u32, u32, u32, u32)>)
    requires
        npair > 0,
    ensures
        exists|i: u32, a: u32, j: u32, b: u32|
            is_inflation((iajb / npair) as nat, i as nat, a as nat) && is_inflation(
                (iajb % npair) as nat,
                j as nat,
                b as nat,
            ) && r@ == s4_list(i, a, j, b),
{
    let ia = iajb / npair;
    let jb = iajb % npair;
    let (i, a) = _inflate_index(ia);
    let (j, b) = _inflate_index(jb);
    let r = expand_pairs(i, a, j, b);
    assert(is_inflation((iajb / npair) as nat, i as nat, a as nat));
    r
}

fn expand_pairs(i: u32, a: u32, j: u32, b: u32) -> (r: Vec<(u32, u32, u32, u32)>)
    ensures
        r@ == s4_list(i, a, j, b),
{
    let mut res = vec![(i, a, j, b)];
    if i > a {
        res.push((a, i, j, b));
    }
    if j > b {
        res.push((i, a, b, j));
    }
    if i > a && j > b {
        res.push((a, i, b, j));
    }
    assert(res@ =~= s4_list(i, a, j, b));
    res
}

/// The quadruples `(i, a, j, b)` behind one entry of a two-body integral array with 8-fold
/// symmetry: the pair of pairs `(ia, jb)` unpacked from the triangle, each pair unpacked in
/// turn, and the two pairs exchanged when they differ.
pub fn _expand_s8_index(iajb: u32) -> (r: Vec<(u32, u32, u32, u32)>)
    ensures
        exists|ia: u32, jb: u32, i: u32, a: u32, j: u32, b: u32|
            is_inflation(iajb as nat, ia as nat, jb as nat) && is_inflation(
                ia as nat,
                i as nat,
                a as nat,
            ) && is_inflation(jb as nat, j as nat, b as nat) && r@ == s4_list(i, a, j, b) + if ia
                > jb {
                s4_list(j, b, i, a)
            } else {
                Seq::empty()
            },
{
    let (ia, jb) = _inflate_index(iajb);
    let (i, a) = _inflate_index(ia);
    let (j, b) = _inflate_index(jb);
    let mut res = expand_pairs(i, a, j, b);
    if ia > jb {
        let swapped = expand_pairs(j, b, i, a);
        let mut k: usize = 0;
        let ghost first = res@;
        while k < swapped.len()
            invariant
                k <= swapped@.len(),
                res@ == first + swapped@.subrange(0, k as int),
            decreases swapped@.len() - k,
        {
            res.push(swapped[k]);
            k = k + 1;
            assert(res@ =~= first + swapped@.subrange(0, k as int));
        }
        assert(swapped@.subrange(0, swapped@.len() as int) =~= swapped@);
    } else {
        assert(res@ =~= res@ + Seq::<(u32, u32, u32, u32)>::empty());
    }
    assert(is_inflation(iajb as nat, ia as nat, jb as nat));
    res
}


/// The one-body excitation terms for orbitals `(i, a)`: `a+_i a_a`, and `a+_a a_i` as well when
/// the two differ.
pub open spec fn one_body_terms(i: u32, a: u32) -> Seq<Seq<FermionAction>> {
    if i != a {
        seq![seq![(true, i), (false, a)], seq![(true, a), (false, i)]]
    } else {
        seq![seq![(true, i), (false, a)]]
    }
}

impl Terms<FermionAction> {
    /// Appends the one-body terms for `(i, a)` and returns how many were appended; each takes
    /// the integral's coefficient.
    pub fn push_one_body(&mut self, i: u32, a: u32) -> (r: usize)
        requires
            old(self).wf(),
            old(self).items@.len() + 4 <= usize::MAX,
        ensures
            final(self).wf(),
            final(self).terms() == old(self).terms() + one_body_terms(i, a),
            r == one_body_terms(i, a).len(),
            final(self).items@.len() == old(self).items@.len() + 2 * r,
    {
        let ghost start = self.terms();
        self.push_term(&vec![(true, i), (false, a)]);
        if i != a {
            self.push_term(&vec![(true, a), (false, i)]);
            assert(self.terms() =~= start + one_body_terms(i, a));
            2
        } else {
            assert(self.terms() =~= start + one_body_terms(i, a));
            1
        }
    }

    /// Appends the two-body term `a+_i a+_j a_b a_a`.
    pub fn push_two_body(&mut self, i: u32, j: u32, b: u32, a: u32)
        requires
            old(self).wf(),
            old(self).items@.len() + 4 <= usize::MAX,
        ensures
            final(self).wf(),
            final(self).terms() == old(self).terms().push(two_body_term(i, j, b, a)),
            final(self).items@.len() == old(self).items@.len() + 4,
    {
        let t = vec![(true, i), (true, j), (false, b), (false, a)];
        assert(t@ =~= seq![(true, i), (true, j), (false, b), (false, a)]);
        self.push_term(&t);
    }
}


/// The two-body term `a+_i a+_j a_b a_a`.
pub open spec fn two_body_term(i: u32, j: u32, b: u32, a: u32) -> Seq<FermionAction> {
    seq![(true, i), (true, j), (false, b), (false, a)]
}

/// The terms of a two-body quadruple `(i, a, j, b)` under spin symmetry, with spin-down orbitals
/// shifted by `norb`: both particles up, the first down, the second down, and both down.
pub open spec fn spin_sym_terms(i: u32, a: u32, j: u32, b: u32, norb: u32) -> Seq<Seq<FermionAction>> {
    let (iu, au, ju, bu) = ((i + norb) as u32, (a + norb) as u32, (j + norb) as u32, (b + norb) as u32);
    seq![
        two_body_term(i, j, b, a),
        two_body_term(iu, j, b, au),
        two_body_term(i, ju, bu, a),
        two_body_term(iu, ju, bu, au),
    ]
}

/// The terms of a mixed-spin quadruple `(i, a, j, b)`: the first pair up and the second down,
/// in both orders of the two particles.
pub open spec fn mixed_spin_terms(i: u32, a: u32, j: u32, b: u32, norb: u32) -> Seq<Seq<FermionAction>> {
    let (ju, bu) = ((j + norb) as u32, (b + norb) as u32);
    seq![two_body_term(i, ju, bu, a), two_body_term(ju, i, a, bu)]
}

impl Terms<FermionAction> {
    /// Appends the one-body terms of `(i, a)` for both spins, spin-down orbitals shifted by
    /// `norb`, and returns how many were appended.
    pub fn push_one_body_spin_sym(&mut self, i: u32, a: u32, norb: u32) -> (r: usize)
        requires
            old(self).wf(),
            old(self).items@.len() + 8 <= usize::MAX,
            i + norb <= u32::MAX,
            a + norb <= u32::MAX,
        ensures
            final(self).wf(),
            final(self).terms() == old(self).terms() + one_body_terms(i, a) + one_body_terms(
                (i + norb) as u32,
                (a + norb) as u32,
            ),
            r == one_body_terms(i, a).len() + one_body_terms((i + norb) as u32, (a + norb) as u32).len(),
    {
        let up = self.push_one_body(i, a);
        let down = self.push_one_body(i + norb, a + norb);
        up + down
    }

    /// Appends the terms of a two-body quadruple under spin symmetry.
    pub fn push_two_body_spin_sym(&mut self, i: u32, a: u32, j: u32, b: u32, norb: u32)
        requires
            old(self).wf(),
            old(self).items@.len() + 16 <= usize::MAX,
            i + norb <= u32::MAX,
            a + norb <= u32::MAX,
            j + norb <= u32::MAX,
            b + norb <= u32::MAX,
        ensures
            final(self).wf(),
            final(self).terms() == old(self).terms() + spin_sym_terms(i, a, j, b, norb),
    {
        let ghost start = self.terms();
        self.push_two_body(i, j, b, a);
        self.push_two_body(i + norb, j, b, a + norb);
        self.push_two_body(i, j + norb, b + norb, a);
        self.push_two_body(i + norb, j + norb, b + norb, a + norb);
        assert(self.terms() =~= start + spin_sym_terms(i, a, j, b, norb));
    }

    /// Appends the terms of a mixed-spin two-body quadruple.
    pub fn push_two_body_mixed_spin(&mut self, i: u32, a: u32, j: u32, b: u32, norb: u32)
        requires
            old(self).wf(),
            old(self).items@.len() + 8 <= usize::MAX,
            j + norb <= u32::MAX,
            b + norb <= u32::MAX,
        ensures
            final(self).wf(),
            final(self).terms() == old(self).terms() + mixed_spin_terms(i, a, j, b, norb),
    {
        let ghost start = self.terms();
        self.push_two_body(i, j + norb, b + norb, a);
        self.push_two_body(j + norb, i, a, b + norb);
        assert(self.terms() =~= start + mixed_spin_terms(i, a, j, b, norb));
    }
}

} // verus!
