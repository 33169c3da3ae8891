use vstd::prelude::*;
use crate::terms::Terms;

verus! {

/// One elementary fermionic action: `true` creates, `false` annihilates, on the given mode.
pub type FermionAction = (bool, u32);

/// The term layout of a fermionic operator.
pub type FermionTerms = Terms<FermionAction>;

/// The term with creation and annihilation exchanged and the order reversed.
pub open spec fn adjoint_term(t: Seq<FermionAction>) -> Seq<FermionAction> {
    Seq::new(t.len(), |k: int| (!t[t.len() - 1 - k].0, t[t.len() - 1 - k].1))
}

/// Number of creation actions in a term.
pub open spec fn creations(t: Seq<FermionAction>) -> nat
    decreases t.len(),
{
    if t.len() == 0 {
        0
    } else {
        creations(t.drop_last()) + if t.last().0 {
            1nat
        } else {
            0nat
        }
    }
}

/// A term creates as many particles as it annihilates.
pub open spec fn balanced(t: Seq<FermionAction>) -> bool {
    2 * creations(t) == t.len()
}

/// Sort key of an action in normal order: every creation ranks above every annihilation, and
/// within each kind a higher mode ranks higher.
pub open spec fn action_key(a: FermionAction) -> int {
    if a.0 {
        0x1_0000_0000int + a.1 as int
    } else {
        a.1 as int
    }
}

/// A term is normal ordered when its keys strictly descend: creations before annihilations,
/// modes descending within each kind, and no action repeated.
pub open spec fn is_normal_ordered(t: Seq<FermionAction>) -> bool {
    forall|i: int, j: int| 0 <= i < j < t.len() ==> action_key(t[i]) > action_key(t[j])
}

/// The adjoint of one term.
pub fn adjoint_actions(t: &Vec<FermionAction>) -> (r: Vec<FermionAction>)
    ensures
        r@ == adjoint_term(t@),
{
    let n = t.len();
    let mut r: Vec<FermionAction> = Vec::new();
    let mut k: usize = 0;
    while k < n
        invariant
            k <= n,
            n == t@.len(),
            r@ == adjoint_term(t@).subrange(0, k as int),
        decreases n - k,
    {
        let (a, i) = t[n - 1 - k];
        r.push((!a, i));
        k = k + 1;
        assert(r@ =~= adjoint_term(t@).subrange(0, k as int));
    }
    assert(r@ =~= adjoint_term(t@));
    r
}

/// Number of creation actions in one term.
pub fn count_creations(t: &Vec<FermionAction>) -> (r: usize)
    ensures
        r == creations(t@),
        r <= t@.len(),
{
    let mut c: usize = 0;
    let mut k: usize = 0;
    while k < t.len()
        invariant
            k <= t@.len(),
            c == creations(t@.subrange(0, k as int)),
            c <= k,
        decreases t@.len() - k,
    {
        assert(t@.subrange(0, k + 1).drop_last() =~= t@.subrange(0, k as int));
        if t[k].0 {
            c = c + 1;
        }
        k = k + 1;
    }
    assert(t@.subrange(0, t@.len() as int) =~= t@);
    c
}

impl Terms<FermionAction> {
    /// The adjoint layout: each term reversed with creation and annihilation exchanged. The
    /// offsets stay as they are; each coefficient is to be conjugated.
    pub fn adjoint(&self) -> (r: Self)
        requires
            self.wf(),
        ensures
            r.wf(),
            r.terms().len() == self.terms().len(),
            forall|i: int|
                0 <= i < r.terms().len() ==> #[trigger] r.terms()[i] == adjoint_term(
                    self.terms()[i],
                ),
            r.boundaries@ == self.boundaries@,
    {
        let n = self.len();
        let mut r = Self::zero();
        let mut i: usize = 0;
        while i < n
            invariant
                i <= n,
                n == self.terms().len(),
                self.wf(),
                r.wf(),
                r.terms().len() == i,
                forall|q: int|
                    0 <= q < i ==> #[trigger] r.terms()[q] == adjoint_term(self.terms()[q]),
                r.items@.len() == self.boundaries@[i as int],
                r.boundaries@ == self.boundaries@.subrange(0, i + 1),
            decreases n - i,
        {
            let t = self.get_term(i);
            let a = adjoint_actions(&t);
            assert(self.boundaries@[i + 1] <= self.items@.len());
            let ghost before = r.terms();
            r.push_term(&a);
            assert(forall|q: int| 0 <= q < i ==> r.terms()[q] == before[q]);
            assert(r.boundaries@ =~= self.boundaries@.subrange(0, i + 2));
            i = i + 1;
        }
        assert(self.boundaries@.subrange(0, n + 1) =~= self.boundaries@);
        r
    }

    /// Whether every term creates as many particles as it annihilates.
    pub fn conserves_particle_number(&self) -> (r: bool)
        requires
            self.wf(),
        ensures
            r == forall|i: int|
                0 <= i < self.terms().len() ==> balanced(#[trigger] self.terms()[i]),
    {
        let n = self.len();
        let mut i: usize = 0;
        while i < n
            invariant
                i <= n,
                n == self.terms().len(),
                self.wf(),
                forall|q: int| 0 <= q < i ==> balanced(#[trigger] self.terms()[q]),
            decreases n - i,
        {
            let t = self.get_term(i);
            let c = count_creations(&t);
            if c != t.len() - c {
                return false;
            }
            i = i + 1;
        }
        true
    }
}

} // verus!
