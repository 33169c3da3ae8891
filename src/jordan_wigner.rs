use vstd::prelude::*;
use crate::terms::Terms;

verus! {

/// A single-qubit Pauli operator.
#[derive(Clone, Copy, Debug, PartialEq, Eq, Structural)]
pub enum Pauli {
    X,
    Y,
    Z,
}

/// One factor of a Pauli string: the operator and the qubit it acts on.
pub type PauliFactor = (Pauli, u32);

/// `Z` on each qubit below `j`, in ascending order.
pub open spec fn z_chain(j: u32) -> Seq<PauliFactor> {
    Seq::new(j as nat, |q: int| (Pauli::Z, q as u32))
}

/// The two Pauli strings of a fermionic action on mode `j` under the Jordan-Wigner map:
/// `Z_0 ... Z_{j-1} X_j` and `Z_0 ... Z_{j-1} Y_j`. The first has coefficient `1/2`, the second
/// `-i/2` for a creation and `+i/2` for an annihilation.
pub open spec fn jordan_wigner_strings(j: u32) -> Seq<Seq<PauliFactor>> {
    seq![z_chain(j).push((Pauli::X, j)), z_chain(j).push((Pauli::Y, j))]
}

fn pauli_string(j: u32, last: Pauli) -> (r: Vec<PauliFactor>)
    ensures
        r@ == z_chain(j).push((last, j)),
{
    let mut r: Vec<PauliFactor> = Vec::new();
    let mut q: u32 = 0;
    while q < j
        invariant
            q <= j,
            r@ == z_chain(q),
        decreases j - q,
    {
        r.push((Pauli::Z, q));
        q = q + 1;
        assert(r@ =~= z_chain(q));
    }
    r.push((last, j));
    r
}

/// The qubit layout of one fermionic action on mode `j` under the Jordan-Wigner map.
pub fn jordan_wigner_action(j: u32) -> (r: Terms<PauliFactor>)
    requires
        2 * j + 2 <= usize::MAX,
    ensures
        r.wf(),
        r.terms() == jordan_wigner_strings(j),
{
    let x = pauli_string(j, Pauli::X);
    let y = pauli_string(j, Pauli::Y);
    let mut r = Terms::zero();
    r.push_term(&x);
    r.push_term(&y);
    assert(r.terms() =~= jordan_wigner_strings(j));
    r
}

} // verus!
