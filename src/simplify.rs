use vstd::prelude::*;
use crate::terms::Terms;

verus! {

/// An elementary action that can be compared for equality.
pub trait SameAction: Sized {
    fn same(&self, other: &Self) -> (r: bool)
        ensures
            r == (*self == *other),
    ;
}

impl SameAction for (bool, u32) {
    fn same(&self, other: &Self) -> (r: bool) {
        self.0 == other.0 && self.1 == other.1
    }
}

impl SameAction for u32 {
    fn same(&self, other: &Self) -> (r: bool) {
        *self == *other
    }
}

/// Whether two terms hold the same actions in the same order.
pub fn same_term<A: SameAction + Copy>(a: &Vec<A>, b: &Vec<A>) -> (r: bool)
    ensures
        r == (a@ == b@),
{
    if a.len() != b.len() {
        return false;
    }
    let mut k: usize = 0;
    while k < a.len()
        invariant
            k <= a@.len(),
            a@.len() == b@.len(),
            forall|q: int| 0 <= q < k ==> a@[q] == b@[q],
        decreases a@.len() - k,
    {
        if !a[k].same(&b[k]) {
            return false;
        }
        k = k + 1;
    }
    assert(a@ =~= b@);
    true
}

/// `reps` and `group_of` sort the terms `ts` into groups of equal terms: `group_of[i]` is the
/// group of term `i`, `reps[g]` the first term of group `g`, groups in order of first
/// appearance, and no two groups hold equal terms.
pub open spec fn is_grouping<A>(ts: Seq<Seq<A>>, reps: Seq<usize>, group_of: Seq<usize>) -> bool {
    &&& group_of.len() == ts.len()
    &&& forall|i: int|
        0 <= i < ts.len() ==> {
            &&& (#[trigger] group_of[i]) < reps.len()
            &&& ts[reps[group_of[i] as int] as int] == ts[i]
            &&& reps[group_of[i] as int] <= i
        }
    &&& forall|g: int|
        0 <= g < reps.len() ==> (#[trigger] reps[g]) < ts.len() && group_of[reps[g] as int] == g
    &&& forall|g: int, h: int| 0 <= g < h < reps.len() ==> reps[g] < reps[h]
    &&& forall|g: int, h: int|
        0 <= g < reps.len() && 0 <= h < reps.len() && g != h ==> ts[reps[g] as int] != ts[reps[h] as int]
}

/// Two terms share a group exactly when they are equal.
pub proof fn lemma_grouping_is_equality<A>(
    ts: Seq<Seq<A>>,
    reps: Seq<usize>,
    group_of: Seq<usize>,
    i: int,
    j: int,
)
    requires
        is_grouping(ts, reps, group_of),
        0 <= i < ts.len(),
        0 <= j < ts.len(),
    ensures
        (group_of[i] == group_of[j]) == (ts[i] == ts[j]),
{
    assert(group_of[i] < reps.len() && group_of[j] < reps.len());
}

impl<A: SameAction + Copy> Terms<A> {
    /// Groups equal terms, the first step of merging duplicates: the coefficients of each group
    /// are summed onto its first term.
    pub fn group_terms(&self) -> (r: (Vec<usize>, Vec<usize>))
        requires
            self.wf(),
        ensures
            is_grouping(self.terms(), r.0@, r.1@),
    {
        let n = self.len();
        let mut reps: Vec<usize> = Vec::new();
        let mut rep_terms: Vec<Vec<A>> = Vec::new();
        let mut group_of: Vec<usize> = Vec::new();
        let mut i: usize = 0;
        while i < n
            invariant
                i <= n,
                n == self.terms().len(),
                self.wf(),
                rep_terms@.len() == reps@.len(),
                forall|g: int|
                    0 <= g < reps@.len() ==> (#[trigger] rep_terms@[g])@ == self.terms()[reps@[g] as int],
                group_of@.len() == i,
                forall|q: int|
                    0 <= q < i ==> {
                        &&& (#[trigger] group_of@[q]) < reps@.len()
                        &&& self.terms()[reps@[group_of@[q] as int] as int] == self.terms()[q]
                        &&& reps@[group_of@[q] as int] <= q
                    },
                forall|g: int|
                    0 <= g < reps@.len() ==> (#[trigger] reps@[g]) < i && group_of@[reps@[g] as int]
                        == g,
                forall|g: int, h: int| 0 <= g < h < reps@.len() ==> reps@[g] < reps@[h],
                forall|g: int, h: int|
                    0 <= g < reps@.len() && 0 <= h < reps@.len() && g != h ==> self.terms()[reps@[g] as int]
                        != self.terms()[reps@[h] as int],
            decreases n - i,
        {
            let t = self.get_term(i);
            let mut g: usize = 0;
            let mut found = false;
            while g < reps.len() && !found
                invariant
                    g <= reps@.len(),
                    rep_terms@.len() == reps@.len(),
                    found ==> g < reps@.len() && rep_terms@[g as int]@ == t@,
                    !found ==> forall|h: int| 0 <= h < g ==> rep_terms@[h]@ != t@,
                decreases reps@.len() - g + if found { 0int } else { 1int },
            {
                if same_term(&rep_terms[g], &t) {
                    found = true;
                } else {
                    g = g + 1;
                }
            }
            let ghost old_group_of = group_of@;
            if found {
                group_of.push(g);
                assert(forall|q: int| 0 <= q < i ==> group_of@[q] == old_group_of[q]);
            } else {
                let ghost old_reps = reps@;
                assert forall|h: int| 0 <= h < reps@.len() implies self.terms()[reps@[h] as int]
                    != self.terms()[i as int] by {
                    assert(rep_terms@[h]@ != t@);
                }
                group_of.push(reps.len());
                reps.push(i);
                rep_terms.push(t);
                assert(forall|q: int| 0 <= q < i ==> group_of@[q] == old_group_of[q]);
                assert(forall|h: int| 0 <= h < old_reps.len() ==> reps@[h] == old_reps[h]);
            }
            i = i + 1;
        }
        (reps, group_of)
    }
}

} // verus!
