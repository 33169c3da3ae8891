use num_complex::Complex64;
use qiskit_fermions_core::commutators::{anti_commutator, commutator, double_commutator};
use qiskit_fermions_core::fermion::{FermionAction, FermionTerms};
use qiskit_fermions_core::fermion_order::normal_ordered_term;
use qiskit_fermions_core::terms::Terms;

fn layout(actions: &[bool], indices: &[u32], boundaries: &[usize]) -> FermionTerms {
    let items: Vec<FermionAction> = actions.iter().copied().zip(indices.iter().copied()).collect();
    Terms {
        items,
        boundaries: boundaries.to_vec(),
    }
}

fn all_terms<A: Copy>(t: &Terms<A>) -> Vec<Vec<A>> {
    (0..t.len()).map(|i| t.get_term(i)).collect()
}

/// Normal orders `coeffs` on `t`, merges equal terms and drops those at or below `atol`.
fn normal_ordered_merged(
    t: &FermionTerms,
    coeffs: &[Complex64],
    atol: f64,
) -> Vec<(Vec<FermionAction>, Complex64)> {
    let mut out = FermionTerms::zero();
    let mut c = Vec::new();
    for (src, negative, actions) in t.normal_ordered() {
        out.push_term(&actions);
        c.push(if negative { -coeffs[src] } else { coeffs[src] });
    }
    merged(&out, &c, atol)
}

fn merged(t: &FermionTerms, coeffs: &[Complex64], atol: f64) -> Vec<(Vec<FermionAction>, Complex64)> {
    let (reps, group_of) = t.group_terms();
    let mut sums = vec![Complex64::new(0.0, 0.0); reps.len()];
    for (i, g) in group_of.iter().enumerate() {
        sums[*g] += coeffs[i];
    }
    reps.iter()
        .zip(sums)
        .filter(|(_, c)| c.norm() > atol)
        .map(|(r, c)| (t.get_term(*r), c))
        .collect()
}

fn same_sum(a: &[(Vec<FermionAction>, Complex64)], b: &[(Vec<FermionAction>, Complex64)]) -> bool {
    a.len() == b.len()
        && a.iter().all(|(t, c)| b.iter().any(|(u, d)| t == u && (c - d).norm() < 1e-10))
}

#[test]
fn fermion_operator_test_zero() {
    let zero = FermionTerms::zero();
    assert_eq!(zero.items, vec![]);
    assert_eq!(zero.boundaries, vec![0]);
    assert_eq!(zero.len(), 0);
}

#[test]
fn fermion_operator_test_one() {
    let one = FermionTerms::one();
    assert_eq!(one.items, vec![]);
    assert_eq!(one.boundaries, vec![0, 0]);
    assert_eq!(all_terms(&one), vec![Vec::<FermionAction>::new()]);
}

#[test]
fn fermion_operator_test_add() {
    let one = FermionTerms::one();
    let two = layout(&[], &[], &[0, 0]);
    let three = one.add(&two);
    assert_eq!(three.boundaries, vec![0, 0, 0]);
    assert!(three.items.is_empty());
}

#[test]
fn fermion_operator_test_add_assign() {
    let mut op = layout(&[true], &[3], &[0, 1]);
    let other = layout(&[false, true], &[1, 2], &[0, 0, 2]);
    op.iadd(&other);
    assert_eq!(op.boundaries, vec![0, 1, 1, 3]);
    assert_eq!(op.items, vec![(true, 3), (false, 1), (true, 2)]);
}

#[test]
fn fermion_operator_test_and() {
    let op1 = layout(&[true, false], &[0, 1], &[0, 0, 2]);
    let op2 = layout(&[false, true], &[1, 0], &[0, 0, 2]);
    let result = op1.compose(&op2);
    assert_eq!(result.boundaries, vec![0, 0, 2, 4, 8]);
    assert_eq!(
        result.items,
        vec![
            (false, 1),
            (true, 0),
            (true, 0),
            (false, 1),
            (false, 1),
            (true, 0),
            (true, 0),
            (false, 1),
        ]
    );
}

#[test]
fn fermion_operator_test_pow() {
    let op = layout(&[true], &[0], &[0, 1]);
    assert_eq!(all_terms(&op.power(0)), vec![Vec::<FermionAction>::new()]);
    assert_eq!(all_terms(&op.power(1)), all_terms(&op));
    let squared = op.power(2);
    assert_eq!(squared.boundaries, vec![0, 2]);
    assert_eq!(squared.items, vec![(true, 0), (true, 0)]);
    let two_terms = layout(&[true, false], &[0, 1], &[0, 1, 2]);
    let cubed = two_terms.power(3);
    assert_eq!(cubed.len(), 8);
    assert_eq!(cubed.get_term(1), vec![(false, 1), (true, 0), (true, 0)]);
}

#[test]
fn fermion_operator_test_ichop() {
    let op = layout(&[true, false], &[0, 0], &[0, 0, 1, 2]);
    let coeffs = [1e-4, 1e-6, 1e-8];
    let keep: Vec<bool> = coeffs.iter().map(|c: &f64| c.abs() > 1e-7).collect();
    let chopped = op.retain(&keep);
    assert_eq!(chopped.boundaries, vec![0, 0, 1]);
    assert_eq!(chopped.items, vec![(true, 0)]);
    let keep: Vec<bool> = coeffs[..2].iter().map(|c: &f64| c.abs() > 1e-5).collect();
    let chopped = chopped.retain(&keep);
    assert_eq!(chopped.boundaries, vec![0, 0]);
    assert!(chopped.items.is_empty());
}

#[test]
fn fermion_operator_test_adjoint() {
    let op = layout(&[true, false], &[0, 1], &[0, 0, 2]);
    let adj = op.adjoint();
    assert_eq!(adj.boundaries, vec![0, 0, 2]);
    assert_eq!(adj.items, vec![(true, 1), (false, 0)]);
}

#[test]
fn fermion_operator_test_normal_ordered_1() {
    let op = layout(&[true, false], &[0, 1], &[0, 2]);
    let out = op.normal_ordered();
    assert_eq!(out, vec![(0, false, vec![(true, 0), (false, 1)])]);
}

#[test]
fn fermion_operator_test_normal_ordered_2() {
    let op = layout(&[true, true], &[0, 1], &[0, 2]);
    let out = op.normal_ordered();
    assert_eq!(out, vec![(0, true, vec![(true, 1), (true, 0)])]);
}

#[test]
fn fermion_operator_test_normal_ordered_3() {
    let op = layout(&[false, true], &[0, 0], &[0, 2]);
    let out = op.normal_ordered();
    assert_eq!(out, vec![(0, true, vec![(true, 0), (false, 0)]), (0, false, vec![])]);
}

#[test]
fn normal_ordered_vanishing_term() {
    let out = normal_ordered_term(&vec![(true, 2), (true, 2)]);
    assert!(out.is_empty());
    let out = normal_ordered_term(&vec![(false, 1), (false, 1)]);
    assert!(out.is_empty());
}

#[test]
fn normal_ordered_contraction_example() {
    // a_1 a+_1 a_0 a+_0 = 1 - a+_0 a_0 - a+_1 a_1 - a+_1 a+_0 a_1 a_0
    let op = layout(&[false, true, false, true], &[1, 1, 0, 0], &[0, 4]);
    let got = normal_ordered_merged(&op, &[Complex64::new(1.0, 0.0)], 1e-10);
    let one = Complex64::new(1.0, 0.0);
    let expected = vec![
        (vec![], one),
        (vec![(true, 0), (false, 0)], -one),
        (vec![(true, 1), (false, 1)], -one),
        (vec![(true, 1), (true, 0), (false, 1), (false, 0)], -one),
    ];
    assert!(same_sum(&got, &expected));
}

#[test]
fn normal_ordered_twice_is_unchanged() {
    let op = layout(
        &[false, true, false, true, true, false, true],
        &[1, 1, 0, 0, 2, 3, 5],
        &[0, 4, 7],
    );
    let once = op.normal_ordered();
    let mut mid = FermionTerms::zero();
    for (_, _, actions) in &once {
        mid.push_term(actions);
    }
    let twice = mid.normal_ordered();
    assert_eq!(twice.len(), once.len());
    for (k, (src, negative, actions)) in twice.iter().enumerate() {
        assert_eq!(*src, k);
        assert!(!*negative);
        assert_eq!(actions, &once[k].2);
    }
}

#[test]
fn fermion_operator_test_is_hermitian() {
    let op = layout(&[true, false, true, false], &[0, 1, 1, 0], &[0, 2, 4]);
    let coeffs = [Complex64::new(0.0, 1.00001), Complex64::new(0.0, -1.0)];
    let hermitian = |atol: f64| {
        let diff = op.add(&op.adjoint());
        let mut c: Vec<Complex64> = coeffs.to_vec();
        c.extend(coeffs.iter().map(|x| -x.conj()));
        normal_ordered_merged(&diff, &c, atol).is_empty()
    };
    assert!(hermitian(1e-4));
    assert!(!hermitian(1e-6));
}

#[test]
fn fermion_operator_test_many_body_order() {
    assert_eq!(FermionTerms::one().many_body_order(), 0);
    assert_eq!(layout(&[true], &[0], &[0, 1]).many_body_order(), 1);
    assert_eq!(layout(&[true, false], &[0, 1], &[0, 2]).many_body_order(), 2);
    assert_eq!(FermionTerms::zero().many_body_order(), 0);
}

#[test]
fn test_conserves_particle_number() {
    assert!(layout(&[true, false], &[0, 1], &[0, 2]).conserves_particle_number());
    assert!(!layout(&[true], &[0], &[0, 1]).conserves_particle_number());
}

#[test]
fn simplify_merges_before_dropping() {
    let n = 100_000;
    let op = Terms::<FermionAction> {
        items: vec![],
        boundaries: vec![0; n + 1],
    };
    let coeffs = vec![Complex64::new(1e-5, 0.0); n];
    let simplified = merged(&op, &coeffs, 1e-4);
    assert_eq!(simplified.len(), 1);
    assert!(simplified[0].0.is_empty());
    assert!((simplified[0].1 - Complex64::new(1.0, 0.0)).norm() < 1e-6);
    let keep: Vec<bool> = coeffs.iter().map(|c| c.norm() > 1e-4).collect();
    assert_eq!(op.retain(&keep).len(), 0);
}

#[test]
fn group_terms_first_occurrence() {
    let op = layout(&[true, false, true, true], &[0, 1, 0, 0], &[0, 1, 2, 3, 3, 4]);
    let (reps, group_of) = op.group_terms();
    assert_eq!(reps, vec![0, 1, 3]);
    assert_eq!(group_of, vec![0, 1, 0, 2, 0]);
}

fn product(ca: &[Complex64], cb: &[Complex64]) -> Vec<Complex64> {
    ca.iter().flat_map(|x| cb.iter().map(move |y| x * y)).collect()
}

fn flat_indices(t: &FermionTerms) -> Vec<u32> {
    t.items.iter().map(|(_, i)| *i).collect()
}

#[test]
fn test_commutators() {
    let op1 = layout(&[true, false, true, false], &[0, 1, 2, 3], &[0, 2, 4]);
    let op2 = layout(&[true, false, true, false], &[1, 0, 3, 2], &[0, 2, 4]);
    let c1 = [Complex64::new(1.0, 0.0), Complex64::new(2.0, 0.0)];
    let c2 = [Complex64::new(1.0, 0.0), Complex64::new(2.0, 0.0)];
    let (comm, negated) = commutator(&op1, &op2);
    let mut coeffs = product(&c1, &c2);
    coeffs.extend(product(&c2, &c1));
    let coeffs: Vec<Complex64> = coeffs
        .into_iter()
        .zip(negated)
        .map(|(c, n)| if n { -c } else { c })
        .collect();
    let expected: Vec<Complex64> = [1.0, 2.0, 2.0, 4.0, -1.0, -2.0, -2.0, -4.0]
        .iter()
        .map(|c| Complex64::new(*c, 0.0))
        .collect();
    assert_eq!(coeffs, expected);
    let actions: Vec<bool> = comm.items.iter().map(|(a, _)| *a).collect();
    assert_eq!(actions, [true, false].iter().cloned().cycle().take(32).collect::<Vec<bool>>());
    assert_eq!(
        flat_indices(&comm),
        vec![
            1, 0, 0, 1, 3, 2, 0, 1, 1, 0, 2, 3, 3, 2, 2, 3, 0, 1, 1, 0, 2, 3, 1, 0, 0, 1, 3, 2, 2,
            3, 3, 2,
        ]
    );
    assert_eq!(comm.boundaries, vec![0, 4, 8, 12, 16, 20, 24, 28, 32]);
}

#[test]
fn commutator_halves_exchange() {
    let a = layout(&[true], &[0], &[0, 1]);
    let b = layout(&[false], &[0], &[0, 1]);
    let (c, negated) = commutator(&a, &b);
    assert_eq!(all_terms(&c), vec![vec![(false, 0), (true, 0)], vec![(true, 0), (false, 0)]]);
    assert_eq!(negated, vec![false, true]);
    let (d, negated_back) = commutator(&b, &a);
    assert_eq!(all_terms(&d), vec![vec![(true, 0), (false, 0)], vec![(false, 0), (true, 0)]]);
    assert_eq!(negated_back, vec![false, true]);
}

#[test]
fn test_anti_commutators() {
    let op1 = layout(&[true, false, true, false], &[0, 1, 2, 3], &[0, 2, 4]);
    let op2 = layout(&[true, false, true, false], &[1, 0, 3, 2], &[0, 2, 4]);
    let c1 = [Complex64::new(1.0, 0.0), Complex64::new(2.0, 0.0)];
    let comm = anti_commutator(&op1, &op2);
    let mut coeffs = product(&c1, &c1);
    coeffs.extend(product(&c1, &c1));
    let expected: Vec<Complex64> = [1.0, 2.0, 2.0, 4.0, 1.0, 2.0, 2.0, 4.0]
        .iter()
        .map(|c| Complex64::new(*c, 0.0))
        .collect();
    assert_eq!(coeffs, expected);
    assert_eq!(
        flat_indices(&comm),
        vec![
            1, 0, 0, 1, 3, 2, 0, 1, 1, 0, 2, 3, 3, 2, 2, 3, 0, 1, 1, 0, 2, 3, 1, 0, 0, 1, 3, 2, 2,
            3, 3, 2,
        ]
    );
    assert_eq!(comm.boundaries, vec![0, 4, 8, 12, 16, 20, 24, 28, 32]);
}

#[test]
fn anti_commutator_of_mode_is_identity() {
    let a = layout(&[true], &[0], &[0, 1]);
    let b = layout(&[false], &[0], &[0, 1]);
    let c = anti_commutator(&a, &b);
    let got = normal_ordered_merged(&c, &[Complex64::new(1.0, 0.0); 2], 1e-10);
    assert!(same_sum(&got, &[(vec![], Complex64::new(1.0, 0.0))]));
}

#[test]
fn test_double_commutators() {
    let op1 = layout(&[true, false], &[0, 0], &[0, 2]);
    let op2 = layout(&[false, true], &[0, 0], &[0, 2]);
    let op3 = layout(&[true, false, false, true], &[0, 0, 0, 0], &[0, 2, 4]);
    let (ca, cb, cc) = (
        vec![Complex64::new(1.0, 0.0)],
        vec![Complex64::new(2.0, 0.0)],
        vec![Complex64::new(1.0, 0.0), Complex64::new(2.0, 0.5)],
    );
    let (terms, weights) = double_commutator(&op1, &op2, &op3, false);
    let ab = product(&ca, &cb);
    let ba = product(&cb, &ca);
    let ac = product(&ca, &cc);
    let cav = product(&cc, &ca);
    let mut coeffs = product(&ab, &cc);
    coeffs.extend(product(&cc, &ba));
    coeffs.extend(product(&ba, &cc));
    coeffs.extend(product(&cc, &ab));
    coeffs.extend(product(&ac, &cb));
    coeffs.extend(product(&cb, &cav));
    assert_eq!(coeffs.len(), weights.len());
    let coeffs: Vec<Complex64> = coeffs
        .into_iter()
        .zip(weights)
        .map(|(x, (negated, halved))| {
            let x = if negated { -x } else { x };
            if halved { x * 0.5 } else { x }
        })
        .collect();
    assert!(normal_ordered_merged(&terms, &coeffs, 1e-8).is_empty());
}

#[test]
fn double_commutator_weights_by_block() {
    let a = layout(&[true], &[0], &[0, 1]);
    let (terms, weights) = double_commutator(&a, &a, &a, true);
    assert_eq!(terms.len(), 6);
    assert_eq!(
        weights,
        vec![(false, false), (true, false), (true, true), (false, true), (true, true), (true, true)]
    );
}

#[test]
fn add_zero_and_compose_one_keep_terms() {
    let a = layout(&[true, false, false], &[2, 1, 0], &[0, 2, 3]);
    assert_eq!(all_terms(&a.add(&FermionTerms::zero())), all_terms(&a));
    assert_eq!(all_terms(&a.compose(&FermionTerms::one())), all_terms(&a));
}

#[test]
fn fermion_operator_test_and_assign() {
    let mut op = layout(&[true, false], &[0, 1], &[0, 0, 2]);
    op = op.compose(&layout(&[false, true], &[1, 0], &[0, 0, 2]));
    assert_eq!(op.boundaries, vec![0, 0, 2, 4, 8]);
    assert_eq!(
        op.items,
        vec![(false, 1), (true, 0), (true, 0), (false, 1), (false, 1), (true, 0), (true, 0), (false, 1)]
    );
}
