use qiskit_fermions_core::exit_codes::{CInputError, ExitCode};
use qiskit_fermions_core::integrals::{_expand_s4_index, _expand_s8_index, _inflate_index};

#[test]
fn inflate_index_walks_the_triangle() {
    let got: Vec<(u32, u32)> = (0..6).map(_inflate_index).collect();
    assert_eq!(got, vec![(0, 0), (1, 0), (1, 1), (2, 0), (2, 1), (2, 2)]);
    assert_eq!(_inflate_index(55), (10, 0));
    let (p, q) = _inflate_index(u32::MAX);
    let tri = |p: u64| p * (p + 1) / 2;
    assert!(tri(p as u64) <= u32::MAX as u64 && (u32::MAX as u64) < tri(p as u64 + 1));
    assert_eq!(q as u64, u32::MAX as u64 - tri(p as u64));
}

#[test]
fn expand_s4_index_swaps_distinct_pairs() {
    // npair = 3: position 4 is pair 1 = (1, 0) with pair 1 = (1, 0)
    assert_eq!(
        _expand_s4_index(4, 3),
        vec![(1, 0, 1, 0), (0, 1, 1, 0), (1, 0, 0, 1), (0, 1, 0, 1)]
    );
    assert_eq!(_expand_s4_index(0, 3), vec![(0, 0, 0, 0)]);
    assert_eq!(_expand_s4_index(2, 3), vec![(0, 0, 1, 1)]);
}

#[test]
fn expand_s8_index_exchanges_pairs() {
    // position 1 is (ia, jb) = (1, 0): pairs (1, 0) and (0, 0)
    assert_eq!(
        _expand_s8_index(1),
        vec![(1, 0, 0, 0), (0, 1, 0, 0), (0, 0, 1, 0), (0, 0, 0, 1)]
    );
    assert_eq!(_expand_s8_index(0), vec![(0, 0, 0, 0)]);
}

#[test]
fn exit_codes_of_input_errors() {
    assert_eq!(ExitCode::Success.code(), 0);
    assert_eq!(ExitCode::CInputError.code(), 100);
    assert_eq!(ExitCode::from(CInputError::NullPointerError), ExitCode::NullPointerError);
    assert_eq!(ExitCode::from(CInputError::AlignmentError).code(), 102);
    assert_eq!(ExitCode::from(CInputError::IndexError).code(), 103);
}

use qiskit_fermions_core::fermion::FermionTerms;

fn indices_of(t: &FermionTerms) -> Vec<u32> {
    t.items.iter().map(|(_, i)| *i).collect()
}

fn one_body(values: &[f64], offset: u32, sym: Option<u32>, t: &mut FermionTerms, c: &mut Vec<f64>) {
    for (ia, v) in values.iter().enumerate().filter(|(_, v)| v.abs() > 0.0) {
        let (i, a) = _inflate_index(ia as u32);
        let n = match sym {
            Some(norb) => t.push_one_body_spin_sym(i, a, norb),
            None => t.push_one_body(i + offset, a + offset),
        };
        c.extend(std::iter::repeat_n(*v, n));
    }
}

#[test]
fn test_1body_tril_spin_sym() {
    let (mut t, mut c) = (FermionTerms::zero(), Vec::new());
    one_body(&[1.0, 2.0, 3.0], 0, Some(2), &mut t, &mut c);
    assert_eq!(c, vec![1.0, 1.0, 2.0, 2.0, 2.0, 2.0, 3.0, 3.0]);
    assert_eq!(indices_of(&t), vec![0, 0, 2, 2, 1, 0, 0, 1, 3, 2, 2, 3, 1, 1, 3, 3]);
    assert_eq!(t.boundaries, vec![0, 2, 4, 6, 8, 10, 12, 14, 16]);
    assert!(t.items.iter().map(|(a, _)| *a).eq([true, false].iter().cloned().cycle().take(16)));
}

#[test]
fn test_1body_tril_spin() {
    let (mut t, mut c) = (FermionTerms::zero(), Vec::new());
    one_body(&[1.0, 2.0, 3.0], 0, None, &mut t, &mut c);
    one_body(&[-1.0, -2.0, -3.0], 2, None, &mut t, &mut c);
    assert_eq!(c, vec![1.0, 2.0, 2.0, 3.0, -1.0, -2.0, -2.0, -3.0]);
    assert_eq!(indices_of(&t), vec![0, 0, 1, 0, 0, 1, 1, 1, 2, 2, 3, 2, 2, 3, 3, 3]);
    assert_eq!(t.boundaries, vec![0, 2, 4, 6, 8, 10, 12, 14, 16]);
}

#[test]
fn test_2body_tril_spin_sym() {
    let norb = 2;
    let (mut t, mut c) = (FermionTerms::zero(), Vec::new());
    for (iajb, v) in [1.0f64, 2.0, 3.0, 4.0, 5.0, 6.0].iter().enumerate() {
        for (i, a, j, b) in _expand_s8_index(iajb as u32) {
            t.push_two_body_spin_sym(i, a, j, b, norb);
            c.extend([0.5 * v; 4]);
        }
    }
    assert_eq!(
        c,
        vec![
            0.5, 0.5, 0.5, 0.5, 1.0, 1.0, 1.0, 1.0, 1.0, 1.0, 1.0, 1.0, 1.0, 1.0, 1.0, 1.0, 1.0,
            1.0, 1.0, 1.0, 1.5, 1.5, 1.5, 1.5, 1.5, 1.5, 1.5, 1.5, 1.5, 1.5, 1.5, 1.5, 1.5, 1.5,
            1.5, 1.5, 2.0, 2.0, 2.0, 2.0, 2.0, 2.0, 2.0, 2.0, 2.5, 2.5, 2.5, 2.5, 2.5, 2.5, 2.5,
            2.5, 2.5, 2.5, 2.5, 2.5, 2.5, 2.5, 2.5, 2.5, 3.0, 3.0, 3.0, 3.0,
        ]
    );
    assert_eq!(
        indices_of(&t),
        vec![
            0, 0, 0, 0, 2, 0, 0, 2, 0, 2, 2, 0, 2, 2, 2, 2, 1, 0, 0, 0, 3, 0, 0, 2, 1, 2, 2, 0, 3,
            2, 2, 2, 0, 0, 0, 1, 2, 0, 0, 3, 0, 2, 2, 1, 2, 2, 2, 3, 0, 1, 0, 0, 2, 1, 0, 2, 0, 3,
            2, 0, 2, 3, 2, 2, 0, 0, 1, 0, 2, 0, 1, 2, 0, 2, 3, 0, 2, 2, 3, 2, 1, 1, 0, 0, 3, 1, 0,
            2, 1, 3, 2, 0, 3, 3, 2, 2, 0, 1, 0, 1, 2, 1, 0, 3, 0, 3, 2, 1, 2, 3, 2, 3, 1, 0, 1, 0,
            3, 0, 1, 2, 1, 2, 3, 0, 3, 2, 3, 2, 0, 0, 1, 1, 2, 0, 1, 3, 0, 2, 3, 1, 2, 2, 3, 3, 1,
            0, 0, 1, 3, 0, 0, 3, 1, 2, 2, 1, 3, 2, 2, 3, 0, 1, 1, 0, 2, 1, 1, 2, 0, 3, 3, 0, 2, 3,
            3, 2, 1, 1, 0, 1, 3, 1, 0, 3, 1, 3, 2, 1, 3, 3, 2, 3, 1, 0, 1, 1, 3, 0, 1, 3, 1, 2, 3,
            1, 3, 2, 3, 3, 1, 1, 1, 0, 3, 1, 1, 2, 1, 3, 3, 0, 3, 3, 3, 2, 0, 1, 1, 1, 2, 1, 1, 3,
            0, 3, 3, 1, 2, 3, 3, 3, 1, 1, 1, 1, 3, 1, 1, 3, 1, 3, 3, 1, 3, 3, 3, 3,
        ]
    );
    assert_eq!(t.boundaries, (0..257).step_by(4).collect::<Vec<usize>>());
}

#[test]
fn test_2body_tril_spin() {
    let norb = 2;
    let npair = norb * (norb + 1) / 2;
    let (mut t, mut c) = (FermionTerms::zero(), Vec::new());
    for (iajb, v) in [1.0f64, 2.0, 3.0, 4.0, 5.0, 6.0].iter().enumerate() {
        for (i, a, j, b) in _expand_s8_index(iajb as u32) {
            t.push_two_body(i, j, b, a);
            c.push(0.5 * v);
        }
    }
    for (iajb, v) in (11..20).map(f64::from).enumerate() {
        for (i, a, j, b) in _expand_s4_index(iajb as u32, npair) {
            t.push_two_body_mixed_spin(i, a, j, b, norb);
            c.extend([0.5 * v; 2]);
        }
    }
    for (iajb, v) in [-1.0f64, -2.0, -3.0, -4.0, -5.0, -6.0].iter().enumerate() {
        for (i, a, j, b) in _expand_s8_index(iajb as u32) {
            t.push_two_body(i + norb, j + norb, b + norb, a + norb);
            c.push(0.5 * v);
        }
    }
    assert_eq!(
        c,
        vec![
            0.5, 1.0, 1.0, 1.0, 1.0, 1.5, 1.5, 1.5, 1.5, 2.0, 2.0, 2.5, 2.5, 2.5, 2.5, 3.0, 5.5,
            5.5, 6.0, 6.0, 6.0, 6.0, 6.5, 6.5, 7.0, 7.0, 7.0, 7.0, 7.5, 7.5, 7.5, 7.5, 7.5, 7.5,
            7.5, 7.5, 8.0, 8.0, 8.0, 8.0, 8.5, 8.5, 9.0, 9.0, 9.0, 9.0, 9.5, 9.5, -0.5, -1.0, -1.0,
            -1.0, -1.0, -1.5, -1.5, -1.5, -1.5, -2.0, -2.0, -2.5, -2.5, -2.5, -2.5, -3.0,
        ]
    );
    assert_eq!(
        indices_of(&t),
        vec![
            0, 0, 0, 0, 1, 0, 0, 0, 0, 0, 0, 1, 0, 1, 0, 0, 0, 0, 1, 0, 1, 1, 0, 0, 0, 1, 0, 1, 1,
            0, 1, 0, 0, 0, 1, 1, 1, 0, 0, 1, 0, 1, 1, 0, 1, 1, 0, 1, 1, 0, 1, 1, 1, 1, 1, 0, 0, 1,
            1, 1, 1, 1, 1, 1, 0, 2, 2, 0, 2, 0, 0, 2, 0, 3, 2, 0, 3, 0, 0, 2, 0, 2, 3, 0, 2, 0, 0,
            3, 0, 3, 3, 0, 3, 0, 0, 3, 1, 2, 2, 0, 2, 1, 0, 2, 0, 2, 2, 1, 2, 0, 1, 2, 1, 3, 2, 0,
            3, 1, 0, 2, 0, 3, 2, 1, 3, 0, 1, 2, 1, 2, 3, 0, 2, 1, 0, 3, 0, 2, 3, 1, 2, 0, 1, 3, 1,
            3, 3, 0, 3, 1, 0, 3, 0, 3, 3, 1, 3, 0, 1, 3, 1, 2, 2, 1, 2, 1, 1, 2, 1, 3, 2, 1, 3, 1,
            1, 2, 1, 2, 3, 1, 2, 1, 1, 3, 1, 3, 3, 1, 3, 1, 1, 3, 2, 2, 2, 2, 3, 2, 2, 2, 2, 2, 2,
            3, 2, 3, 2, 2, 2, 2, 3, 2, 3, 3, 2, 2, 2, 3, 2, 3, 3, 2, 3, 2, 2, 2, 3, 3, 3, 2, 2, 3,
            2, 3, 3, 2, 3, 3, 2, 3, 3, 2, 3, 3, 3, 3, 3, 2, 2, 3, 3, 3, 3, 3, 3, 3,
        ]
    );
    assert_eq!(t.boundaries, (0..257).step_by(4).collect::<Vec<usize>>());
}
