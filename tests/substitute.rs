use zkvm_jetpack::belt::Belt;
use zkvm_jetpack::error::KernelError;
use zkvm_jetpack::mega::{mp_substitute_mega, ones_bpoly, zero_bpoly, Factor, MegaTyp, SubstitutionData};

fn bp(v: &[u64]) -> Vec<Belt> {
    v.iter().map(|&x| Belt(x)).collect()
}

fn factor(typ: MegaTyp, idx: usize, exp: u64) -> Factor {
    Factor { typ, idx, exp }
}

fn data() -> SubstitutionData {
    SubstitutionData {
        trace_evals: bp(&[2, 3, 4, 5, 6, 7, 8, 9]),
        height: 1,
        challenges: vec![(7, Belt(5))],
        dyns: bp(&[3]),
        commitments: vec![(1, bp(&[2, 2, 2]))],
    }
}

#[test]
fn zero_and_ones() {
    assert_eq!(zero_bpoly(), bp(&[0]));
    assert_eq!(ones_bpoly(3), bp(&[1, 1, 1]));
    assert_eq!(ones_bpoly(0), bp(&[]));
}

#[test]
fn empty_term_list_is_zero() {
    assert_eq!(mp_substitute_mega(&vec![], &data()), Ok(bp(&[0])));
}

#[test]
fn empty_factor_list_gives_its_coefficient() {
    assert_eq!(mp_substitute_mega(&vec![(vec![], Belt(0))], &data()), Ok(bp(&[0])));
    assert_eq!(mp_substitute_mega(&vec![(vec![], Belt(5))], &data()), Ok(bp(&[5])));
}

#[test]
fn constant_factors_change_nothing() {
    let d = SubstitutionData { challenges: vec![(7, Belt(1))], ..data() };
    let plain = vec![factor(MegaTyp::Rnd, 7, 1)];
    let with_con = vec![factor(MegaTyp::Rnd, 7, 1), factor(MegaTyp::Con, 0, 1)];
    assert_eq!(mp_substitute_mega(&vec![(plain, Belt(1))], &d), Ok(bp(&[1])));
    assert_eq!(mp_substitute_mega(&vec![(with_con, Belt(1))], &d), Ok(bp(&[1])));
    let plain = vec![factor(MegaTyp::Var, 0, 1)];
    let with_con = vec![factor(MegaTyp::Con, 0, 1), factor(MegaTyp::Var, 0, 1)];
    assert_eq!(
        mp_substitute_mega(&vec![(plain, Belt(2))], &data()),
        mp_substitute_mega(&vec![(with_con, Belt(2))], &data())
    );
}

#[test]
fn variable_factor_takes_trace_slice() {
    let t = vec![factor(MegaTyp::Var, 0, 1)];
    assert_eq!(mp_substitute_mega(&vec![(t, Belt(1))], &data()), Ok(bp(&[2, 3, 4, 5])));
    let t = vec![
        factor(MegaTyp::Var, 1, 2),
        factor(MegaTyp::Con, 0, 1),
        factor(MegaTyp::Con, 0, 1),
        factor(MegaTyp::Con, 0, 1),
    ];
    assert_eq!(mp_substitute_mega(&vec![(t, Belt(3))], &data()), Ok(bp(&[108, 147, 192, 243])));
}

#[test]
fn challenge_and_dynamic_factors_scale() {
    let t = vec![factor(MegaTyp::Rnd, 7, 2), factor(MegaTyp::Con, 0, 0)];
    assert_eq!(mp_substitute_mega(&vec![(t, Belt(1))], &data()), Ok(bp(&[25])));
    let t = vec![factor(MegaTyp::Dyn, 0, 3)];
    assert_eq!(mp_substitute_mega(&vec![(t, Belt(2))], &data()), Ok(bp(&[54])));
}

#[test]
fn commitment_factor_multiplies_pointwise() {
    let t = vec![
        factor(MegaTyp::Com, 1, 2),
        factor(MegaTyp::Con, 0, 0),
        factor(MegaTyp::Con, 0, 0),
    ];
    assert_eq!(mp_substitute_mega(&vec![(t, Belt(1))], &data()), Ok(bp(&[4, 4, 4])));
}

#[test]
fn terms_are_summed_with_growing_length() {
    let t1 = vec![factor(MegaTyp::Var, 0, 1)];
    let t2 = vec![factor(MegaTyp::Dyn, 0, 1), factor(MegaTyp::Con, 0, 0)];
    assert_eq!(
        mp_substitute_mega(&vec![(t1, Belt(1)), (t2, Belt(2))], &data()),
        Ok(bp(&[8, 3, 4, 5]))
    );
}

#[test]
fn missing_values_are_lookup_failures() {
    let cases = vec![
        vec![factor(MegaTyp::Rnd, 8, 1)],
        vec![factor(MegaTyp::Dyn, 1, 1)],
        vec![factor(MegaTyp::Var, 2, 1)],
        vec![factor(MegaTyp::Var, usize::MAX, 1)],
        vec![factor(MegaTyp::Rnd, 7, 1), factor(MegaTyp::Dyn, 0, 1), factor(MegaTyp::Com, 9, 0)],
        vec![factor(MegaTyp::Com, 2, 1)],
    ];
    for t in cases {
        assert_eq!(mp_substitute_mega(&vec![(t, Belt(1))], &data()), Err(KernelError::Lookup));
    }
}

#[test]
fn zero_coefficient_terms_are_skipped() {
    let bad = vec![factor(MegaTyp::Rnd, 8, 1)];
    assert_eq!(mp_substitute_mega(&vec![(bad, Belt(0))], &data()), Ok(bp(&[0])));
}
