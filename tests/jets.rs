use zkvm_jetpack::belt::{Belt, P};
use zkvm_jetpack::error::KernelError;
use zkvm_jetpack::felt::Felt;
use zkvm_jetpack::jets::{
    bp_coseword_jet, bp_fft_jet, bp_hadamard_jet, bp_ifft_jet, bp_ntt_jet, bp_shift_jet,
    bpadd_jet, bpmul_jet, bpneg_jet, bpscal_jet, bpsub_jet, fp_add_jet, fp_eval_jet, fp_fft_jet,
    fp_ifft_jet, fp_mul_jet, fp_neg_jet, fp_scal_jet, fp_sub_jet, fpcompose_jet, hash_varlen_jet,
    init_bpoly_jet, interpolate_jet, mary_swag_jet, mary_transpose_jet, mary_weld_jet,
    mont_reduction_jet, montify_jet, montiply_jet, permutation_jet, slot, transpose_bpolys_jet,
};
use zkvm_jetpack::noun::{
    bpoly_to_list, fpoly_to_list, hoon_list_to_vecbelt, hoon_list_to_vecfelt, hoon_list_to_vecu64,
    noun_as_felt, noun_as_u64, vec_to_hoon_list, Noun,
};

fn atom(v: u64) -> Noun {
    Noun::Atom(vec![v])
}

fn cell(h: Noun, t: Noun) -> Noun {
    Noun::Cell(Box::new(h), Box::new(t))
}

fn bp(v: &[u64]) -> Vec<Belt> {
    v.iter().map(|&x| Belt(x)).collect()
}

fn blist(v: &[u64]) -> Noun {
    bpoly_to_list(&bp(v))
}

fn flist(v: &[(u64, u64, u64)]) -> Noun {
    let p: Vec<Felt> = v.iter().map(|&(a, b, c)| Felt::new(Belt(a), Belt(b), Belt(c))).collect();
    fpoly_to_list(&p)
}

fn felts(n: &Noun) -> Vec<(u64, u64, u64)> {
    hoon_list_to_vecfelt(n).unwrap().iter().map(|f| (f.c0.0, f.c1.0, f.c2.0)).collect()
}

/// A gate's subject: [battery [sample context]].
fn gate(sample: Noun) -> Noun {
    cell(atom(0), cell(sample, atom(0)))
}

/// A door arm's subject, with the door's sample `ma`.
fn door(sample: Noun, ma: Noun) -> Noun {
    cell(atom(0), cell(sample, cell(atom(0), cell(ma, atom(0)))))
}

fn mary(step: u64, v: &[u64]) -> Noun {
    let len = if step == 0 { 0 } else { v.len() as u64 / step };
    cell(atom(step), cell(atom(len), blist(v)))
}

fn belts(n: &Noun) -> Vec<u64> {
    hoon_list_to_vecbelt(n).unwrap().iter().map(|b| b.0).collect()
}

fn mary_parts(n: &Noun) -> (u64, Vec<u64>) {
    match n {
        Noun::Cell(h, t) => match &**t {
            Noun::Cell(_, b) => (noun_as_u64(h).unwrap(), belts(b)),
            Noun::Atom(_) => panic!("a table is a triple"),
        },
        Noun::Atom(_) => panic!("a table is a triple"),
    }
}

fn mary_rows(n: &Noun) -> u64 {
    match n {
        Noun::Cell(_, t) => match &**t {
            Noun::Cell(l, _) => noun_as_u64(l).unwrap(),
            Noun::Atom(_) => panic!("a table is a triple"),
        },
        Noun::Atom(_) => panic!("a table is a triple"),
    }
}

#[test]
fn slot_addresses_the_tree() {
    let s = cell(atom(1), cell(atom(2), atom(3)));
    assert_eq!(noun_as_u64(slot(&s, 2).unwrap()), Some(1));
    assert_eq!(noun_as_u64(slot(&s, 6).unwrap()), Some(2));
    assert_eq!(noun_as_u64(slot(&s, 7).unwrap()), Some(3));
    assert!(slot(&s, 0).is_none());
    assert!(slot(&s, 4).is_none());
}

#[test]
fn bp_arithmetic_jets() {
    let s = gate(cell(blist(&[1, 2, 3]), blist(&[4, 5])));
    assert_eq!(belts(&bpadd_jet(&s).unwrap()), vec![5, 7, 3]);
    assert_eq!(belts(&bpsub_jet(&s).unwrap()), vec![P - 3, P - 3, 3]);
    assert_eq!(belts(&bpmul_jet(&s).unwrap()), vec![4, 13, 22, 15]);
    assert_eq!(belts(&bpneg_jet(&gate(blist(&[1, 0]))).unwrap()), vec![P - 1, 0]);
    let s = gate(cell(atom(2), blist(&[1, 2])));
    assert_eq!(belts(&bpscal_jet(&s).unwrap()), vec![2, 4]);
    let s = gate(cell(blist(&[1, 2, 3]), atom(3)));
    assert_eq!(belts(&bp_shift_jet(&s).unwrap()), vec![1, 6, 27]);
    assert_eq!(init_bpoly_jet(&gate(blist(&[9, 8]))), Ok(bp(&[9, 8])));
}

#[test]
fn bp_jets_reject_bad_samples() {
    assert_eq!(bpadd_jet(&gate(atom(5))), Err(KernelError::Decode));
    assert_eq!(bpneg_jet(&gate(cell(atom(P), atom(0)))), Err(KernelError::Decode));
    let s = gate(cell(blist(&[1, 2]), blist(&[1])));
    assert_eq!(bp_hadamard_jet(&s), Err(KernelError::Precondition));
    let s = gate(cell(blist(&[2, 3]), blist(&[4, 5])));
    assert_eq!(belts(&bp_hadamard_jet(&s).unwrap()), vec![8, 15]);
}

#[test]
fn bp_transform_jets() {
    let p = blist(&[5, 6, 7, 8]);
    let inv = bp_ifft_jet(&gate(p)).unwrap();
    assert_eq!(belts(&bp_fft_jet(&gate(inv)).unwrap()), vec![5, 6, 7, 8]);
    assert_eq!(bp_fft_jet(&gate(blist(&[1, 2, 3]))), Err(KernelError::Precondition));
    let s = gate(cell(blist(&[1, 2, 3, 4]), atom(1 << 48)));
    assert_eq!(
        belts(&bp_ntt_jet(&s).unwrap()),
        vec![10, 18446181119461163007, 18446744069414584319, 562949953421310]
    );
    let s = gate(cell(blist(&[1, 2, 3]), cell(atom(7), atom(4))));
    assert_eq!(
        belts(&bp_coseword_jet(&s).unwrap()),
        vec![162, 3940649673949038, 134, 18442803419740634991]
    );
    let s = gate(cell(blist(&[1, 2, 3]), cell(atom(7), atom(1 << 40))));
    assert_eq!(bp_coseword_jet(&s), Err(KernelError::Decode));
}

#[test]
fn fp_jets() {
    let s = gate(cell(flist(&[(1, 2, 3)]), flist(&[(1, 1, 1), (5, 0, 0)])));
    assert_eq!(felts(&fp_add_jet(&s).unwrap()), vec![(2, 3, 4), (5, 0, 0)]);
    assert_eq!(felts(&fp_sub_jet(&s).unwrap()), vec![(0, 1, 2), (P - 5, 0, 0)]);
    assert_eq!(felts(&fp_mul_jet(&s).unwrap()), vec![(P - 4, 5, 9), (5, 10, 15)]);
    assert_eq!(felts(&fp_neg_jet(&gate(flist(&[(1, 0, 0)]))).unwrap()), vec![(P - 1, 0, 0)]);
    let s = gate(cell(atom(3), flist(&[(1, 2, 3)])));
    assert_eq!(felts(&fp_scal_jet(&s).unwrap()), vec![(3, 6, 9)]);
    let s = gate(cell(flist(&[(1, 0, 0), (2, 0, 0), (3, 0, 0)]), atom(2)));
    let v = fp_eval_jet(&s).unwrap();
    assert_eq!(noun_as_felt(&v), Some(Felt::new(Belt(17), Belt(0), Belt(0))));
}

#[test]
fn fp_transform_and_interpolation_jets() {
    let p = flist(&[(1, 2, 3), (4, 5, 6), (P - 1, 0, 7), (8, 8, 8)]);
    let t = fp_fft_jet(&gate(p)).unwrap();
    let back = fp_ifft_jet(&gate(t)).unwrap();
    assert_eq!(felts(&back), vec![(1, 2, 3), (4, 5, 6), (P - 1, 0, 7), (8, 8, 8)]);
    let s = gate(cell(flist(&[(1, 0, 0), (2, 0, 0), (3, 0, 0)]), flist(&[(4, 0, 0), (5, 0, 0), (6, 0, 0)])));
    assert_eq!(felts(&interpolate_jet(&s).unwrap()), vec![(3, 0, 0), (1, 0, 0), (0, 0, 0)]);
    let s = gate(cell(flist(&[(1, 0, 0)]), flist(&[])));
    assert_eq!(interpolate_jet(&s), Err(KernelError::Precondition));
    let s = gate(cell(flist(&[(1, 0, 0), (0, 0, 0), (1, 0, 0)]), flist(&[(1, 0, 0), (1, 0, 0)])));
    assert_eq!(felts(&fpcompose_jet(&s).unwrap()), vec![(2, 0, 0), (2, 0, 0), (1, 0, 0)]);
}

#[test]
fn mary_jets() {
    let ma = mary(2, &[1, 2, 3, 4, 5, 6]);
    let s = door(cell(atom(1), atom(2)), ma);
    assert_eq!(mary_parts(&mary_swag_jet(&s).unwrap()), (2, vec![3, 4, 5, 6]));
    let s = door(cell(atom(2), atom(2)), mary(2, &[1, 2, 3, 4, 5, 6]));
    assert_eq!(mary_swag_jet(&s), Err(KernelError::Precondition));
    let s = door(mary(2, &[7, 8]), mary(2, &[1, 2]));
    assert_eq!(mary_parts(&mary_weld_jet(&s).unwrap()), (2, vec![1, 2, 7, 8]));
    let s = door(mary(3, &[7, 8, 9]), mary(2, &[1, 2]));
    assert_eq!(mary_weld_jet(&s), Err(KernelError::Precondition));
    let s = door(atom(1), mary(2, &[1, 2, 3, 4, 5, 6]));
    assert_eq!(mary_parts(&mary_transpose_jet(&s).unwrap()), (3, vec![1, 3, 5, 2, 4, 6]));
    let s = gate(mary(2, &[1, 2, 3, 4, 5, 6]));
    assert_eq!(mary_parts(&transpose_bpolys_jet(&s).unwrap()), (3, vec![1, 3, 5, 2, 4, 6]));
    // a buffer that does not hold step * len elements is refused
    let bad = cell(atom(4), cell(atom(1), blist(&[1, 2])));
    assert_eq!(transpose_bpolys_jet(&gate(bad)), Err(KernelError::Decode));
    assert_eq!(mary_transpose_jet(&door(atom(3), mary(2, &[1, 2]))), Err(KernelError::Precondition));
}

#[test]
fn transposing_an_empty_table() {
    let t = transpose_bpolys_jet(&gate(mary(2, &[]))).unwrap();
    assert_eq!(mary_parts(&t), (0, vec![]));
    assert_eq!(mary_rows(&t), 2);
    let t = mary_transpose_jet(&door(atom(2), mary(4, &[]))).unwrap();
    assert_eq!(mary_parts(&t), (0, vec![]));
    assert_eq!(mary_rows(&t), 2);
    // a table with no columns decodes too, and transposes back to no rows
    let back = transpose_bpolys_jet(&gate(t)).unwrap();
    assert_eq!(mary_parts(&back), (2, vec![]));
    assert_eq!(mary_rows(&back), 0);
}

#[test]
fn montgomery_jets() {
    assert_eq!(noun_as_u64(&montify_jet(&gate(atom(1))).unwrap()), Some(0xffff_ffff));
    let s = gate(cell(atom(0xffff_ffff), atom(1)));
    assert_eq!(noun_as_u64(&montiply_jet(&s).unwrap()), Some(1));
    assert_eq!(noun_as_u64(&mont_reduction_jet(&gate(atom(0xffff_ffff))).unwrap()), Some(1));
    let big = Noun::Atom(vec![0, 0xffff_ffff_0000_0001]);
    assert_eq!(mont_reduction_jet(&gate(big)), Err(KernelError::Precondition));
    let huge = Noun::Atom(vec![0, 0, 1]);
    assert_eq!(mont_reduction_jet(&gate(huge)), Err(KernelError::Decode));
}

#[test]
fn hash_varlen_jet_digest() {
    let perm = |s: [u64; 16]| {
        let mut t = [0u64; 16];
        for i in 0..16 {
            t[i] = s[(i + 1) % 16] ^ (i as u64);
        }
        t
    };
    let d = hash_varlen_jet(&gate(vec_to_hoon_list(&[1, 2, 3])), &perm).unwrap();
    assert_eq!(
        hoon_list_to_vecu64(&d).unwrap(),
        vec![2, 4294967299, 8589934593, 18446744056529682433, 18446744052234715137]
    );
    assert_eq!(
        hash_varlen_jet(&gate(vec_to_hoon_list(&[1, P])), &perm),
        Err(KernelError::Precondition)
    );
}

#[test]
fn permutation_jet_applies_permutation() {
    let rotate = |s: [u64; 16]| {
        let mut t = [0u64; 16];
        for i in 0..16 {
            t[i] = s[(i + 1) % 16];
        }
        t
    };
    let state: Vec<u64> = (0..16).collect();
    let out = permutation_jet(&gate(vec_to_hoon_list(&state)), &rotate).unwrap();
    let expected: Vec<u64> = (1..16).chain(0..1).collect();
    assert_eq!(hoon_list_to_vecu64(&out).unwrap(), expected);
    let short: Vec<u64> = (0..3).collect();
    assert_eq!(permutation_jet(&gate(vec_to_hoon_list(&short)), &rotate), Err(KernelError::Decode));
}
