use zkvm_jetpack::belt::{Belt, P};
use zkvm_jetpack::bpoly::{bp_hadamard, bp_shift, bpadd, bpmul, bpneg, bpscal, bpsub};
use zkvm_jetpack::error::KernelError;
use zkvm_jetpack::ntt::{bp_coseword, bp_fft, bp_ifft, bp_ntt, ordered_root};

fn bp(v: &[u64]) -> Vec<Belt> {
    v.iter().map(|&x| Belt(x)).collect()
}

#[test]
fn add_pads_shorter_operand() {
    assert_eq!(bpadd(&bp(&[1, 2, 3]), &bp(&[4, 5])), bp(&[5, 7, 3]));
    assert_eq!(bpadd(&bp(&[]), &bp(&[4, 5])), bp(&[4, 5]));
}

#[test]
fn add_is_commutative() {
    let p = bp(&[1, P - 1, 7, 9]);
    let q = bp(&[P - 5, 3]);
    assert_eq!(bpadd(&p, &q), bpadd(&q, &p));
}

#[test]
fn sub_of_self_is_zero() {
    let p = bp(&[1, P - 1, 7, 9]);
    assert_eq!(bpsub(&p, &p), bp(&[0, 0, 0, 0]));
    assert_eq!(bpsub(&bp(&[1]), &bp(&[0, 2])), bp(&[1, P - 2]));
}

#[test]
fn neg_and_scale() {
    assert_eq!(bpneg(&bp(&[0, 1, 2])), bp(&[0, P - 1, P - 2]));
    assert_eq!(bpscal(Belt(3), &bp(&[1, 2, P - 1])), bp(&[3, 6, P - 3]));
}

#[test]
fn mul_squares_x_plus_one() {
    assert_eq!(bpmul(&bp(&[1, 1]), &bp(&[1, 1])), bp(&[1, 2, 1]));
    assert_eq!(bpmul(&bp(&[2, 3]), &bp(&[4, 5, 6])), bp(&[8, 22, 27, 18]));
}

#[test]
fn mul_degree_is_sum_of_degrees() {
    let p = bp(&[1, 2, 3]);
    let q = bp(&[4, 5, 6, 7]);
    let r = bpmul(&p, &q);
    assert_eq!(r.len(), p.len() + q.len() - 1);
    assert_eq!(*r.last().unwrap(), Belt(21));
    let r = bpmul(&bp(&[1, P - 1]), &bp(&[2, P - 1]));
    assert_eq!(*r.last().unwrap(), Belt(1));
}

#[test]
fn mul_by_zero_polynomial() {
    assert_eq!(bpmul(&bp(&[0]), &bp(&[4, 5, 6])), bp(&[0]));
    assert_eq!(bpmul(&bp(&[4, 5, 6]), &bp(&[])), bp(&[0]));
}

#[test]
fn hadamard_requires_equal_lengths() {
    assert_eq!(bp_hadamard(&bp(&[2, 3]), &bp(&[4, 5])), Ok(bp(&[8, 15])));
    assert_eq!(bp_hadamard(&bp(&[2, 3]), &bp(&[4])), Err(KernelError::Precondition));
}

#[test]
fn shift_scales_by_powers() {
    assert_eq!(bp_shift(&bp(&[1, 2, 3]), Belt(3)), bp(&[1, 6, 27]));
}

#[test]
fn ordered_roots() {
    assert_eq!(ordered_root(1), Ok(Belt(1)));
    assert_eq!(ordered_root(2), Ok(Belt(P - 1)));
    assert_eq!(ordered_root(4), Ok(Belt(1 << 48)));
    assert_eq!(ordered_root(8), Ok(Belt(0xfffffffeff000001)));
    assert_eq!(ordered_root(1 << 32), Ok(Belt(0x185629dcda58878c)));
    assert_eq!(ordered_root(3), Err(KernelError::Precondition));
    assert_eq!(ordered_root(0), Err(KernelError::Precondition));
    assert_eq!(ordered_root(1 << 33), Err(KernelError::Precondition));
}

#[test]
fn fft_values() {
    assert_eq!(
        bp_fft(&bp(&[1, 2, 3, 4])),
        Ok(bp(&[10, 18446181119461163007, 18446744069414584319, 562949953421310]))
    );
    assert_eq!(bp_fft(&bp(&[5, 0, 0, 0])), Ok(bp(&[5, 5, 5, 5])));
    assert_eq!(bp_fft(&bp(&[9])), Ok(bp(&[9])));
}

#[test]
fn fft_rejects_other_lengths() {
    assert_eq!(bp_fft(&bp(&[1, 2, 3])), Err(KernelError::Precondition));
    assert_eq!(bp_fft(&bp(&[])), Err(KernelError::Precondition));
    assert_eq!(bp_ifft(&bp(&[1, 2, 3, 4, 5, 6])), Err(KernelError::Precondition));
}

#[test]
fn ifft_values() {
    assert_eq!(
        bp_ifft(&bp(&[5, 6, 7, 8])),
        Ok(bp(&[
            9223372034707292167,
            9223512772195647488,
            9223372034707292160,
            9223231297218936832
        ]))
    );
}

#[test]
fn fft_of_ifft_is_identity() {
    for p in [bp(&[5, 6, 7, 8]), bp(&[1, P - 1]), bp(&[3, 1, 4, 1, 5, 9, 2, 6]), bp(&[42])] {
        let inv = bp_ifft(&p).unwrap();
        assert_eq!(bp_fft(&inv).unwrap(), p);
    }
}

#[test]
fn ntt_with_caller_root() {
    let root = ordered_root(4).unwrap();
    assert_eq!(bp_ntt(&bp(&[1, 2, 3, 4]), root), bp_fft(&bp(&[1, 2, 3, 4])));
    assert_eq!(bp_ntt(&bp(&[1, 2, 3, 4]), Belt(3)), Err(KernelError::Precondition));
    assert_eq!(bp_ntt(&bp(&[1, 2, 3]), Belt(1)), Err(KernelError::Precondition));
}

#[test]
fn coseword_evaluates_on_coset() {
    assert_eq!(
        bp_coseword(&bp(&[1, 2, 3]), Belt(7), 4),
        Ok(bp(&[162, 3940649673949038, 134, 18442803419740634991]))
    );
    assert_eq!(bp_coseword(&bp(&[1, 2, 3]), Belt(7), 3), Err(KernelError::Precondition));
}
