use zkvm_jetpack::belt::{Belt, P};
use zkvm_jetpack::error::KernelError;
use zkvm_jetpack::felt::Felt;
use zkvm_jetpack::fft::{fp_fft_poly, fp_fft_recursive, fp_ifft_poly, get_root_of_unity};
use zkvm_jetpack::fpoly::{
    fpadd_poly, fpcompose_poly, fpeval_poly, fpmul_poly, fpneg_poly, fpscal_poly, fpsub_poly,
    interpolate_poly,
};

fn f(a: u64, b: u64, c: u64) -> Felt {
    Felt::new(Belt(a), Belt(b), Belt(c))
}

fn lifted(v: &[u64]) -> Vec<Felt> {
    v.iter().map(|&x| f(x, 0, 0)).collect()
}

#[test]
fn fpoly_add_sub_neg_scale() {
    let p = vec![f(1, 2, 3), f(4, 5, 6)];
    let q = vec![f(1, 1, 1)];
    assert_eq!(fpadd_poly(&p, &q), vec![f(2, 3, 4), f(4, 5, 6)]);
    assert_eq!(fpsub_poly(&q, &p), vec![f(0, P - 1, P - 2), f(P - 4, P - 5, P - 6)]);
    assert_eq!(fpneg_poly(&q), vec![f(P - 1, P - 1, P - 1)]);
    assert_eq!(fpscal_poly(&f(2, 0, 0), &p), vec![f(2, 4, 6), f(8, 10, 12)]);
}

#[test]
fn fpoly_mul_convolves() {
    assert_eq!(fpmul_poly(&lifted(&[1, 1]), &lifted(&[1, 1])), lifted(&[1, 2, 1]));
    assert_eq!(fpmul_poly(&lifted(&[]), &lifted(&[1, 1])), lifted(&[]));
    // (x) * (x^2 coefficient) uses the extension product
    assert_eq!(fpmul_poly(&[f(0, 1, 0)], &[f(0, 0, 1)]), vec![f(P - 1, 1, 0)]);
}

#[test]
fn fpoly_eval_horner() {
    assert_eq!(fpeval_poly(&lifted(&[1, 2, 3]), &f(2, 0, 0)), f(17, 0, 0));
    assert_eq!(fpeval_poly(&lifted(&[]), &f(2, 0, 0)), f(0, 0, 0));
    assert_eq!(fpeval_poly(&[f(0, 1, 0)], &f(9, 9, 9)), f(0, 1, 0));
}

#[test]
fn interpolate_through_line() {
    let domain = lifted(&[1, 2, 3]);
    let values = lifted(&[4, 5, 6]);
    assert_eq!(interpolate_poly(&domain, &values), Ok(lifted(&[3, 1, 0])));
}

#[test]
fn interpolate_hits_every_point() {
    let domain = vec![f(1, 0, 0), f(2, 3, 0), f(7, 0, 1), f(P - 1, 5, 5)];
    let values = vec![f(9, 8, 7), f(0, 0, 0), f(1, 2, 3), f(P - 2, 0, 4)];
    let poly = interpolate_poly(&domain, &values).unwrap();
    assert_eq!(poly.len(), 4);
    for i in 0..domain.len() {
        assert_eq!(fpeval_poly(&poly, &domain[i]), values[i]);
    }
}

#[test]
fn interpolate_rejects_mismatched_lengths() {
    assert_eq!(
        interpolate_poly(&lifted(&[1, 2]), &lifted(&[1])),
        Err(KernelError::Precondition)
    );
}

#[test]
fn compose_with_linear() {
    assert_eq!(fpcompose_poly(&lifted(&[1, 2]), &lifted(&[3, 4]), 2), lifted(&[7, 8]));
    // (1 + x^2) o (1 + x) = 2 + 2x + x^2
    assert_eq!(fpcompose_poly(&lifted(&[1, 0, 1]), &lifted(&[1, 1]), 3), lifted(&[2, 2, 1]));
}

#[test]
fn compose_with_identity_is_noop() {
    let p = vec![f(5, 1, 0), f(6, 0, 2), f(7, 3, 3)];
    let id = lifted(&[0, 1]);
    assert_eq!(fpcompose_poly(&p, &id, p.len()), p);
}

#[test]
fn compose_truncates_and_handles_empty() {
    assert_eq!(fpcompose_poly(&lifted(&[1, 0, 1]), &lifted(&[1, 1]), 2), lifted(&[2, 2]));
    assert_eq!(fpcompose_poly(&lifted(&[]), &lifted(&[1, 1]), 2), lifted(&[0, 0]));
    assert_eq!(fpcompose_poly(&lifted(&[3]), &lifted(&[]), 0), lifted(&[]));
}

#[test]
fn root_of_unity_table() {
    assert_eq!(get_root_of_unity(0), f(1, 0, 0));
    assert_eq!(get_root_of_unity(1), f(0xffffffff00000000, 0, 0));
    assert_eq!(get_root_of_unity(2), f(0x0001000000000000, 0, 0));
    assert_eq!(get_root_of_unity(8), f(0xbf79143ce60ca966, 0, 0));
    assert_eq!(get_root_of_unity(32), f(0x185629dcda58878c, 0, 0));
}

#[test]
fn felt_fft_works_per_component() {
    let p = vec![f(1, 5, 0), f(2, 0, 0), f(3, 0, 0), f(4, 0, 0)];
    let r = fp_fft_poly(&p).unwrap();
    assert_eq!(
        r,
        vec![
            f(10, 5, 0),
            f(18446181119461163007, 5, 0),
            f(18446744069414584319, 5, 0),
            f(562949953421310, 5, 0)
        ]
    );
    assert_eq!(fp_fft_recursive(&p, &get_root_of_unity(2)), r);
}

#[test]
fn felt_fft_round_trip() {
    let p = vec![f(1, 2, 3), f(4, 5, 6), f(P - 1, 0, 7), f(8, 8, 8)];
    let back = fp_ifft_poly(&fp_fft_poly(&p).unwrap()).unwrap();
    assert_eq!(back, p);
    assert_eq!(fp_fft_poly(&p[..3]), Err(KernelError::Precondition));
    assert_eq!(fp_ifft_poly(&p[..3]), Err(KernelError::Precondition));
}
