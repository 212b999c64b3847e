use zkvm_jetpack::belt::{badd, binv, bmul, bneg, bpow, bsub, Belt, P};
use zkvm_jetpack::felt::{fadd, fdiv, finv, fmul, fneg, fpow, fsub, Felt};
use zkvm_jetpack::montgomery::{mont_reduction, montify, montiply, R2, R_MOD_P};

fn felt(a: u64, b: u64, c: u64) -> Felt {
    Felt::new(Belt(a), Belt(b), Belt(c))
}

#[test]
fn belt_add_wraps_at_modulus() {
    assert_eq!(badd(Belt(P - 1), Belt(2)), Belt(1));
    assert_eq!(badd(Belt(3), Belt(4)), Belt(7));
}

#[test]
fn belt_sub_and_neg() {
    assert_eq!(bsub(Belt(3), Belt(5)), Belt(P - 2));
    assert_eq!(bneg(Belt(0)), Belt(0));
    assert_eq!(bneg(Belt(1)), Belt(P - 1));
}

#[test]
fn belt_mul_reduces() {
    assert_eq!(bmul(Belt(P - 1), Belt(P - 1)), Belt(1));
    assert_eq!(bmul(Belt(1 << 32), Belt(1 << 32)), Belt(0xffff_ffff));
}

#[test]
fn belt_pow_values() {
    assert_eq!(bpow(Belt(2), 10), Belt(1024));
    assert_eq!(bpow(Belt(7), 0), Belt(1));
    assert_eq!(bpow(Belt(1 << 48), 4), Belt(1));
}

#[test]
fn belt_additive_inverse_is_zero() {
    for a in [0u64, 1, 2, 12345, P - 1, 1 << 63] {
        assert_eq!(badd(Belt(a), bneg(Belt(a))), Belt(0));
        assert_eq!(badd(Belt(a), bsub(Belt(0), Belt(a))), Belt(0));
    }
}

#[test]
fn belt_multiplicative_inverse() {
    assert_eq!(binv(Belt(2)), Belt(9223372034707292161));
    assert_eq!(binv(Belt(3)), Belt(12297829379609722881));
    for a in [1u64, 2, 3, 12345, P - 1, 1 << 63] {
        assert_eq!(bmul(Belt(a), binv(Belt(a))), Belt(1));
    }
}

#[test]
fn felt_mul_uses_cubic_reduction() {
    assert_eq!(fmul(&felt(1, 2, 3), &felt(4, 5, 6)), felt(P - 23, 22, 46));
    // x * x^2 = x^3 = x - 1
    assert_eq!(fmul(&felt(0, 1, 0), &felt(0, 0, 1)), felt(P - 1, 1, 0));
}

#[test]
fn felt_add_sub_neg() {
    let a = felt(1, 2, P - 1);
    let b = felt(5, P - 2, 3);
    assert_eq!(fadd(&a, &b), felt(6, 0, 2));
    assert_eq!(fsub(&a, &b), felt(P - 4, 4, P - 4));
    assert_eq!(fadd(&a, &fneg(&a)), felt(0, 0, 0));
}

#[test]
fn felt_inverse_and_division() {
    let a = felt(5, 7, 11);
    assert_eq!(
        finv(&a),
        felt(6627078738974779858, 17924277280864705411, 284148604299056951)
    );
    assert_eq!(fmul(&a, &finv(&a)), Felt::one());
    let b = felt(3, 0, 9);
    assert_eq!(fmul(&fdiv(&b, &a), &a), b);
}

#[test]
fn felt_pow_values() {
    assert_eq!(fpow(&felt(2, 0, 0), 5), felt(32, 0, 0));
    assert_eq!(fpow(&felt(0, 1, 0), 3), felt(P - 1, 1, 0));
    assert_eq!(fpow(&felt(9, 8, 7), 0), Felt::one());
}

#[test]
fn montify_multiplies_by_radix() {
    assert_eq!(montify(Belt(1)), Belt(R_MOD_P));
    assert_eq!(montify(Belt(5)), Belt(21474836475));
    assert_eq!(montify(Belt(0)), Belt(0));
}

#[test]
fn mont_reduction_divides_by_radix() {
    assert_eq!(mont_reduction(5), Belt(18446744047939747841));
    assert_eq!(mont_reduction(R_MOD_P as u128), Belt(1));
    assert_eq!(mont_reduction(0), Belt(0));
    let big: u128 = (P as u128 - 1) * (P as u128 - 1);
    assert_eq!(mont_reduction(big), montiply(Belt(P - 1), Belt(P - 1)));
}

#[test]
fn montgomery_round_trip() {
    for x in [0u64, 1, 2, 3, 1 << 40, P - 1, 0x1234_5678_9abc_def0] {
        let m = montify(Belt(x));
        assert_eq!(mont_reduction(montiply(m, Belt(R_MOD_P)).0 as u128), Belt(x));
    }
}

#[test]
fn montiply_of_r2_is_montify() {
    assert_eq!(montiply(Belt(77), Belt(R2)), montify(Belt(77)));
}
