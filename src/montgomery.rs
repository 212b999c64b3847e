//! Montgomery arithmetic with radix R = 2^64 over the base field.
use crate::belt::{lemma_modp_wf, modp, Belt, P};
use bitvec::prelude::Lsb0;
use bitvec::view::BitView;
use vstd::arithmetic::div_mod::*;
use vstd::arithmetic::mul::*;
use vstd::prelude::*;

verus! {

/// R mod P, where R = 2^64.
pub const R_MOD_P: u64 = 0xffff_ffff;

/// R^2 mod P; it is also R^-1 mod P, since R^3 = 1 mod P.
pub const R2: u64 = 0xffff_fffe_0000_0001;

/// R * P: inputs of `mont_reduction` lie below it.
pub const RP: u128 = 0xffff_ffff_0000_0001_0000_0000_0000_0000;

/// x * R^-1 mod P.
pub open spec fn mont_reduction_s(x: int) -> Belt {
    modp(x * (R2 as int))
}

/// The Montgomery product a * b * R^-1 mod P.
pub open spec fn montiply_s(a: Belt, b: Belt) -> Belt {
    mont_reduction_s(a.val() * b.val())
}

/// x * R mod P: `x` carried into the Montgomery domain.
pub open spec fn montify_s(x: Belt) -> Belt {
    montiply_s(x, Belt(R2))
}

/// Bit `i` of the little-endian two-word number `parts`.
pub open spec fn word_bit(parts: [u64; 2], i: int) -> bool {
    if i < 64 {
        (parts@[0] >> (i as u64)) & 1 == 1
    } else {
        (parts@[1] >> ((i - 64) as u64)) & 1 == 1
    }
}

/// Relies on bitvec's `BitView::view_bits` with `Lsb0` order on a `[u64; 2]`:
/// bit `i` of the view is bit `i % 64` of word `i / 64`.
#[verifier::external_body]
fn lsb0_bit(parts: &[u64; 2], i: usize) -> (r: bool)
    requires
        i < 128,
    ensures
        r == word_bit(*parts, i as int),
{
    parts.view_bits::<Lsb0>()[i]
}

/// Reads the 128 bits of `parts`, least significant first, into one integer.
fn words_to_u128(parts: &[u64; 2], x: Ghost<u128>) -> (r: u128)
    requires
        parts@[0] == x@ as u64,
        parts@[1] == (x@ >> 64u128) as u64,
    ensures
        r == x@,
{
    let ghost xv = x@;
    let mut acc: u128 = 0;
    let mut i: usize = 0;
    assert(xv & (((1u128 << 0u128) - 1) as u128) == 0) by (bit_vector);
    while i < 128
        invariant
            i <= 128,
            parts@[0] == xv as u64,
            parts@[1] == (xv >> 64u128) as u64,
            i < 128 ==> acc == xv & (((1u128 << (i as u128)) - 1) as u128),
            i == 128 ==> acc == xv,
        decreases 128 - i,
    {
        let bit = lsb0_bit(parts, i);
        let ghost iu = i as u128;
        proof {
            let lo = parts@[0];
            let hi = parts@[1];
            if i < 64 {
                let iw = i as u64;
                assert(lo == xv as u64 && iw < 64 ==> (((lo >> iw) & 1 == 1) == ((xv >> (iw
                    as u128)) & 1 == 1))) by (bit_vector);
            } else {
                let iw = (i - 64) as u64;
                assert(hi == (xv >> 64u128) as u64 && iw < 64 ==> (((hi >> iw) & 1 == 1) == ((xv
                    >> ((iw as u128 + 64) as u128)) & 1 == 1))) by (bit_vector);
            }
            assert(bit == ((xv >> iu) & 1 == 1));
            assert(iu < 127 ==> (((xv >> iu) & 1 == 1) ==> ((xv & (((1u128 << iu) - 1) as u128)) | (1u128
                << iu)) == xv & (((1u128 << ((iu + 1) as u128)) - 1) as u128))) by (bit_vector);
            assert(iu < 127 ==> (((xv >> iu) & 1 != 1) ==> (xv & (((1u128 << iu) - 1) as u128)) == xv & (((1u128 << ((iu + 1) as u128)) - 1) as u128))) by (bit_vector);
            assert(iu == 127 ==> (((xv >> iu) & 1 == 1) ==> ((xv & (((1u128 << iu) - 1) as u128)) | (1u128
                << iu)) == xv)) by (bit_vector);
            assert(iu == 127 ==> (((xv >> iu) & 1 != 1) ==> (xv & (((1u128 << iu) - 1) as u128)) == xv))
                by (bit_vector);
        }
        if bit {
            acc = acc | (1u128 << (i as u128));
        }
        i = i + 1;
    }
    acc
}

proof fn lemma_mont_bounds(x: int, x0: int, x1: int, x2: int, c: int, f: int)
    requires
        0 <= x < RP,
        x0 == x % 0x1_0000_0000,
        x1 == (x / 0x1_0000_0000) % 0x1_0000_0000,
        x2 == x / 0x1_0000_0000_0000_0000,
        c == (x0 + x1) * 0x1_0000_0000,
        f == c / 0x1_0000_0000_0000_0000,
    ensures
        x == x0 + x1 * 0x1_0000_0000 + x2 * 0x1_0000_0000_0000_0000,
        0 <= x0 < 0x1_0000_0000,
        0 <= x1 < 0x1_0000_0000,
        0 <= x2 < P,
        f == if x0 + x1 < 0x1_0000_0000 { 0int } else { 1int },
        x1 + f * P <= c,
        c - (x1 + f * P) < P,
{
    let w: int = 0x1_0000_0000;
    let r: int = 0x1_0000_0000_0000_0000;
    let y = x / w;
    lemma_fundamental_div_mod(x, w);
    lemma_fundamental_div_mod(y, w);
    lemma_mod_bound(x, w);
    lemma_mod_bound(y, w);
    lemma_div_denominator(x, w, w);
    lemma_div_pos_is_pos(x, w);
    lemma_div_pos_is_pos(y, w);
    lemma_multiply_divide_lt(x, r, P as int);
    if x0 + x1 < w {
        lemma_fundamental_div_mod_converse(c, r, 0, c);
    } else {
        lemma_fundamental_div_mod_converse(c, r, 1, c - r);
    }
}

proof fn lemma_mont_result(x: int, x0: int, x1: int, x2: int, f: int, res: int)
    requires
        x == x0 + x1 * 0x1_0000_0000 + x2 * 0x1_0000_0000_0000_0000,
        0 <= res < P,
        res == x2 - ((x0 + x1) * 0x1_0000_0000 - (x1 + f * P)) || res == x2 + P - ((x0 + x1)
            * 0x1_0000_0000 - (x1 + f * P)),
    ensures
        Belt(res as u64) == mont_reduction_s(x),
{
    let p = P as int;
    let k: int = if res == x2 - ((x0 + x1) * 0x1_0000_0000 - (x1 + f * P)) { 0 } else { 1 };
    let m = -(x0 + x1) * 0x1_0000_0001 + x1 + (f + k) * 0x1_0000_0000_0000_0000;
    assert(res * 0x1_0000_0000_0000_0000 == x + p * m);
    let n = res * (p - 2) - m * (R2 as int);
    assert(x * (R2 as int) == res + p * n);
    lemma_mod_multiples_vanish(n, res, p);
    lemma_small_mod(res as nat, P as nat);
}

/// Montgomery reduction: x * R^-1 mod P, for x below R * P.
pub fn mont_reduction(x: u128) -> (r: Belt)
    requires
        x < RP,
    ensures
        r == mont_reduction_s(x as int),
        r.wf(),
{
    let parts: [u64; 2] = [(x & 0xFFFF_FFFF_FFFF_FFFF) as u64, (x >> 64u128) as u64];
    assert((x & 0xFFFF_FFFF_FFFF_FFFFu128) as u64 == x as u64) by (bit_vector);
    let x_u128 = words_to_u128(&parts, Ghost(x));
    let r_mod_p1: u128 = R_MOD_P as u128 + 1;
    let rx: u128 = 0x1_0000_0000_0000_0000;
    let px: u128 = P as u128;
    let x1_u128_div = x_u128 / r_mod_p1;
    let x1_u128 = x1_u128_div % r_mod_p1;
    let x2_u128 = x_u128 / rx;
    let x0_u128 = x_u128 % r_mod_p1;
    let c_u128 = (x0_u128 + x1_u128) * r_mod_p1;
    let f_u128 = c_u128 / rx;
    proof {
        lemma_mont_bounds(x as int, x0_u128 as int, x1_u128 as int, x2_u128 as int,
            c_u128 as int, f_u128 as int);
    }
    let d_u128 = c_u128 - (x1_u128 + (f_u128 * px));
    let res = if x2_u128 >= d_u128 {
        x2_u128 - d_u128
    } else {
        (x2_u128 + px) - d_u128
    };
    proof {
        lemma_mont_result(x as int, x0_u128 as int, x1_u128 as int, x2_u128 as int,
            f_u128 as int, res as int);
    }
    Belt(res as u64)
}

/// The Montgomery product a * b * R^-1 mod P.
pub fn montiply(a: Belt, b: Belt) -> (r: Belt)
    requires
        a.wf(),
        b.wf(),
    ensures
        r == montiply_s(a, b),
        r.wf(),
{
    assert(a.val() * b.val() < RP) by (nonlinear_arith)
        requires
            0 <= a.val() < P,
            0 <= b.val() < P,
    ;
    let m: u128 = a.0 as u128 * b.0 as u128;
    mont_reduction(m)
}

/// Carries `x` into the Montgomery domain: x * R mod P.
pub fn montify(x: Belt) -> (r: Belt)
    requires
        x.wf(),
    ensures
        r == montify_s(x),
        r.val() == (x.val() * 0x1_0000_0000_0000_0000) % (P as int),
        r.wf(),
{
    proof {
        lemma_montify_value(x);
    }
    montiply(x, Belt(R2))
}

/// Regrouping a product of three factors under the modulus.
proof fn lemma_mul_mod_regroup(x: int, a: int, b: int)
    ensures
        ((x * a) * b) % (P as int) == (x * ((a * b) % (P as int))) % (P as int),
{
    lemma_mul_is_associative(x, a, b);
    lemma_mul_mod_noop_right(x, a * b, P as int);
}

proof fn lemma_montify_value(x: Belt)
    requires
        x.wf(),
    ensures
        montify_s(x).val() == (x.val() * 0x1_0000_0000_0000_0000) % (P as int),
{
    let p = P as int;
    let c = R2 as int;
    lemma_modp_wf(x.val() * c * c);
    lemma_mul_mod_regroup(x.val(), c, c);
    assert((c * c) % p == R_MOD_P as int);
    lemma_mul_mod_noop_right(x.val(), 0x1_0000_0000_0000_0000, p);
    assert(0x1_0000_0000_0000_0000int % p == R_MOD_P as int);
}

/// Lifting into the Montgomery domain, multiplying by R mod P (the
/// Montgomery form of one) and reducing gives back the canonical input.
pub proof fn lemma_montgomery_round_trip(x: Belt)
    requires
        x.wf(),
    ensures
        mont_reduction_s(montiply_s(montify_s(x), Belt(R_MOD_P)).val()) == x,
{
    let p = P as int;
    let c = R2 as int;
    let rm = R_MOD_P as int;
    let xv = x.val();
    // montify: x * c * c = x * rm
    lemma_modp_wf(xv * c * c);
    lemma_mul_mod_regroup(xv, c, c);
    assert((c * c) % p == rm);
    let v1 = (xv * rm) % p;
    assert(montify_s(x).val() == v1);
    // multiplying by R mod P and reducing: v1 * rm * c = v1
    lemma_modp_wf(v1 * rm * c);
    lemma_mul_mod_regroup(v1, rm, c);
    assert((rm * c) % p == 1);
    lemma_mod_bound(xv * rm, p);
    lemma_small_mod(v1 as nat, P as nat);
    assert(montiply_s(montify_s(x), Belt(R_MOD_P)).val() == v1);
    // reducing: v1 * c = x * rm * c = x
    lemma_modp_wf(v1 * c);
    lemma_mul_mod_noop_left(xv * rm, c, p);
    lemma_mul_mod_regroup(xv, rm, c);
    lemma_small_mod(x.0 as nat, P as nat);
}

} // verus!
