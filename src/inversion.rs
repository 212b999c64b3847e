//! The inverse transform undoes the forward one: a proof that the
//! transform at the canonical root of the transform at its inverse, scaled
//! by 1/n, gives the input back.
use crate::belt::{binv_s, bmul_s, lemma_modp_canonical, lemma_modp_wf, modp, Belt, P};
use crate::bpoly::{bpoly_wf, coef, poly_scal};
use crate::ntt::{
    canonical_root, dft, dft_sum, dft_term, lemma_canonical_root_order, lemma_pow_square_chain,
    lemma_square_chain_add, lemma_square_chain_wf, lemma_sum_congruent, lemma_sum_ext,
    lemma_sum_scale, square_chain, sum_of, MAX_LOG_ORDER, TOP_ROOT,
};
use vstd::arithmetic::div_mod::*;
use vstd::arithmetic::mul::*;
use vstd::arithmetic::power::*;
use vstd::arithmetic::power2::*;
use vstd::prelude::*;

verus! {

proof fn lemma_sum_zero(f: spec_fn(int) -> int, m: nat)
    requires
        forall|j: int| 0 <= j < m ==> #[trigger] f(j) == 0,
    ensures
        sum_of(f, m) == 0,
    decreases m,
{
    if m > 0 {
        lemma_sum_zero(f, (m - 1) as nat);
    }
}

proof fn lemma_sum_add(f: spec_fn(int) -> int, g: spec_fn(int) -> int, m: nat)
    ensures
        sum_of(|j: int| f(j) + g(j), m) == sum_of(f, m) + sum_of(g, m),
    decreases m,
{
    if m > 0 {
        lemma_sum_add(f, g, (m - 1) as nat);
    }
}

/// A sum over 2h terms is the sum of its two halves.
proof fn lemma_sum_halves(f: spec_fn(int) -> int, h: nat)
    ensures
        sum_of(f, 2 * h) == sum_of(f, h) + sum_of(|j: int| f(j + h), h),
    decreases h,
{
    if h > 0 {
        let g = |j: int| f(j + h);
        let g1 = |j: int| f(j + (h - 1));
        lemma_sum_halves(f, (h - 1) as nat);
        // shift the second half by one: sum of f(j + h) over j < h
        lemma_sum_shift(f, (h - 1) as nat, h);
        lemma_sum_shift(f, h, h);
        assert(sum_of(f, 2 * h) == sum_of(f, (2 * h - 1) as nat) + f(2 * h - 1));
        assert(sum_of(f, (2 * h - 1) as nat) == sum_of(f, (2 * h - 2) as nat) + f(2 * h - 2));
    }
}

/// The sum of f(j + s) over j < m is the sum of f over [s, s + m).
proof fn lemma_sum_shift(f: spec_fn(int) -> int, s: nat, m: nat)
    ensures
        sum_of(|j: int| f(j + s), m) == sum_of(f, s + m) - sum_of(f, s),
    decreases m,
{
    if m > 0 {
        lemma_sum_shift(f, s, (m - 1) as nat);
    }
}

/// Exchanging the order of a double sum.
proof fn lemma_sum_swap(f: spec_fn(int, int) -> int, a: nat, b: nat)
    ensures
        sum_of(|j: int| sum_of(|i: int| f(i, j), a), b) == sum_of(
            |i: int| sum_of(|j: int| f(i, j), b),
            a,
        ),
    decreases b,
{
    if b == 0 {
        lemma_sum_zero(|i: int| sum_of(|j: int| f(i, j), 0), a);
    } else {
        lemma_sum_swap(f, a, (b - 1) as nat);
        let inner_prev = |i: int| sum_of(|j: int| f(i, j), (b - 1) as nat);
        let last = |i: int| f(i, b - 1);
        lemma_sum_add(inner_prev, last, a);
        lemma_sum_ext(
            |i: int| sum_of(|j: int| f(i, j), b),
            |i: int| inner_prev(i) + last(i),
            a,
        );
    }
}

/// Only the term at `t` is nonzero.
proof fn lemma_sum_single(f: spec_fn(int) -> int, m: nat, t: int)
    requires
        0 <= t < m,
        forall|j: int| 0 <= j < m && j != t ==> #[trigger] f(j) == 0,
    ensures
        sum_of(f, m) == f(t),
    decreases m,
{
    if m - 1 == t {
        lemma_sum_zero(f, (m - 1) as nat);
    } else {
        lemma_sum_single(f, (m - 1) as nat, t);
    }
}

proof fn lemma_top_root_half()
    ensures
        square_chain(TOP_ROOT as int, 31) == P - 1,
{
    let pp = P as int;
    assert((0x185629dcda58878cint * 0x185629dcda58878cint) % pp == 0x400a7f755588e659int);
    assert(square_chain(0x185629dcda58878cint, 31) == square_chain(0x400a7f755588e659int, 30));
    assert((0x400a7f755588e659int * 0x400a7f755588e659int) % pp == 0x7e9bd009b86a0845int);
    assert(square_chain(0x400a7f755588e659int, 30) == square_chain(0x7e9bd009b86a0845int, 29));
    assert((0x7e9bd009b86a0845int * 0x7e9bd009b86a0845int) % pp == 0xdfa8c93ba46d2666int);
    assert(square_chain(0x7e9bd009b86a0845int, 29) == square_chain(0xdfa8c93ba46d2666int, 28));
    assert((0xdfa8c93ba46d2666int * 0xdfa8c93ba46d2666int) % pp == 0x59049500004a4485int);
    assert(square_chain(0xdfa8c93ba46d2666int, 28) == square_chain(0x59049500004a4485int, 27));
    assert((0x59049500004a4485int * 0x59049500004a4485int) % pp == 0x10d78dd8915a171dint);
    assert(square_chain(0x59049500004a4485int, 27) == square_chain(0x10d78dd8915a171dint, 26));
    assert((0x10d78dd8915a171dint * 0x10d78dd8915a171dint) % pp == 0xed41d05b78d6e286int);
    assert(square_chain(0x10d78dd8915a171dint, 26) == square_chain(0xed41d05b78d6e286int, 25));
    assert((0xed41d05b78d6e286int * 0xed41d05b78d6e286int) % pp == 0x4bbaf5976ecfefd8int);
    assert(square_chain(0xed41d05b78d6e286int, 25) == square_chain(0x4bbaf5976ecfefd8int, 24));
    assert((0x4bbaf5976ecfefd8int * 0x4bbaf5976ecfefd8int) % pp == 0x86cdcc31c307e171int);
    assert(square_chain(0x4bbaf5976ecfefd8int, 24) == square_chain(0x86cdcc31c307e171int, 23));
    assert((0x86cdcc31c307e171int * 0x86cdcc31c307e171int) % pp == 0xea9d5a1336fbc98bint);
    assert(square_chain(0x86cdcc31c307e171int, 23) == square_chain(0xea9d5a1336fbc98bint, 22));
    assert((0xea9d5a1336fbc98bint * 0xea9d5a1336fbc98bint) % pp == 0x4b2a18ade67246b5int);
    assert(square_chain(0xea9d5a1336fbc98bint, 22) == square_chain(0x4b2a18ade67246b5int, 21));
    assert((0x4b2a18ade67246b5int * 0x4b2a18ade67246b5int) % pp == 0xf502aef532322654int);
    assert(square_chain(0x4b2a18ade67246b5int, 21) == square_chain(0xf502aef532322654int, 20));
    assert((0xf502aef532322654int * 0xf502aef532322654int) % pp == 0x30ba2ecd5e93e76dint);
    assert(square_chain(0xf502aef532322654int, 20) == square_chain(0x30ba2ecd5e93e76dint, 19));
    assert((0x30ba2ecd5e93e76dint * 0x30ba2ecd5e93e76dint) % pp == 0xfbd41c6b8caa3302int);
    assert(square_chain(0x30ba2ecd5e93e76dint, 19) == square_chain(0xfbd41c6b8caa3302int, 18));
    assert((0xfbd41c6b8caa3302int * 0xfbd41c6b8caa3302int) % pp == 0x81281a7b05f9beacint);
    assert(square_chain(0xfbd41c6b8caa3302int, 18) == square_chain(0x81281a7b05f9beacint, 17));
    assert((0x81281a7b05f9beacint * 0x81281a7b05f9beacint) % pp == 0xabd0a6e8aa3d8a0eint);
    assert(square_chain(0x81281a7b05f9beacint, 17) == square_chain(0xabd0a6e8aa3d8a0eint, 16));
    assert((0xabd0a6e8aa3d8a0eint * 0xabd0a6e8aa3d8a0eint) % pp == 0x54df9630bf79450eint);
    assert(square_chain(0xabd0a6e8aa3d8a0eint, 16) == square_chain(0x54df9630bf79450eint, 15));
    assert((0x54df9630bf79450eint * 0x54df9630bf79450eint) % pp == 0xf6b2cffe2306baacint);
    assert(square_chain(0x54df9630bf79450eint, 15) == square_chain(0xf6b2cffe2306baacint, 14));
    assert((0xf6b2cffe2306baacint * 0xf6b2cffe2306baacint) % pp == 0xe0ee099310bba1e2int);
    assert(square_chain(0xf6b2cffe2306baacint, 14) == square_chain(0xe0ee099310bba1e2int, 13));
    assert((0xe0ee099310bba1e2int * 0xe0ee099310bba1e2int) % pp == 0x1544ef2335d17997int);
    assert(square_chain(0xe0ee099310bba1e2int, 13) == square_chain(0x1544ef2335d17997int, 12));
    assert((0x1544ef2335d17997int * 0x1544ef2335d17997int) % pp == 0xf2c35199959dfcb6int);
    assert(square_chain(0x1544ef2335d17997int, 12) == square_chain(0xf2c35199959dfcb6int, 11));
    assert((0xf2c35199959dfcb6int * 0xf2c35199959dfcb6int) % pp == 0x653b4801da1c8cfint);
    assert(square_chain(0xf2c35199959dfcb6int, 11) == square_chain(0x653b4801da1c8cfint, 10));
    assert((0x653b4801da1c8cfint * 0x653b4801da1c8cfint) % pp == 0x9d8f2ad78bfed972int);
    assert(square_chain(0x653b4801da1c8cfint, 10) == square_chain(0x9d8f2ad78bfed972int, 9));
    assert((0x9d8f2ad78bfed972int * 0x9d8f2ad78bfed972int) % pp == 0x1905d02a5c411f4eint);
    assert(square_chain(0x9d8f2ad78bfed972int, 9) == square_chain(0x1905d02a5c411f4eint, 8));
    assert((0x1905d02a5c411f4eint * 0x1905d02a5c411f4eint) % pp == 0xbf79143ce60ca966int);
    assert(square_chain(0x1905d02a5c411f4eint, 8) == square_chain(0xbf79143ce60ca966int, 7));
    assert((0xbf79143ce60ca966int * 0xbf79143ce60ca966int) % pp == 0xf80007ff08000001int);
    assert(square_chain(0xbf79143ce60ca966int, 7) == square_chain(0xf80007ff08000001int, 6));
    assert((0xf80007ff08000001int * 0xf80007ff08000001int) % pp == 0x8000000000int);
    assert(square_chain(0xf80007ff08000001int, 6) == square_chain(0x8000000000int, 5));
    assert((0x8000000000int * 0x8000000000int) % pp == 0x3fffffffc000int);
    assert(square_chain(0x8000000000int, 5) == square_chain(0x3fffffffc000int, 4));
    assert((0x3fffffffc000int * 0x3fffffffc000int) % pp == 0xefffffff00000001int);
    assert(square_chain(0x3fffffffc000int, 4) == square_chain(0xefffffff00000001int, 3));
    assert((0xefffffff00000001int * 0xefffffff00000001int) % pp == 0xfffffffeff000001int);
    assert(square_chain(0xefffffff00000001int, 3) == square_chain(0xfffffffeff000001int, 2));
    assert((0xfffffffeff000001int * 0xfffffffeff000001int) % pp == 0x1000000000000int);
    assert(square_chain(0xfffffffeff000001int, 2) == square_chain(0x1000000000000int, 1));
    assert((0x1000000000000int * 0x1000000000000int) % pp == 0xffffffff00000000int);
    assert(square_chain(0x1000000000000int, 1) == square_chain(0xffffffff00000000int, 0));
}

/// The canonical root of order 2^k raised to 2^(k-1) is -1.
proof fn lemma_root_half_order(k: nat)
    requires
        1 <= k <= MAX_LOG_ORDER,
    ensures
        pow(canonical_root(k).val(), pow2((k - 1) as nat)) % (P as int) == P - 1,
{
    let a = (MAX_LOG_ORDER - k) as nat;
    lemma_square_chain_wf(TOP_ROOT as int, a);
    let r = square_chain(TOP_ROOT as int, a);
    lemma_pow_square_chain(r, (k - 1) as nat);
    lemma_square_chain_add(TOP_ROOT as int, a, (k - 1) as nat);
    lemma_top_root_half();
    assert(a + (k - 1) == 31);
    lemma_small_mod((P - 1) as nat, P as nat);
}

/// The square of the canonical root of order 2^k is the one of order 2^(k-1).
proof fn lemma_root_square(k: nat)
    requires
        1 <= k <= MAX_LOG_ORDER,
    ensures
        (canonical_root(k).val() * canonical_root(k).val()) % (P as int) == canonical_root(
            (k - 1) as nat,
        ).val(),
{
    let a = (MAX_LOG_ORDER - k) as nat;
    lemma_square_chain_wf(TOP_ROOT as int, a);
    lemma_square_chain_add(TOP_ROOT as int, a, 1);
    lemma_square_chain_wf(TOP_ROOT as int, a + 1);
    let r = square_chain(TOP_ROOT as int, a);
    assert(square_chain(r, 1) == square_chain((r * r) % (P as int), 0));
}

/// (-1)^d.
proof fn lemma_pow_minus_one(d: nat)
    ensures
        pow((P - 1) as int, d) % (P as int) == if d % 2 == 0 {
            1
        } else {
            P - 1
        },
    decreases d,
{
    let pp = P as int;
    if d == 0 {
        lemma_pow0((P - 1) as int);
    } else {
        lemma_pow_minus_one((d - 1) as nat);
        lemma_pow_adds((P - 1) as int, 1, (d - 1) as nat);
        lemma_pow1((P - 1) as int);
        lemma_mul_mod_noop_right((P - 1) as int, pow((P - 1) as int, (d - 1) as nat), pp);
        assert(((P - 1) as int * (P - 1) as int) % pp == 1);
        assert(((P - 1) as int * 1) % pp == P - 1);
    }
}

/// The powers w^(j d), j < n, of the canonical root w of order n = 2^k sum
/// to zero for 0 < d < n.
proof fn lemma_root_sum(k: nat, d: int)
    requires
        1 <= k <= MAX_LOG_ORDER,
        0 < d < pow2(k),
    ensures
        sum_of(|j: int| pow(canonical_root(k).val(), (j * d) as nat), pow2(k)) % (P as int) == 0,
    decreases k,
{
    let pp = P as int;
    let w = canonical_root(k).val();
    let h = pow2((k - 1) as nat);
    lemma_pow2_unfold(k);
    lemma_pow2_pos((k - 1) as nat);
    let f = |j: int| pow(w, (j * d) as nat);
    let g = |j: int| f(j + h);
    lemma_sum_halves(f, h);
    lemma_sum_add(f, g, h);
    let fg = |j: int| f(j) + g(j);
    // w^(h d) = (-1)^d
    lemma_root_half_order(k);
    lemma_pow_multiplies(w, h, d as nat);
    lemma_pow_mod_noop(pow(w, h), d as nat, pp);
    lemma_pow_minus_one(d as nat);
    let whd = pow(w, (h * d) as nat);
    assert(h * d >= 0) by (nonlinear_arith)
        requires h > 0, d > 0;
    assert(whd % pp == if d % 2 == 0 { 1 } else { P - 1 });
    assert forall|j: int| 0 <= j < h implies #[trigger] g(j) % pp == (f(j) * whd) % pp by {
        assert((j + h) * d == j * d + h * d) by (nonlinear_arith);
        assert(j * d >= 0) by (nonlinear_arith)
            requires j >= 0, d > 0;
        lemma_pow_adds(w, (j * d) as nat, (h * d) as nat);
    }
    if d % 2 == 1 {
        assert forall|j: int| 0 <= j < h implies #[trigger] fg(j) % pp == (|j: int| 0int)(j) % pp by {
            lemma_add_mod_noop(f(j), g(j), pp);
            lemma_mul_mod_noop_right(f(j), whd, pp);
            lemma_add_mod_noop(f(j), f(j) * (P - 1) as int, pp);
            let x = f(j);
            assert(x + x * (pp - 1) == x * pp) by (nonlinear_arith);
            lemma_mod_multiples_basic(f(j), pp);
            lemma_mul_mod_noop_right(f(j), (P - 1) as int, pp);
        }
        lemma_sum_congruent(fg, |j: int| 0int, h);
        lemma_sum_zero(|j: int| 0int, h);
    } else {
        let e = d / 2;
        assert(d == 2 * e);
        assert(0 < e < h);
        assert(h >= 2);
        if k == 1 {
            lemma2_to64();
            assert(false);
        }
        let w2 = canonical_root((k - 1) as nat).val();
        lemma_root_square(k);
        let f2 = |j: int| pow(w2, (j * e) as nat);
        assert forall|j: int| 0 <= j < h implies #[trigger] fg(j) % pp == (|j: int| 2 * f2(j))(j) % pp by {
            assert(j * d == 2 * (j * e)) by (nonlinear_arith)
                requires d == 2 * e;
            assert(j * e >= 0) by (nonlinear_arith)
                requires j >= 0, e > 0;
            lemma_pow_multiplies(w, 2, (j * e) as nat);
            lemma_square_is_pow2(w);
            lemma_pow_mod_noop(w * w, (j * e) as nat, pp);
            // f(j) = w2^(j e) and g(j) = f(j) mod P
            assert(f(j) % pp == f2(j) % pp);
            lemma_mul_mod_noop_right(f(j), whd, pp);
            assert(f(j) * 1 == f(j));
            lemma_add_mod_noop(f(j), g(j), pp);
            lemma_add_mod_noop(f(j), f(j), pp);
            lemma_mul_mod_noop_right(2, f2(j), pp);
            lemma_mul_mod_noop_right(2, f(j), pp);
            assert(f(j) + f(j) == 2 * f(j));
        }
        lemma_sum_congruent(fg, |j: int| 2 * f2(j), h);
        lemma_sum_scale(f2, 2, h);
        lemma_root_sum((k - 1) as nat, e);
        lemma_mul_mod_noop_right(2, sum_of(f2, h), pp);
    }
}

/// Multiplying by something congruent to one changes nothing modulo P.
proof fn lemma_mul_by_one_mod(x: int, y: int)
    requires
        y % (P as int) == 1,
    ensures
        (x * y) % (P as int) == x % (P as int),
{
    lemma_mul_mod_noop_right(x, y, P as int);
    assert(x * 1 == x);
}

/// (P - 1) is a multiple of 2^k for k <= 32.
proof fn lemma_order_divides(k: nat)
    requires
        k <= MAX_LOG_ORDER,
    ensures
        (P - 1) as int == pow2(k) * (pow2((32 - k) as nat) * 0xffff_ffff),
{
    lemma_pow2_adds(k, (32 - k) as nat);
    lemma2_to64();
    assert((k + (32 - k)) as nat == 32);
    lemma_mul_is_associative(pow2(k) as int, pow2((32 - k) as nat) as int, 0xffff_ffff);
}

/// The inverse of the canonical root is its inverse indeed.
proof fn lemma_root_inverse(k: nat)
    requires
        k <= MAX_LOG_ORDER,
    ensures
        (canonical_root(k).val() * binv_s(canonical_root(k)).val()) % (P as int) == 1,
{
    let pp = P as int;
    let w = canonical_root(k).val();
    lemma_canonical_root_order(k);
    let e = (P - 2) as nat;
    lemma_modp_wf(pow(w, e));
    lemma_mul_mod_noop_right(w, pow(w, e), pp);
    lemma_pow1(w);
    lemma_pow_adds(w, 1, e);
    let t = pow2((32 - k) as nat) * 0xffff_ffff;
    lemma_order_divides(k);
    lemma_pow_multiplies(w, pow2(k), t as nat);
    lemma_pow_mod_noop(pow(w, pow2(k)), t as nat, pp);
    lemma1_pow(t as nat);
    assert((1 + e) as nat == pow2(k) * (t as nat));
}

/// 2^k times its inverse is one.
proof fn lemma_size_inverse(k: nat)
    requires
        k <= MAX_LOG_ORDER,
    ensures
        (pow2(k) as int * binv_s(Belt(pow2(k) as u64)).val()) % (P as int) == 1,
{
    let pp = P as int;
    lemma2_to64();
    if k < 32 {
        lemma_pow2_strictly_increases(k, 32);
    }
    let n = pow2(k) as int;
    lemma_pow_positive(2, k);
    lemma_pow_positive(2, 64);
    assert(n == pow(2, k));
    assert(Belt(pow2(k) as u64).val() == n);
    let e = (P - 2) as nat;
    lemma_modp_wf(pow(n, e));
    lemma_mul_mod_noop_right(n, pow(n, e), pp);
    lemma_pow1(n);
    lemma_pow_adds(n, 1, e);
    // n^(P-1) = 2^(k (P-1)) = (2^192)^(k (P-1) / 192)
    let q: nat = 96076792028200960;
    assert((P - 1) as int == 192 * q);
    lemma_pow_multiplies(2, k, (P - 1) as nat);
    assert(k * ((P - 1) as nat) == 192 * (k * q)) by (nonlinear_arith)
        requires (P - 1) as int == 192 * q;
    lemma_pow_multiplies(2, 192, k * q);
    lemma_pow_multiplies(2, 64, 3);
    let r = pow(2, 64);
    assert(r == 0x1_0000_0000_0000_0000);
    lemma_pow_adds(r, 1, 2);
    lemma_pow1(r);
    lemma_square_is_pow2(r);
    assert((r * (r * r)) % pp == 1);
    lemma_pow_mod_noop(pow(2, 192), k * q, pp);
    lemma1_pow(k * q);
    assert((1 + e) as nat == (P - 1) as nat);
}

/// V^(i j) W^(j m) = W^(j d) modulo P, for V W = 1, W^n = 1 and d the
/// difference m - i taken modulo n.
proof fn lemma_inverse_powers(v: int, w: int, n: nat, i: int, j: int, m: int)
    requires
        (v * w) % (P as int) == 1,
        pow(w, n) % (P as int) == 1,
        0 <= i < n,
        0 <= m < n,
        0 <= j,
    ensures
        (pow(v, (i * j) as nat) * pow(w, (j * m) as nat)) % (P as int) == pow(
            w,
            (j * (if m >= i {
                m - i
            } else {
                m - i + n
            })) as nat,
        ) % (P as int),
{
    let pp = P as int;
    let d = if m >= i { m - i } else { m - i + n };
    assert(i * j >= 0 && j * m >= 0 && j * d >= 0) by (nonlinear_arith)
        requires 0 <= i, 0 <= j, 0 <= m, 0 <= d;
    // v^t w^t = (v w)^t = 1
    assert forall|t: nat| #[trigger] ((pow(v, t) * pow(w, t)) % pp) == 1 by {
        lemma_pow_distributes(v, w, t);
        lemma_pow_mod_noop(v * w, t, pp);
        lemma1_pow(t);
    }
    if m >= i {
        assert(j * m == i * j + j * d) by (nonlinear_arith)
            requires d == m - i;
        lemma_pow_adds(w, (i * j) as nat, (j * d) as nat);
        let a = pow(v, (i * j) as nat);
        let b = pow(w, (i * j) as nat);
        let c = pow(w, (j * d) as nat);
        assert(a * (b * c) == c * (a * b)) by (nonlinear_arith);
        lemma_mul_by_one_mod(c, a * b);
    } else {
        let u = i - m;
        assert(i * j == j * m + j * u && j * d + j * u == j * n && j * u >= 0) by (nonlinear_arith)
            requires u == i - m, d == m - i + n, j >= 0, u > 0;
        lemma_pow_adds(v, (j * m) as nat, (j * u) as nat);
        lemma_pow_adds(w, (j * d) as nat, (j * u) as nat);
        lemma_pow_multiplies(w, n, j as nat);
        assert(n * (j as nat) == j * n) by (nonlinear_arith)
            requires j >= 0;
        lemma_pow_mod_noop(pow(w, n), j as nat, pp);
        lemma1_pow(j as nat);
        let vm = pow(v, (j * m) as nat);
        let wm = pow(w, (j * m) as nat);
        let vu = pow(v, (j * u) as nat);
        let wu = pow(w, (j * u) as nat);
        let wd = pow(w, (j * d) as nat);
        // the left side is vu modulo P
        assert((vm * vu) * wm == vu * (vm * wm)) by (nonlinear_arith);
        lemma_mul_by_one_mod(vu, vm * wm);
        // and so is the right side: wd = wd (wu vu) = (wd wu) vu = vu
        assert(wd * (vu * wu) == (wd * wu) * vu) by (nonlinear_arith);
        lemma_mul_by_one_mod(wd, vu * wu);
        lemma_mul_mod_noop_left(wd * wu, vu, pp);
        assert((wd * wu) % pp == 1);
        assert(1 * vu == vu);
    }
}

proof fn lemma_sum_ones(m: nat)
    ensures
        sum_of(|j: int| 1int, m) == m,
    decreases m,
{
    if m > 0 {
        lemma_sum_ones((m - 1) as nat);
    }
}

/// For a fixed input index i, the sum over j of p[i] V^(i j) W^(j m) is
/// n p[m] when i = m and vanishes otherwise, modulo P.
proof fn lemma_inner_sum(p: Seq<Belt>, k: nat, i: int, m: int)
    requires
        k <= MAX_LOG_ORDER,
        p.len() == pow2(k),
        0 <= i < pow2(k),
        0 <= m < pow2(k),
    ensures
        ({
            let w = canonical_root(k);
            let vv = binv_s(w).val();
            let ww = w.val();
            let n = pow2(k);
            sum_of(
                |j: int| coef(p, i).val() * (pow(vv, (i * j) as nat) * pow(ww, (j * m) as nat)),
                n,
            ) % (P as int) == (if i == m {
                coef(p, i).val() * n
            } else {
                0
            }) % (P as int)
        }),
{
    let pp = P as int;
    let w = canonical_root(k);
    let vv = binv_s(w).val();
    let ww = w.val();
    let n = pow2(k);
    let ci = coef(p, i).val();
    let d = if m >= i { m - i } else { m - i + n };
    lemma_root_inverse(k);
    lemma_canonical_root_order(k);
    assert((vv * ww) % pp == 1) by {
        assert(vv * ww == ww * vv) by (nonlinear_arith);
    }
    let f = |j: int| ci * (pow(vv, (i * j) as nat) * pow(ww, (j * m) as nat));
    let g = |j: int| ci * pow(ww, (j * d) as nat);
    assert forall|j: int| 0 <= j < n implies #[trigger] f(j) % pp == g(j) % pp by {
        lemma_inverse_powers(vv, ww, n, i, j, m);
        lemma_mul_mod_noop_right(ci, pow(vv, (i * j) as nat) * pow(ww, (j * m) as nat), pp);
        lemma_mul_mod_noop_right(ci, pow(ww, (j * d) as nat), pp);
    }
    lemma_sum_congruent(f, g, n);
    let s = |j: int| pow(ww, (j * d) as nat);
    lemma_sum_scale(s, ci, n);
    lemma_sum_ext(g, |j: int| ci * s(j), n);
    if i == m {
        assert forall|j: int| 0 <= j < n implies #[trigger] s(j) == (|j: int| 1int)(j) by {
            assert(j * d == 0);
            lemma_pow0(ww);
        }
        lemma_sum_ext(s, |j: int| 1int, n);
        lemma_sum_ones(n);
    } else {
        assert(0 < d < n);
        if k == 0 {
            lemma2_to64();
            assert(false);
        }
        lemma_root_sum(k, d);
        lemma_mul_mod_noop_right(ci, sum_of(s, n), pp);
        assert(ci * 0 == 0);
    }
}

/// Transforming at the canonical root of order n = 2^k the inverse
/// transform of `p` (the transform at the inverse root, scaled by 1/n) gives
/// `p` back.
pub proof fn lemma_fft_ifft_round_trip(p: Seq<Belt>, k: nat)
    requires
        bpoly_wf(p),
        k <= MAX_LOG_ORDER,
        p.len() == pow2(k),
    ensures
        dft(
            poly_scal(binv_s(Belt(p.len() as u64)), dft(p, binv_s(canonical_root(k)))),
            canonical_root(k),
        ) == p,
{
    let pp = P as int;
    let n = pow2(k);
    let w = canonical_root(k);
    let v = binv_s(w);
    let c = binv_s(Belt(n as u64));
    let ww = w.val();
    let vv = v.val();
    let cc = c.val();
    let ip = dft(p, v);
    let q = poly_scal(c, ip);
    let r = dft(q, w);
    lemma_size_inverse(k);
    assert forall|m: int| 0 <= m < n implies #[trigger] r[m] == p[m] by {
        let a = |j: int| dft_sum(p, vv, j, n);
        let big = |i: int, j: int| coef(p, i).val() * (pow(vv, (i * j) as nat) * pow(ww, (j * m) as nat));
        // each term of the outer transform, modulo P
        let gq = dft_term(q, ww, m);
        let h = |j: int| cc * sum_of(|i: int| big(i, j), n);
        assert forall|j: int| 0 <= j < n implies #[trigger] gq(j) % pp == h(j) % pp by {
            let pw = pow(ww, (j * m) as nat);
            let aj = a(j);
            lemma_modp_wf(aj);
            lemma_modp_wf(cc * (aj % pp));
            assert(coef(q, j).val() == (cc * (aj % pp)) % pp);
            lemma_mul_mod_noop_left(cc * (aj % pp), pw, pp);
            assert((cc * (aj % pp)) * pw == cc * ((aj % pp) * pw)) by (nonlinear_arith);
            lemma_mul_mod_noop_right(cc, (aj % pp) * pw, pp);
            lemma_mul_mod_noop_left(aj, pw, pp);
            lemma_mul_mod_noop_right(cc, aj * pw, pp);
            // a(j) * pw is the inner sum over i
            let t = dft_term(p, vv, j);
            lemma_sum_scale(t, pw, n);
            let st = |i: int| pw * t(i);
            let bj = |i: int| big(i, j);
            assert forall|i: int| 0 <= i < n implies #[trigger] st(i) == bj(i) by {
                let x = coef(p, i).val();
                let y = pow(vv, (i * j) as nat);
                assert(pw * (x * y) == x * (y * pw)) by (nonlinear_arith);
            }
            lemma_sum_ext(st, bj, n);
            assert(aj * pw == pw * aj) by (nonlinear_arith);
        }
        lemma_sum_congruent(gq, h, n);
        let outer = |j: int| sum_of(|i: int| big(i, j), n);
        lemma_sum_scale(outer, cc, n);
        lemma_sum_ext(h, |j: int| cc * outer(j), n);
        lemma_sum_swap(big, n, n);
        // the inner sums pick out p[m]
        let per_i = |i: int| sum_of(|j: int| big(i, j), n);
        let pick = |i: int| if i == m { coef(p, i).val() * n } else { 0 };
        assert forall|i: int| 0 <= i < n implies #[trigger] per_i(i) % pp == pick(i) % pp by {
            lemma_inner_sum(p, k, i, m);
            let fi = |j: int| coef(p, i).val() * (pow(vv, (i * j) as nat) * pow(ww, (j * m) as nat));
            let bi = |j: int| big(i, j);
            lemma_sum_ext(bi, fi, n);
        }
        lemma_sum_congruent(per_i, pick, n);
        lemma_sum_single(pick, n, m);
        // so the entry is cc * p[m] * n = p[m]
        let total = sum_of(outer, n);
        assert(total == sum_of(per_i, n));
        lemma_mul_mod_noop_right(cc, total, pp);
        lemma_mul_mod_noop_right(cc, coef(p, m).val() * n, pp);
        let pm = p[m].val();
        assert(cc * (pm * n) == pm * (n * cc)) by (nonlinear_arith);
        lemma_mul_by_one_mod(pm, n * cc);
        assert(n * cc == n as int * cc);
        lemma_modp_canonical(p[m]);
        assert(dft_sum(q, ww, m, n) == sum_of(gq, n));
    }
    assert(r =~= p);
}

} // verus!
