//! The cubic extension field F_P[x] / (x^3 - x + 1), its elements written
//! as coefficient triples (c0, c1, c2) of 1, x and x^2.
use crate::belt::{
    badd, badd_s, bmul, bmul_s, bneg, bneg_s, bsub, bsub_s, lemma_modp_add, lemma_modp_canonical,
    lemma_modp_mul, lemma_modp_sub, modp, Belt,
};
use vstd::arithmetic::div_mod::*;
use vstd::arithmetic::power::pow;
use vstd::arithmetic::power2::*;
use vstd::prelude::*;

verus! {

/// An element of the extension field.
#[derive(Clone, Copy, PartialEq, Eq, Structural, Debug)]
pub struct Felt {
    pub c0: Belt,
    pub c1: Belt,
    pub c2: Belt,
}

impl Felt {
    /// All three coefficients are canonical.
    pub open spec fn wf(self) -> bool {
        self.c0.wf() && self.c1.wf() && self.c2.wf()
    }

    /// Builds an element from its three coefficients.
    pub fn new(c0: Belt, c1: Belt, c2: Belt) -> (r: Felt)
        ensures
            r == (Felt { c0, c1, c2 }),
    {
        Felt { c0, c1, c2 }
    }

    /// The base-field element `b` seen in the extension.
    pub fn lift(b: Belt) -> (r: Felt)
        ensures
            r == felt_lift(b),
    {
        Felt { c0: b, c1: Belt(0), c2: Belt(0) }
    }

    pub fn zero() -> (r: Felt)
        ensures
            r == felt_zero(),
    {
        Felt { c0: Belt(0), c1: Belt(0), c2: Belt(0) }
    }

    pub fn one() -> (r: Felt)
        ensures
            r == felt_one(),
    {
        Felt { c0: Belt(1), c1: Belt(0), c2: Belt(0) }
    }
}

pub open spec fn felt_lift(b: Belt) -> Felt {
    Felt { c0: b, c1: Belt(0), c2: Belt(0) }
}

pub open spec fn felt_zero() -> Felt {
    felt_lift(Belt(0))
}

pub open spec fn felt_one() -> Felt {
    felt_lift(Belt(1))
}

pub open spec fn fadd_s(a: Felt, b: Felt) -> Felt {
    Felt { c0: badd_s(a.c0, b.c0), c1: badd_s(a.c1, b.c1), c2: badd_s(a.c2, b.c2) }
}

pub open spec fn fsub_s(a: Felt, b: Felt) -> Felt {
    Felt { c0: bsub_s(a.c0, b.c0), c1: bsub_s(a.c1, b.c1), c2: bsub_s(a.c2, b.c2) }
}

pub open spec fn fneg_s(a: Felt) -> Felt {
    Felt { c0: bneg_s(a.c0), c1: bneg_s(a.c1), c2: bneg_s(a.c2) }
}

/// The product: the polynomial product of the two triples, reduced with
/// x^3 = x - 1 (so x^4 = x^2 - x).
pub open spec fn fmul_s(a: Felt, b: Felt) -> Felt {
    let (a0, a1, a2) = (a.c0.val(), a.c1.val(), a.c2.val());
    let (b0, b1, b2) = (b.c0.val(), b.c1.val(), b.c2.val());
    let d0 = a0 * b0;
    let d1 = a0 * b1 + a1 * b0;
    let d2 = a0 * b2 + a1 * b1 + a2 * b0;
    let d3 = a1 * b2 + a2 * b1;
    let d4 = a2 * b2;
    Felt { c0: modp(d0 - d3), c1: modp(d1 + d3 - d4), c2: modp(d2 + d4) }
}

/// `a` raised to `e` by square-and-multiply over the bits of `e`, most
/// significant first.
pub open spec fn fpow_s(a: Felt, e: nat) -> Felt
    decreases e,
{
    if e == 0 {
        felt_one()
    } else {
        let h = fpow_s(a, e / 2);
        let h2 = fmul_s(h, h);
        if e % 2 == 1 {
            fmul_s(h2, a)
        } else {
            h2
        }
    }
}

/// The exponent P^3 - 2, whose power is the inverse of every nonzero element.
pub open spec fn inv_exponent() -> nat {
    (0xfffffffd00000005 * pow2(64) + 0xfffffff900000005) * pow2(64) + 0xfffffffcffffffff
}

pub open spec fn finv_s(a: Felt) -> Felt {
    fpow_s(a, inv_exponent())
}

pub fn fadd(a: &Felt, b: &Felt) -> (r: Felt)
    requires
        a.wf(),
        b.wf(),
    ensures
        r == fadd_s(*a, *b),
        r.wf(),
{
    Felt { c0: badd(a.c0, b.c0), c1: badd(a.c1, b.c1), c2: badd(a.c2, b.c2) }
}

pub fn fsub(a: &Felt, b: &Felt) -> (r: Felt)
    requires
        a.wf(),
        b.wf(),
    ensures
        r == fsub_s(*a, *b),
        r.wf(),
{
    Felt { c0: bsub(a.c0, b.c0), c1: bsub(a.c1, b.c1), c2: bsub(a.c2, b.c2) }
}

pub fn fneg(a: &Felt) -> (r: Felt)
    requires
        a.wf(),
    ensures
        r == fneg_s(*a),
        r.wf(),
{
    Felt { c0: bneg(a.c0), c1: bneg(a.c1), c2: bneg(a.c2) }
}

pub fn fmul(a: &Felt, b: &Felt) -> (r: Felt)
    requires
        a.wf(),
        b.wf(),
    ensures
        r == fmul_s(*a, *b),
        r.wf(),
{
    let (a0, a1, a2) = (a.c0, a.c1, a.c2);
    let (b0, b1, b2) = (b.c0, b.c1, b.c2);
    let d0 = bmul(a0, b0);
    let d1 = badd(bmul(a0, b1), bmul(a1, b0));
    let d2 = badd(badd(bmul(a0, b2), bmul(a1, b1)), bmul(a2, b0));
    let d3 = badd(bmul(a1, b2), bmul(a2, b1));
    let d4 = bmul(a2, b2);
    proof {
        let (x0, x1, x2) = (a0.val(), a1.val(), a2.val());
        let (y0, y1, y2) = (b0.val(), b1.val(), b2.val());
        lemma_modp_canonical(a0);
        lemma_modp_canonical(a1);
        lemma_modp_canonical(a2);
        lemma_modp_canonical(b0);
        lemma_modp_canonical(b1);
        lemma_modp_canonical(b2);
        lemma_modp_mul(x0, y0);
        lemma_modp_mul(x0, y1);
        lemma_modp_mul(x1, y0);
        lemma_modp_mul(x0, y2);
        lemma_modp_mul(x1, y1);
        lemma_modp_mul(x2, y0);
        lemma_modp_mul(x1, y2);
        lemma_modp_mul(x2, y1);
        lemma_modp_mul(x2, y2);
        lemma_modp_add(x0 * y1, x1 * y0);
        lemma_modp_add(x0 * y2, x1 * y1);
        lemma_modp_add(x0 * y2 + x1 * y1, x2 * y0);
        lemma_modp_add(x1 * y2, x2 * y1);
        let e1 = x0 * y1 + x1 * y0;
        let e2 = x0 * y2 + x1 * y1 + x2 * y0;
        let e3 = x1 * y2 + x2 * y1;
        let e4 = x2 * y2;
        lemma_modp_sub(x0 * y0, e3);
        lemma_modp_add(e1, e3);
        lemma_modp_sub(e1 + e3, e4);
        lemma_modp_add(e2, e4);
    }
    let c0 = bsub(d0, d3);
    let c1 = bsub(badd(d1, d3), d4);
    let c2 = badd(d2, d4);
    Felt { c0, c1, c2 }
}

proof fn lemma_fmul_one_one()
    ensures
        fmul_s(felt_one(), felt_one()) == felt_one(),
{
    let o = felt_one();
    assert(o.c0.val() == 1 && o.c1.val() == 0 && o.c2.val() == 0);
    assert(1int * 1int == 1 && 1int * 0int == 0 && 0int * 1int == 0 && 0int * 0int == 0);
    assert(1int % (crate::belt::P as int) == 1);
    assert(0int % (crate::belt::P as int) == 0);
}

/// Continues square-and-multiply from `r == fpow_s(a, prefix)` over the 64
/// bits of `w`, most significant first.
fn fpow_word(r: Felt, a: &Felt, w: u64, prefix: Ghost<nat>) -> (out: Felt)
    requires
        r == fpow_s(*a, prefix@),
        r.wf(),
        a.wf(),
    ensures
        out == fpow_s(*a, prefix@ * pow2(64) + w as nat),
        out.wf(),
{
    let mut acc = r;
    let mut d: u64 = 0x8000_0000_0000_0000;
    let mut i: usize = 0;
    let ghost mut v: nat = prefix@;
    proof {
        lemma2_to64();
        lemma2_to64_rest();
        lemma_basic_div(w as int, pow2(64) as int);
    }
    while i < 64
        invariant
            i <= 64,
            a.wf(),
            acc.wf(),
            acc == fpow_s(*a, v),
            i < 64 ==> d as nat == pow2((63 - i) as nat),
            v == prefix@ * pow2(i as nat) + w as nat / pow2((64 - i) as nat),
        decreases 64 - i,
    {
        proof {
            lemma_pow2_pos((63 - i) as nat);
        }
        let bit = (w / d) % 2;
        proof {
            lemma_fmul_one_one();
            let dn = pow2((63 - i) as nat) as int;
            lemma_pow2_unfold((64 - i) as nat);
            lemma_pow2_unfold((i + 1) as nat);
            lemma_pow2_pos((63 - i) as nat);
            lemma_div_denominator(w as int, dn, 2);
            lemma_fundamental_div_mod(w as int / dn, 2);
            assert(prefix@ * pow2((i + 1) as nat) == 2 * (prefix@ * pow2(i as nat))) by (nonlinear_arith)
                requires pow2((i + 1) as nat) == 2 * pow2(i as nat);
            if i < 63 {
                lemma_pow2_unfold((63 - i) as nat);
            }
        }
        let sq = fmul(&acc, &acc);
        if bit == 1 {
            acc = fmul(&sq, a);
        } else {
            acc = sq;
        }
        proof {
            let nv = 2 * v + bit as nat;
            assert(nv / 2 == v && nv % 2 == bit as nat);
            if nv == 0 {
                assert(v == 0);
            }
            v = nv;
        }
        d = d / 2;
        i = i + 1;
    }
    proof {
        lemma2_to64();
        assert(w as nat / 1 == w as nat);
    }
    acc
}

/// `a` raised to the power `e`.
pub fn fpow(a: &Felt, e: u64) -> (r: Felt)
    requires
        a.wf(),
    ensures
        r == fpow_s(*a, e as nat),
        r.wf(),
{
    fpow_word(Felt::one(), a, e, Ghost(0))
}

/// The inverse of a nonzero element, `a^(P^3 - 2)`.
pub fn finv(a: &Felt) -> (r: Felt)
    requires
        a.wf(),
    ensures
        r == finv_s(*a),
        r.wf(),
{
    proof {
        lemma2_to64();
    }
    let hi = fpow_word(Felt::one(), a, 0xfffffffd00000005, Ghost(0));
    assert(0xfffffffd00000005 == 0 * pow2(64) + 0xfffffffd00000005);
    let mid = fpow_word(hi, a, 0xfffffff900000005, Ghost(0xfffffffd00000005));
    fpow_word(
        mid,
        a,
        0xfffffffcffffffff,
        Ghost(0xfffffffd00000005 * pow2(64) + 0xfffffff900000005),
    )
}

/// a / b, that is a times the inverse of b.
pub fn fdiv(a: &Felt, b: &Felt) -> (r: Felt)
    requires
        a.wf(),
        b.wf(),
    ensures
        r == fmul_s(*a, finv_s(*b)),
        r.wf(),
{
    let binv = finv(b);
    fmul(a, &binv)
}

} // verus!
