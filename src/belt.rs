//! The base field: integers modulo P = 2^64 - 2^32 + 1.
use vstd::arithmetic::div_mod::*;
use vstd::arithmetic::power::*;
use vstd::prelude::*;

verus! {

/// The field modulus, 2^64 - 2^32 + 1.
pub const P: u64 = 0xffff_ffff_0000_0001;

/// An element of the base field, stored in canonical form (below `P`).
#[derive(Clone, Copy, PartialEq, Eq, Structural, Debug)]
pub struct Belt(pub u64);

impl Belt {
    /// The stored value is canonical.
    pub open spec fn wf(self) -> bool {
        self.0 < P
    }

    pub open spec fn val(self) -> int {
        self.0 as int
    }
}

/// The canonical representative of `x` modulo `P`.
pub open spec fn modp(x: int) -> Belt {
    Belt((x % (P as int)) as u64)
}

pub open spec fn badd_s(a: Belt, b: Belt) -> Belt {
    modp(a.val() + b.val())
}

pub open spec fn bsub_s(a: Belt, b: Belt) -> Belt {
    modp(a.val() - b.val())
}

pub open spec fn bneg_s(a: Belt) -> Belt {
    modp(-a.val())
}

pub open spec fn bmul_s(a: Belt, b: Belt) -> Belt {
    modp(a.val() * b.val())
}

/// `a` raised to the power `e`, in the field.
pub open spec fn bpow_s(a: Belt, e: nat) -> Belt {
    modp(pow(a.val(), e))
}

/// The multiplicative inverse as computed here: `a^(P-2)`, which by Fermat's
/// little theorem is the inverse of every nonzero `a`.
pub open spec fn binv_s(a: Belt) -> Belt {
    bpow_s(a, (P - 2) as nat)
}

pub proof fn lemma_modp_wf(x: int)
    ensures
        modp(x).wf(),
        modp(x).val() == x % (P as int),
{
    lemma_mod_bound(x, P as int);
}

pub fn badd(a: Belt, b: Belt) -> (r: Belt)
    requires
        a.wf(),
        b.wf(),
    ensures
        r == badd_s(a, b),
        r.wf(),
{
    proof {
        lemma_modp_wf(a.val() + b.val());
    }
    let s: u128 = a.0 as u128 + b.0 as u128;
    Belt((s % (P as u128)) as u64)
}

pub fn bneg(a: Belt) -> (r: Belt)
    requires
        a.wf(),
    ensures
        r == bneg_s(a),
        r.wf(),
{
    proof {
        lemma_modp_wf(-a.val());
        if a.0 == 0 {
            assert(-a.val() % (P as int) == 0);
        } else {
            lemma_small_mod((P - a.0) as nat, P as nat);
            lemma_mod_add_multiples_vanish(-a.val(), P as int);
        }
    }
    if a.0 == 0 {
        Belt(0)
    } else {
        Belt(P - a.0)
    }
}

pub fn bsub(a: Belt, b: Belt) -> (r: Belt)
    requires
        a.wf(),
        b.wf(),
    ensures
        r == bsub_s(a, b),
        r.wf(),
{
    proof {
        lemma_modp_wf(a.val() - b.val());
        if a.0 >= b.0 {
            lemma_small_mod((a.0 - b.0) as nat, P as nat);
        } else {
            lemma_small_mod((P - b.0 + a.0) as nat, P as nat);
            lemma_mod_add_multiples_vanish(a.val() - b.val(), P as int);
        }
    }
    if a.0 >= b.0 {
        Belt(a.0 - b.0)
    } else {
        Belt(P - b.0 + a.0)
    }
}

pub fn bmul(a: Belt, b: Belt) -> (r: Belt)
    requires
        a.wf(),
        b.wf(),
    ensures
        r == bmul_s(a, b),
        r.wf(),
{
    proof {
        lemma_modp_wf(a.val() * b.val());
        assert(a.val() * b.val() < 0x1_0000_0000_0000_0000_0000_0000_0000_0000) by (nonlinear_arith)
            requires a.val() < 0x1_0000_0000_0000_0000, b.val() < 0x1_0000_0000_0000_0000, a.val() >= 0, b.val() >= 0;
    }
    let m: u128 = a.0 as u128 * b.0 as u128;
    Belt((m % (P as u128)) as u64)
}

/// One square-and-multiply step keeps `r * b^k` fixed modulo `P`.
proof fn lemma_pow_step(r: int, b: int, k: nat)
    ensures
        ({
            let r2 = if k % 2 == 1 { (r * b) % (P as int) } else { r };
            let b2 = (b * b) % (P as int);
            (r * pow(b, k)) % (P as int) == (r2 * pow(b2, k / 2)) % (P as int)
        }),
{
    let m = P as int;
    let h = (k / 2) as nat;
    let t = (k % 2) as nat;
    assert(k == 2 * h + t);
    lemma_pow_adds(b, 2 * h, t);
    lemma_pow_multiplies(b, 2, h);
    lemma_square_is_pow2(b);
    lemma_pow_mod_noop(b * b, h, m);
    let q = pow(b * b, h);
    let qm = pow((b * b) % m, h);
    assert(pow(b, k) == q * pow(b, t));
    if t == 1 {
        lemma_pow1(b);
        assert((r * (q * b)) == (r * b) * q) by (nonlinear_arith);
        lemma_mul_mod_noop_left(r * b, q, m);
        lemma_mul_mod_noop_right((r * b) % m, q, m);
        lemma_mul_mod_noop_right((r * b) % m, qm, m);
    } else {
        lemma_pow0(b);
        assert(r * (q * 1) == r * q);
        lemma_mul_mod_noop_right(r, q, m);
        lemma_mul_mod_noop_right(r, qm, m);
    }
}

/// `a` raised to `e` by square-and-multiply.
pub fn bpow(a: Belt, e: u64) -> (r: Belt)
    requires
        a.wf(),
    ensures
        r == bpow_s(a, e as nat),
        r.wf(),
{
    let mut result = Belt(1);
    let mut base = a;
    let mut k: u64 = e;
    assert(result.val() * pow(base.val(), k as nat) == pow(a.val(), e as nat));
    while k > 0
        invariant
            result.wf(),
            base.wf(),
            (result.val() * pow(base.val(), k as nat)) % (P as int) == pow(a.val(), e as nat) % (
            P as int),
        decreases k,
    {
        proof {
            lemma_pow_step(result.val(), base.val(), k as nat);
        }
        if k % 2 == 1 {
            result = bmul(result, base);
        }
        base = bmul(base, base);
        k = k / 2;
    }
    proof {
        lemma_pow0(base.val());
        lemma_small_mod(result.0 as nat, P as nat);
        lemma_modp_wf(pow(a.val(), e as nat));
    }
    result
}

/// The multiplicative inverse, `a^(P-2)`.
pub fn binv(a: Belt) -> (r: Belt)
    requires
        a.wf(),
    ensures
        r == binv_s(a),
        r.wf(),
{
    bpow(a, P - 2)
}

/// Every element plus its negation is zero.
pub proof fn lemma_add_neg_is_zero(a: Belt)
    requires
        a.wf(),
    ensures
        badd_s(a, bneg_s(a)) == Belt(0),
        badd_s(a, bsub_s(Belt(0), a)) == Belt(0),
{
    let m = P as int;
    lemma_modp_wf(-a.val());
    lemma_add_mod_noop_right(a.val(), -a.val(), m);
    assert(a.val() + (-a.val()) == 0);
    assert(0int % m == 0);
    assert(0 - a.val() == -a.val());
}

/// Reduction modulo P commutes with addition.
pub proof fn lemma_modp_add(x: int, y: int)
    ensures
        badd_s(modp(x), modp(y)) == modp(x + y),
{
    lemma_modp_wf(x);
    lemma_modp_wf(y);
    lemma_add_mod_noop(x, y, P as int);
}

/// Reduction modulo P commutes with subtraction.
pub proof fn lemma_modp_sub(x: int, y: int)
    ensures
        bsub_s(modp(x), modp(y)) == modp(x - y),
{
    lemma_modp_wf(x);
    lemma_modp_wf(y);
    lemma_sub_mod_noop(x, y, P as int);
}

/// Reduction modulo P commutes with multiplication.
pub proof fn lemma_modp_mul(x: int, y: int)
    ensures
        bmul_s(modp(x), modp(y)) == modp(x * y),
{
    lemma_modp_wf(x);
    lemma_modp_wf(y);
    lemma_mul_mod_noop(x, y, P as int);
}

/// A canonical element is its own reduction.
pub proof fn lemma_modp_canonical(a: Belt)
    requires
        a.wf(),
    ensures
        modp(a.val()) == a,
{
    lemma_small_mod(a.0 as nat, P as nat);
}

} // verus!
