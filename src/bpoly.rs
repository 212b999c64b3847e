//! Polynomials over the base field, as coefficient sequences (index i holds
//! the coefficient of x^i).
use crate::belt::{
    badd, badd_s, bmul, bmul_s, bneg, bneg_s, bpow_s, bsub, bsub_s, lemma_modp_wf, modp, Belt, P,
};
use crate::error::KernelError;
use vstd::arithmetic::div_mod::*;
use vstd::arithmetic::power::*;
use vstd::prelude::*;

verus! {

/// Every coefficient is canonical.
pub open spec fn bpoly_wf(p: Seq<Belt>) -> bool {
    forall|i: int| 0 <= i < p.len() ==> (#[trigger] p[i]).wf()
}

/// Coefficient `i`, zero beyond the end.
pub open spec fn coef(p: Seq<Belt>, i: int) -> Belt {
    if 0 <= i < p.len() {
        p[i]
    } else {
        Belt(0)
    }
}

pub open spec fn max_len(p: Seq<Belt>, q: Seq<Belt>) -> nat {
    if p.len() >= q.len() {
        p.len()
    } else {
        q.len()
    }
}

pub open spec fn poly_add(p: Seq<Belt>, q: Seq<Belt>) -> Seq<Belt> {
    Seq::new(max_len(p, q), |i: int| badd_s(coef(p, i), coef(q, i)))
}

pub open spec fn poly_sub(p: Seq<Belt>, q: Seq<Belt>) -> Seq<Belt> {
    Seq::new(max_len(p, q), |i: int| bsub_s(coef(p, i), coef(q, i)))
}

pub open spec fn poly_neg(p: Seq<Belt>) -> Seq<Belt> {
    p.map_values(|b: Belt| bneg_s(b))
}

pub open spec fn poly_scal(c: Belt, p: Seq<Belt>) -> Seq<Belt> {
    p.map_values(|b: Belt| bmul_s(c, b))
}

/// The empty polynomial and the canonical zero polynomial `[0]`.
pub open spec fn is_zero_poly(p: Seq<Belt>) -> bool {
    p.len() == 0 || p =~= seq![Belt(0)]
}

/// Sum of coef(p, i) * coef(q, k - i) over i < n, as an integer.
pub open spec fn conv_sum(p: Seq<Belt>, q: Seq<Belt>, k: int, n: nat) -> int
    decreases n,
{
    if n == 0 {
        0
    } else {
        conv_sum(p, q, k, (n - 1) as nat) + coef(p, n - 1).val() * coef(q, k - (n - 1)).val()
    }
}

/// The product of two polynomials: their full convolution, or `[0]` when
/// either is zero.
pub open spec fn poly_mul(p: Seq<Belt>, q: Seq<Belt>) -> Seq<Belt> {
    if is_zero_poly(p) || is_zero_poly(q) {
        seq![Belt(0)]
    } else {
        Seq::new((p.len() + q.len() - 1) as nat, |k: int| modp(conv_sum(p, q, k, (k + 1) as nat)))
    }
}

pub open spec fn poly_hadamard(p: Seq<Belt>, q: Seq<Belt>) -> Seq<Belt> {
    Seq::new(p.len(), |i: int| bmul_s(p[i], q[i]))
}

/// p(c x): coefficient i scaled by c^i.
pub open spec fn poly_shift(p: Seq<Belt>, c: Belt) -> Seq<Belt> {
    Seq::new(p.len(), |i: int| bmul_s(p[i], bpow_s(c, i as nat)))
}

/// Sum of two polynomials; the shorter is padded with zeros.
pub fn bpadd(p: &[Belt], q: &[Belt]) -> (r: Vec<Belt>)
    requires
        bpoly_wf(p@),
        bpoly_wf(q@),
    ensures
        r@ == poly_add(p@, q@),
        bpoly_wf(r@),
{
    let lp = p.len();
    let lq = q.len();
    let m = if lp >= lq { lp } else { lq };
    let mut res: Vec<Belt> = Vec::new();
    let mut i: usize = 0;
    while i < m
        invariant
            i <= m,
            lp == p@.len(),
            lq == q@.len(),
            m == max_len(p@, q@),
            bpoly_wf(p@),
            bpoly_wf(q@),
            res@ == poly_add(p@, q@).subrange(0, i as int),
            bpoly_wf(res@),
        decreases m - i,
    {
        let a = if i < lp { p[i] } else { Belt(0) };
        let b = if i < lq { q[i] } else { Belt(0) };
        res.push(badd(a, b));
        assert(res@ =~= poly_add(p@, q@).subrange(0, i + 1));
        i = i + 1;
    }
    assert(res@ =~= poly_add(p@, q@));
    res
}

/// Difference of two polynomials; the shorter is padded with zeros.
pub fn bpsub(p: &[Belt], q: &[Belt]) -> (r: Vec<Belt>)
    requires
        bpoly_wf(p@),
        bpoly_wf(q@),
    ensures
        r@ == poly_sub(p@, q@),
        bpoly_wf(r@),
{
    let lp = p.len();
    let lq = q.len();
    let m = if lp >= lq { lp } else { lq };
    let mut res: Vec<Belt> = Vec::new();
    let mut i: usize = 0;
    while i < m
        invariant
            i <= m,
            lp == p@.len(),
            lq == q@.len(),
            m == max_len(p@, q@),
            bpoly_wf(p@),
            bpoly_wf(q@),
            res@ == poly_sub(p@, q@).subrange(0, i as int),
            bpoly_wf(res@),
        decreases m - i,
    {
        let a = if i < lp { p[i] } else { Belt(0) };
        let b = if i < lq { q[i] } else { Belt(0) };
        res.push(bsub(a, b));
        assert(res@ =~= poly_sub(p@, q@).subrange(0, i + 1));
        i = i + 1;
    }
    assert(res@ =~= poly_sub(p@, q@));
    res
}

/// Negation of every coefficient.
pub fn bpneg(p: &[Belt]) -> (r: Vec<Belt>)
    requires
        bpoly_wf(p@),
    ensures
        r@ == poly_neg(p@),
        bpoly_wf(r@),
{
    let mut res: Vec<Belt> = Vec::new();
    let mut i: usize = 0;
    while i < p.len()
        invariant
            i <= p@.len(),
            bpoly_wf(p@),
            res@ == poly_neg(p@).subrange(0, i as int),
            bpoly_wf(res@),
        decreases p@.len() - i,
    {
        res.push(bneg(p[i]));
        assert(res@ =~= poly_neg(p@).subrange(0, i + 1));
        i = i + 1;
    }
    assert(res@ =~= poly_neg(p@));
    res
}

/// Every coefficient multiplied by `c`.
pub fn bpscal(c: Belt, p: &[Belt]) -> (r: Vec<Belt>)
    requires
        c.wf(),
        bpoly_wf(p@),
    ensures
        r@ == poly_scal(c, p@),
        bpoly_wf(r@),
{
    let mut res: Vec<Belt> = Vec::new();
    let mut i: usize = 0;
    while i < p.len()
        invariant
            i <= p@.len(),
            c.wf(),
            bpoly_wf(p@),
            res@ == poly_scal(c, p@).subrange(0, i as int),
            bpoly_wf(res@),
        decreases p@.len() - i,
    {
        res.push(bmul(c, p[i]));
        assert(res@ =~= poly_scal(c, p@).subrange(0, i + 1));
        i = i + 1;
    }
    assert(res@ =~= poly_scal(c, p@));
    res
}

/// Index-wise product of two polynomials of one length; operands of
/// different lengths are refused.
pub fn bp_hadamard(p: &[Belt], q: &[Belt]) -> (r: Result<Vec<Belt>, KernelError>)
    requires
        bpoly_wf(p@),
        bpoly_wf(q@),
    ensures
        p@.len() == q@.len() ==> r == Ok::<Vec<Belt>, KernelError>(r.unwrap()) && r.unwrap()@
            == poly_hadamard(p@, q@) && bpoly_wf(r.unwrap()@),
        p@.len() != q@.len() ==> r == Err::<Vec<Belt>, KernelError>(KernelError::Precondition),
{
    if p.len() != q.len() {
        return Err(KernelError::Precondition);
    }
    let mut res: Vec<Belt> = Vec::new();
    let mut i: usize = 0;
    while i < p.len()
        invariant
            i <= p@.len(),
            p@.len() == q@.len(),
            bpoly_wf(p@),
            bpoly_wf(q@),
            res@ == poly_hadamard(p@, q@).subrange(0, i as int),
            bpoly_wf(res@),
        decreases p@.len() - i,
    {
        res.push(bmul(p[i], q[i]));
        assert(res@ =~= poly_hadamard(p@, q@).subrange(0, i + 1));
        i = i + 1;
    }
    assert(res@ =~= poly_hadamard(p@, q@));
    Ok(res)
}

/// Adding a product to an integer sum commutes with reduction modulo P.
pub(crate) proof fn lemma_modp_add_mul(s: int, a: Belt, b: Belt)
    ensures
        modp(s + a.val() * b.val()) == badd_s(modp(s), bmul_s(a, b)),
{
    lemma_modp_wf(s);
    lemma_modp_wf(a.val() * b.val());
    lemma_add_mod_noop(s, a.val() * b.val(), P as int);
}

/// Whether `p` is the empty or the canonical zero polynomial.
fn bpoly_is_zero(p: &[Belt]) -> (r: bool)
    ensures
        r == is_zero_poly(p@),
{
    if p.len() == 0 {
        true
    } else if p.len() == 1 && p[0].0 == 0 {
        assert(p@ =~= seq![Belt(0)]);
        true
    } else {
        assert(p@.len() == 1 ==> p@[0] != Belt(0));
        assert(!(p@ =~= seq![Belt(0)]) ==> p@ != seq![Belt(0)]);
        false
    }
}

/// Product of two polynomials by full convolution; `[0]` when either
/// operand is zero.
pub fn bpmul(p: &[Belt], q: &[Belt]) -> (r: Vec<Belt>)
    requires
        bpoly_wf(p@),
        bpoly_wf(q@),
        p@.len() + q@.len() <= usize::MAX,
    ensures
        r@ == poly_mul(p@, q@),
        bpoly_wf(r@),
{
    if bpoly_is_zero(p) || bpoly_is_zero(q) {
        let res = vec![Belt(0)];
        assert(res@ =~= seq![Belt(0)]);
        return res;
    }
    let lp = p.len();
    let lq = q.len();
    let n = lp + lq - 1;
    let ghost target = poly_mul(p@, q@);
    let mut res: Vec<Belt> = Vec::new();
    let mut k: usize = 0;
    while k < n
        invariant
            k <= n,
            n == lp + lq - 1,
            lp == p@.len(),
            lq == q@.len(),
            lp > 0,
            lq > 0,
            bpoly_wf(p@),
            bpoly_wf(q@),
            target == poly_mul(p@, q@),
            target.len() == n,
            forall|j: int| 0 <= j < n ==> #[trigger] target[j] == modp(conv_sum(p@, q@, j, (j + 1) as nat)),
            res@ == target.subrange(0, k as int),
            bpoly_wf(res@),
        decreases n - k,
    {
        let mut acc = Belt(0);
        let mut i: usize = 0;
        while i <= k
            invariant
                i <= k + 1,
                k < n,
                lp == p@.len(),
                lq == q@.len(),
                bpoly_wf(p@),
                bpoly_wf(q@),
                acc == modp(conv_sum(p@, q@, k as int, i as nat)),
                acc.wf(),
            decreases k + 1 - i,
        {
            proof {
                lemma_modp_add_mul(conv_sum(p@, q@, k as int, i as nat), coef(p@, i as int), coef(q@, k - i));
                lemma_modp_wf(conv_sum(p@, q@, k as int, i as nat));
            }
            if i < lp && k - i < lq {
                acc = badd(acc, bmul(p[i], q[k - i]));
            } else {
                proof {
                    if i >= lp {
                        assert(coef(p@, i as int).val() == 0);
                    } else {
                        assert(coef(q@, k - i).val() == 0);
                    }
                    assert(coef(p@, i as int).val() * coef(q@, k - i).val() == 0) by (nonlinear_arith)
                        requires coef(p@, i as int).val() == 0 || coef(q@, k - i).val() == 0;
                    lemma_small_mod(acc.0 as nat, P as nat);
                }
            }
            i = i + 1;
        }
        res.push(acc);
        assert(res@ =~= target.subrange(0, k + 1));
        k = k + 1;
    }
    assert(res@ =~= target);
    res
}

pub(crate) proof fn lemma_bpow_step(c: Belt, i: nat)
    requires
        c.wf(),
    ensures
        bmul_s(bpow_s(c, i), c) == bpow_s(c, i + 1),
{
    lemma_modp_wf(pow(c.val(), i));
    lemma_mul_mod_noop_left(pow(c.val(), i), c.val(), P as int);
    reveal(pow);
    assert(pow(c.val(), i + 1) == c.val() * pow(c.val(), i));
    assert(pow(c.val(), i) * c.val() == c.val() * pow(c.val(), i)) by (nonlinear_arith);
}

/// p(c x): coefficient i multiplied by c^i.
pub fn bp_shift(p: &[Belt], c: Belt) -> (r: Vec<Belt>)
    requires
        c.wf(),
        bpoly_wf(p@),
    ensures
        r@ == poly_shift(p@, c),
        bpoly_wf(r@),
{
    let mut res: Vec<Belt> = Vec::new();
    let mut power = Belt(1);
    let mut i: usize = 0;
    proof {
        reveal(pow);
        assert(pow(c.val(), 0) == 1);
        lemma_small_mod(1, P as nat);
    }
    while i < p.len()
        invariant
            i <= p@.len(),
            c.wf(),
            bpoly_wf(p@),
            power == bpow_s(c, i as nat),
            power.wf(),
            res@ == poly_shift(p@, c).subrange(0, i as int),
            bpoly_wf(res@),
        decreases p@.len() - i,
    {
        res.push(bmul(p[i], power));
        assert(res@ =~= poly_shift(p@, c).subrange(0, i + 1));
        proof {
            lemma_bpow_step(c, i as nat);
        }
        power = bmul(power, c);
        i = i + 1;
    }
    assert(res@ =~= poly_shift(p@, c));
    res
}

/// The product of two nonzero polynomials has one coefficient fewer than
/// their lengths together: its degree is the sum of theirs.
pub proof fn lemma_bpmul_degree(p: Seq<Belt>, q: Seq<Belt>)
    requires
        !is_zero_poly(p),
        !is_zero_poly(q),
    ensures
        poly_mul(p, q).len() - 1 == p.len() + q.len() - 2,
{
}

proof fn lemma_conv_top(p: Seq<Belt>, q: Seq<Belt>, n: nat)
    requires
        p.len() >= 1,
        q.len() >= 1,
        n <= p.len() + q.len() - 1,
    ensures
        conv_sum(p, q, p.len() + q.len() - 2, n) == if n >= p.len() {
            p.last().val() * q.last().val()
        } else {
            0
        },
    decreases n,
{
    if n > 0 {
        let k = p.len() + q.len() - 2;
        let i = n - 1;
        lemma_conv_top(p, q, (n - 1) as nat);
        let a = coef(p, i).val();
        let b = coef(q, k - i).val();
        if i < p.len() - 1 {
            assert(b == 0);
            assert(a * b == 0) by (nonlinear_arith)
                requires b == 0;
        } else if i > p.len() - 1 {
            assert(a == 0);
            assert(a * b == 0) by (nonlinear_arith)
                requires a == 0;
        }
    }
}

/// The top coefficient of a product of nonzero polynomials is the product
/// of their top coefficients.
pub proof fn lemma_bpmul_top_coefficient(p: Seq<Belt>, q: Seq<Belt>)
    requires
        !is_zero_poly(p),
        !is_zero_poly(q),
    ensures
        poly_mul(p, q).last() == bmul_s(p.last(), q.last()),
{
    lemma_conv_top(p, q, (p.len() + q.len() - 1) as nat);
}

/// Addition is commutative.
pub proof fn lemma_bpadd_commutative(p: Seq<Belt>, q: Seq<Belt>)
    ensures
        poly_add(p, q) == poly_add(q, p),
{
    assert forall|i: int| 0 <= i < max_len(p, q) implies poly_add(p, q)[i] == poly_add(q, p)[i] by {
        assert(coef(p, i).val() + coef(q, i).val() == coef(q, i).val() + coef(p, i).val());
    }
    assert(poly_add(p, q) =~= poly_add(q, p));
}

/// A polynomial minus itself has only zero coefficients.
pub proof fn lemma_bpsub_self(p: Seq<Belt>)
    ensures
        poly_sub(p, p) == Seq::new(p.len(), |i: int| Belt(0)),
{
    assert forall|i: int| 0 <= i < p.len() implies poly_sub(p, p)[i] == Belt(0) by {
        assert(coef(p, i).val() - coef(p, i).val() == 0);
    }
    assert(poly_sub(p, p) =~= Seq::new(p.len(), |i: int| Belt(0)));
}

} // verus!
