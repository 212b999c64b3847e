//! Polynomials over the extension field, as coefficient sequences.
use crate::error::KernelError;
use crate::felt::{
    fadd, fadd_s, fdiv, felt_one, felt_zero, finv_s, fmul, fmul_s, fneg, fneg_s, fsub, fsub_s,
    Felt,
};
use vstd::prelude::*;

verus! {

/// Every coefficient is well formed.
pub open spec fn fpoly_wf(p: Seq<Felt>) -> bool {
    forall|i: int| 0 <= i < p.len() ==> (#[trigger] p[i]).wf()
}

/// Coefficient `i`, zero beyond the end.
pub open spec fn fcoef(p: Seq<Felt>, i: int) -> Felt {
    if 0 <= i < p.len() {
        p[i]
    } else {
        felt_zero()
    }
}

pub open spec fn fmax_len(p: Seq<Felt>, q: Seq<Felt>) -> nat {
    if p.len() >= q.len() {
        p.len()
    } else {
        q.len()
    }
}

pub open spec fn fpoly_add(p: Seq<Felt>, q: Seq<Felt>) -> Seq<Felt> {
    Seq::new(fmax_len(p, q), |i: int| fadd_s(fcoef(p, i), fcoef(q, i)))
}

pub open spec fn fpoly_sub(p: Seq<Felt>, q: Seq<Felt>) -> Seq<Felt> {
    Seq::new(fmax_len(p, q), |i: int| fsub_s(fcoef(p, i), fcoef(q, i)))
}

pub open spec fn fpoly_neg(p: Seq<Felt>) -> Seq<Felt> {
    p.map_values(|a: Felt| fneg_s(a))
}

pub open spec fn fpoly_scal(c: Felt, p: Seq<Felt>) -> Seq<Felt> {
    p.map_values(|a: Felt| fmul_s(c, a))
}

/// The field sum of fcoef(p, i) * fcoef(q, k - i) over i < n.
pub open spec fn fconv_sum(p: Seq<Felt>, q: Seq<Felt>, k: int, n: nat) -> Felt
    decreases n,
{
    if n == 0 {
        felt_zero()
    } else {
        fadd_s(
            fconv_sum(p, q, k, (n - 1) as nat),
            fmul_s(fcoef(p, n - 1), fcoef(q, k - (n - 1))),
        )
    }
}

/// The product: full convolution, empty when either operand is empty.
pub open spec fn fpoly_mul(p: Seq<Felt>, q: Seq<Felt>) -> Seq<Felt> {
    if p.len() == 0 || q.len() == 0 {
        Seq::empty()
    } else {
        Seq::new((p.len() + q.len() - 1) as nat, |k: int| fconv_sum(p, q, k, (k + 1) as nat))
    }
}

/// p(x) by Horner's rule: p[0] + x * (p[1] + x * (...)).
pub open spec fn fpoly_eval(p: Seq<Felt>, x: Felt) -> Felt
    decreases p.len(),
{
    if p.len() == 0 {
        felt_zero()
    } else if p.len() == 1 {
        p[0]
    } else {
        fadd_s(fmul_s(fpoly_eval(p.subrange(1, p.len() as int), x), x), p[0])
    }
}

/// Sum of two polynomials; the shorter is padded with zeros.
pub fn fpadd_poly(p: &[Felt], q: &[Felt]) -> (r: Vec<Felt>)
    requires
        fpoly_wf(p@),
        fpoly_wf(q@),
    ensures
        r@ == fpoly_add(p@, q@),
        fpoly_wf(r@),
{
    let lp = p.len();
    let lq = q.len();
    let m = if lp >= lq { lp } else { lq };
    let mut res: Vec<Felt> = Vec::new();
    let mut i: usize = 0;
    while i < m
        invariant
            i <= m,
            lp == p@.len(),
            lq == q@.len(),
            m == fmax_len(p@, q@),
            fpoly_wf(p@),
            fpoly_wf(q@),
            res@ == fpoly_add(p@, q@).subrange(0, i as int),
            fpoly_wf(res@),
        decreases m - i,
    {
        let a = if i < lp { p[i] } else { Felt::zero() };
        let b = if i < lq { q[i] } else { Felt::zero() };
        res.push(fadd(&a, &b));
        assert(res@ =~= fpoly_add(p@, q@).subrange(0, i + 1));
        i = i + 1;
    }
    assert(res@ =~= fpoly_add(p@, q@));
    res
}

/// Difference of two polynomials; the shorter is padded with zeros.
pub fn fpsub_poly(p: &[Felt], q: &[Felt]) -> (r: Vec<Felt>)
    requires
        fpoly_wf(p@),
        fpoly_wf(q@),
    ensures
        r@ == fpoly_sub(p@, q@),
        fpoly_wf(r@),
{
    let lp = p.len();
    let lq = q.len();
    let m = if lp >= lq { lp } else { lq };
    let mut res: Vec<Felt> = Vec::new();
    let mut i: usize = 0;
    while i < m
        invariant
            i <= m,
            lp == p@.len(),
            lq == q@.len(),
            m == fmax_len(p@, q@),
            fpoly_wf(p@),
            fpoly_wf(q@),
            res@ == fpoly_sub(p@, q@).subrange(0, i as int),
            fpoly_wf(res@),
        decreases m - i,
    {
        let a = if i < lp { p[i] } else { Felt::zero() };
        let b = if i < lq { q[i] } else { Felt::zero() };
        res.push(fsub(&a, &b));
        assert(res@ =~= fpoly_sub(p@, q@).subrange(0, i + 1));
        i = i + 1;
    }
    assert(res@ =~= fpoly_sub(p@, q@));
    res
}

/// Negation of every coefficient.
pub fn fpneg_poly(p: &[Felt]) -> (r: Vec<Felt>)
    requires
        fpoly_wf(p@),
    ensures
        r@ == fpoly_neg(p@),
        fpoly_wf(r@),
{
    let mut res: Vec<Felt> = Vec::new();
    let mut i: usize = 0;
    while i < p.len()
        invariant
            i <= p@.len(),
            fpoly_wf(p@),
            res@ == fpoly_neg(p@).subrange(0, i as int),
            fpoly_wf(res@),
        decreases p@.len() - i,
    {
        res.push(fneg(&p[i]));
        assert(res@ =~= fpoly_neg(p@).subrange(0, i + 1));
        i = i + 1;
    }
    assert(res@ =~= fpoly_neg(p@));
    res
}

/// Every coefficient multiplied by `c`.
pub fn fpscal_poly(c: &Felt, p: &[Felt]) -> (r: Vec<Felt>)
    requires
        c.wf(),
        fpoly_wf(p@),
    ensures
        r@ == fpoly_scal(*c, p@),
        fpoly_wf(r@),
{
    let mut res: Vec<Felt> = Vec::new();
    let mut i: usize = 0;
    while i < p.len()
        invariant
            i <= p@.len(),
            c.wf(),
            fpoly_wf(p@),
            res@ == fpoly_scal(*c, p@).subrange(0, i as int),
            fpoly_wf(res@),
        decreases p@.len() - i,
    {
        res.push(fmul(c, &p[i]));
        assert(res@ =~= fpoly_scal(*c, p@).subrange(0, i + 1));
        i = i + 1;
    }
    assert(res@ =~= fpoly_scal(*c, p@));
    res
}

/// Product of two polynomials by full convolution.
pub fn fpmul_poly(p: &[Felt], q: &[Felt]) -> (r: Vec<Felt>)
    requires
        fpoly_wf(p@),
        fpoly_wf(q@),
        p@.len() + q@.len() <= usize::MAX,
    ensures
        r@ == fpoly_mul(p@, q@),
        fpoly_wf(r@),
{
    let lp = p.len();
    let lq = q.len();
    if lp == 0 || lq == 0 {
        let res: Vec<Felt> = Vec::new();
        assert(res@ =~= fpoly_mul(p@, q@));
        return res;
    }
    let n = lp + lq - 1;
    let ghost target = fpoly_mul(p@, q@);
    let mut res: Vec<Felt> = Vec::new();
    let mut k: usize = 0;
    while k < n
        invariant
            k <= n,
            n == lp + lq - 1,
            lp == p@.len(),
            lq == q@.len(),
            lp > 0,
            lq > 0,
            fpoly_wf(p@),
            fpoly_wf(q@),
            target == fpoly_mul(p@, q@),
            target.len() == n,
            res@ == target.subrange(0, k as int),
            fpoly_wf(res@),
        decreases n - k,
    {
        let acc = fconv_at(p, q, k, k + 1);
        res.push(acc);
        assert(res@ =~= target.subrange(0, k + 1));
        k = k + 1;
    }
    assert(res@ =~= target);
    res
}

/// The convolution sum fconv_sum(p, q, k, n), skipping the terms whose
/// factors lie beyond either end.
fn fconv_at(p: &[Felt], q: &[Felt], k: usize, n: usize) -> (r: Felt)
    requires
        fpoly_wf(p@),
        fpoly_wf(q@),
        n <= k + 1,
    ensures
        r == fconv_sum(p@, q@, k as int, n as nat),
        r.wf(),
{
    let mut acc = Felt::zero();
    let mut i: usize = 0;
    while i < n
        invariant
            i <= n,
            n <= k + 1,
            fpoly_wf(p@),
            fpoly_wf(q@),
            acc == fconv_sum(p@, q@, k as int, i as nat),
            acc.wf(),
        decreases n - i,
    {
        if i < p.len() && k - i < q.len() {
            acc = fadd(&acc, &fmul(&p[i], &q[k - i]));
        } else {
            proof {
                lemma_add_zero_product(acc, fcoef(p@, i as int), fcoef(q@, k - i));
            }
        }
        i = i + 1;
    }
    acc
}

/// Adding a product with a zero factor leaves a well-formed element alone.
proof fn lemma_add_zero_product(acc: Felt, a: Felt, b: Felt)
    requires
        acc.wf(),
        a == felt_zero() || b == felt_zero(),
    ensures
        fadd_s(acc, fmul_s(a, b)) == acc,
{
    let m = fmul_s(a, b);
    assert(m == felt_zero()) by {
        let (a0, a1, a2) = (a.c0.val(), a.c1.val(), a.c2.val());
        let (b0, b1, b2) = (b.c0.val(), b.c1.val(), b.c2.val());
        assert(a0 * b0 == 0 && a0 * b1 == 0 && a0 * b2 == 0 && a1 * b0 == 0 && a1 * b1 == 0
            && a1 * b2 == 0 && a2 * b0 == 0 && a2 * b1 == 0 && a2 * b2 == 0) by (nonlinear_arith)
            requires
                (a0 == 0 && a1 == 0 && a2 == 0) || (b0 == 0 && b1 == 0 && b2 == 0),
        ;
        assert(0int % (crate::belt::P as int) == 0);
    }
    crate::belt::lemma_modp_canonical(acc.c0);
    crate::belt::lemma_modp_canonical(acc.c1);
    crate::belt::lemma_modp_canonical(acc.c2);
}

/// Evaluates `p` at `x` by Horner's rule.
pub fn fpeval_poly(p: &[Felt], x: &Felt) -> (r: Felt)
    requires
        fpoly_wf(p@),
        x.wf(),
    ensures
        r == fpoly_eval(p@, *x),
        r.wf(),
{
    let n = p.len();
    if n == 0 {
        return Felt::zero();
    }
    let mut result = p[n - 1];
    let mut i: usize = n - 1;
    assert(p@.subrange(n - 1, n as int).len() == 1);
    while i > 0
        invariant
            0 <= i < n,
            n == p@.len(),
            fpoly_wf(p@),
            x.wf(),
            result == fpoly_eval(p@.subrange(i as int, n as int), *x),
            result.wf(),
        decreases i,
    {
        let temp = fmul(&result, x);
        result = fadd(&temp, &p[i - 1]);
        assert(p@.subrange(i - 1, n as int).subrange(1, (n - i + 1) as int) =~= p@.subrange(
            i as int,
            n as int,
        ));
        i = i - 1;
    }
    assert(p@.subrange(0, n as int) =~= p@);
    result
}

/// q^i by repeated full convolution, starting from q^0 = [1].
pub open spec fn fpoly_pow(q: Seq<Felt>, i: nat) -> Seq<Felt>
    decreases i,
{
    if i == 0 {
        seq![felt_one()]
    } else {
        fpoly_mul(fpoly_pow(q, (i - 1) as nat), q)
    }
}

pub open spec fn fzeros(len: nat) -> Seq<Felt> {
    Seq::new(len, |j: int| felt_zero())
}

/// The first `n` terms of the sum of p[i] * q^i, each truncated to `len`
/// coefficients.
pub open spec fn compose_acc(p: Seq<Felt>, q: Seq<Felt>, n: nat, len: nat) -> Seq<Felt>
    decreases n,
{
    if n == 0 {
        fzeros(len)
    } else {
        let prev = compose_acc(p, q, (n - 1) as nat, len);
        let qp = fpoly_pow(q, (n - 1) as nat);
        Seq::new(len, |j: int| fadd_s(prev[j], fmul_s(p[n - 1], fcoef(qp, j))))
    }
}

/// p(q(x)) truncated to `len` coefficients; all zeros when either operand
/// is empty.
pub open spec fn fpoly_compose(p: Seq<Felt>, q: Seq<Felt>, len: nat) -> Seq<Felt> {
    if p.len() == 0 || q.len() == 0 {
        fzeros(len)
    } else {
        compose_acc(p, q, p.len(), len)
    }
}

/// A vector of `len` zeros.
fn zeros_fpoly(len: usize) -> (r: Vec<Felt>)
    ensures
        r@ == fzeros(len as nat),
        fpoly_wf(r@),
{
    let mut res: Vec<Felt> = Vec::new();
    let mut i: usize = 0;
    while i < len
        invariant
            i <= len,
            res@ == fzeros(i as nat),
        decreases len - i,
    {
        res.push(Felt::zero());
        assert(res@ =~= fzeros((i + 1) as nat));
        i = i + 1;
    }
    res
}

/// Composition p(q(x)), keeping the first `res_len` coefficients; the full
/// result has (deg p)(deg q) + 1 of them.
pub fn fpcompose_poly(p: &[Felt], q: &[Felt], res_len: usize) -> (r: Vec<Felt>)
    requires
        fpoly_wf(p@),
        fpoly_wf(q@),
        (p@.len() + 1) * (q@.len() + 1) <= usize::MAX,
    ensures
        r@ == fpoly_compose(p@, q@, res_len as nat),
        fpoly_wf(r@),
{
    let mut res = zeros_fpoly(res_len);
    let lp = p.len();
    let lq = q.len();
    if lp == 0 || lq == 0 {
        return res;
    }
    let mut q_power: Vec<Felt> = vec![Felt::one()];
    assert(q_power@ =~= fpoly_pow(q@, 0));
    let mut i: usize = 0;
    while i < lp
        invariant
            i <= lp,
            lp == p@.len(),
            lq == q@.len(),
            lp > 0,
            lq > 0,
            (lp + 1) * (lq + 1) <= usize::MAX,
            fpoly_wf(p@),
            fpoly_wf(q@),
            res@ == compose_acc(p@, q@, i as nat, res_len as nat),
            fpoly_wf(res@),
            i < lp ==> q_power@ == fpoly_pow(q@, i as nat),
            i < lp ==> q_power@.len() == i * (lq - 1) + 1,
            fpoly_wf(q_power@),
        decreases lp - i,
    {
        let ghost prev = res@;
        let mut j: usize = 0;
        while j < res_len
            invariant
                j <= res_len,
                i < lp,
                lp == p@.len(),
                fpoly_wf(p@),
                fpoly_wf(q_power@),
                res@.len() == res_len,
                prev.len() == res_len,
                fpoly_wf(res@),
                fpoly_wf(prev),
                forall|t: int| 0 <= t < j ==> #[trigger] res@[t] == fadd_s(prev[t], fmul_s(p@[i as int], fcoef(q_power@, t))),
                forall|t: int| j <= t < res_len ==> #[trigger] res@[t] == prev[t],
            decreases res_len - j,
        {
            if j < q_power.len() {
                let term = fmul(&p[i], &q_power[j]);
                let sum = fadd(&res[j], &term);
                res.set(j, sum);
            } else {
                proof {
                    lemma_add_zero_product(prev[j as int], p@[i as int], fcoef(q_power@, j as int));
                }
            }
            j = j + 1;
        }
        assert(res@ =~= compose_acc(p@, q@, (i + 1) as nat, res_len as nat));
        if i + 1 < lp {
            proof {
                assert((i + 1) * (lq - 1) + 1 + lq <= (lp + 1) * (lq + 1)) by (nonlinear_arith)
                    requires i + 1 < lp, lq > 0;
                assert((i + 1) * (lq - 1) + 1 == i * (lq - 1) + 1 + lq - 1) by (nonlinear_arith);
            }
            q_power = fpmul_poly(&q_power, q);
        }
        i = i + 1;
    }
    res
}

/// b(x) * (x - c) for a basis polynomial b, coefficient by coefficient.
pub open spec fn mul_linear(b: Seq<Felt>, c: Felt) -> Seq<Felt> {
    Seq::new(
        b.len() + 1,
        |k: int|
            if k < b.len() {
                fsub_s(fcoef(b, k - 1), fmul_s(c, b[k]))
            } else {
                b[k - 1]
            },
    )
}

/// The product of (d[i] - d[j]) over j < m other than i.
pub open spec fn lagrange_denom(d: Seq<Felt>, i: int, m: nat) -> Felt
    decreases m,
{
    if m == 0 {
        felt_one()
    } else {
        let prev = lagrange_denom(d, i, (m - 1) as nat);
        if m - 1 == i {
            prev
        } else {
            fmul_s(prev, fsub_s(d[i], d[m - 1]))
        }
    }
}

/// The product of (x - d[j]) over j < m other than i.
pub open spec fn lagrange_basis(d: Seq<Felt>, i: int, m: nat) -> Seq<Felt>
    decreases m,
{
    if m == 0 {
        seq![felt_one()]
    } else {
        let prev = lagrange_basis(d, i, (m - 1) as nat);
        if m - 1 == i {
            prev
        } else {
            mul_linear(prev, d[m - 1])
        }
    }
}

/// The first `i` Lagrange terms values[t] / denom_t * basis_t, summed
/// coefficient-wise over `n` coefficients.
pub open spec fn interp_acc(d: Seq<Felt>, v: Seq<Felt>, i: nat) -> Seq<Felt>
    decreases i,
{
    if i == 0 {
        fzeros(d.len())
    } else {
        let t = (i - 1) as int;
        let prev = interp_acc(d, v, (i - 1) as nat);
        let scale = fmul_s(v[t], finv_s(lagrange_denom(d, t, d.len())));
        let basis = lagrange_basis(d, t, d.len());
        Seq::new(d.len(), |k: int| fadd_s(prev[k], fmul_s(scale, fcoef(basis, k))))
    }
}

/// The Lagrange interpolation polynomial through (d[i], v[i]).
pub open spec fn fpoly_interpolate(d: Seq<Felt>, v: Seq<Felt>) -> Seq<Felt> {
    interp_acc(d, v, d.len())
}

fn lagrange_denom_exec(domain: &[Felt], i: usize) -> (r: Felt)
    requires
        fpoly_wf(domain@),
        i < domain@.len(),
    ensures
        r == lagrange_denom(domain@, i as int, domain@.len()),
        r.wf(),
{
    let mut denom = Felt::one();
    let mut j: usize = 0;
    while j < domain.len()
        invariant
            j <= domain@.len(),
            i < domain@.len(),
            fpoly_wf(domain@),
            denom == lagrange_denom(domain@, i as int, j as nat),
            denom.wf(),
        decreases domain@.len() - j,
    {
        if i != j {
            let diff = fsub(&domain[i], &domain[j]);
            denom = fmul(&denom, &diff);
        }
        j = j + 1;
    }
    denom
}

fn lagrange_basis_exec(domain: &[Felt], i: usize) -> (r: Vec<Felt>)
    requires
        fpoly_wf(domain@),
        i < domain@.len(),
        domain@.len() < usize::MAX,
    ensures
        r@ == lagrange_basis(domain@, i as int, domain@.len()),
        r@.len() == domain@.len(),
        fpoly_wf(r@),
{
    let mut basis: Vec<Felt> = vec![Felt::one()];
    assert(basis@ =~= lagrange_basis(domain@, i as int, 0));
    let mut j: usize = 0;
    while j < domain.len()
        invariant
            j <= domain@.len(),
            i < domain@.len(),
            domain@.len() < usize::MAX,
            fpoly_wf(domain@),
            basis@ == lagrange_basis(domain@, i as int, j as nat),
            basis@.len() == if i < j { j as int } else { j + 1 },
            fpoly_wf(basis@),
        decreases domain@.len() - j,
    {
        if i != j {
            let deg = basis.len();
            let mut new_basis: Vec<Felt> = Vec::new();
            let mut k: usize = 0;
            while k <= deg
                invariant
                    k <= deg + 1,
                    deg == basis@.len(),
                    deg > 0,
                    deg <= domain@.len() < usize::MAX,
                    j < domain@.len(),
                    fpoly_wf(domain@),
                    fpoly_wf(basis@),
                    new_basis@ == mul_linear(basis@, domain@[j as int]).subrange(0, k as int),
                    fpoly_wf(new_basis@),
                decreases deg + 1 - k,
            {
                let c = if k < deg {
                    let prev = if k > 0 { basis[k - 1] } else { Felt::zero() };
                    let prod = fmul(&domain[j], &basis[k]);
                    fsub(&prev, &prod)
                } else {
                    basis[k - 1]
                };
                new_basis.push(c);
                assert(new_basis@ =~= mul_linear(basis@, domain@[j as int]).subrange(0, k + 1));
                k = k + 1;
            }
            assert(new_basis@ =~= mul_linear(basis@, domain@[j as int]));
            basis = new_basis;
        }
        j = j + 1;
    }
    basis
}

/// Lagrange interpolation through the points (domain[i], values[i]), in
/// ascending coefficient order; sequences of different lengths are refused.
pub fn interpolate_poly(domain: &[Felt], values: &[Felt]) -> (r: Result<Vec<Felt>, KernelError>)
    requires
        fpoly_wf(domain@),
        fpoly_wf(values@),
        domain@.len() < usize::MAX,
    ensures
        domain@.len() == values@.len() ==> r == Ok::<Vec<Felt>, KernelError>(r.unwrap())
            && r.unwrap()@ == fpoly_interpolate(domain@, values@) && fpoly_wf(r.unwrap()@),
        domain@.len() != values@.len() ==> r == Err::<Vec<Felt>, KernelError>(
            KernelError::Precondition,
        ),
{
    if domain.len() != values.len() {
        return Err(KernelError::Precondition);
    }
    let n = domain.len();
    let mut res = zeros_fpoly(n);
    let mut i: usize = 0;
    while i < n
        invariant
            i <= n,
            n == domain@.len(),
            n == values@.len(),
            n < usize::MAX,
            fpoly_wf(domain@),
            fpoly_wf(values@),
            res@ == interp_acc(domain@, values@, i as nat),
            fpoly_wf(res@),
        decreases n - i,
    {
        let denom = lagrange_denom_exec(domain, i);
        let scale = fdiv(&values[i], &denom);
        let basis = lagrange_basis_exec(domain, i);
        let ghost prev = res@;
        let mut k: usize = 0;
        while k < n
            invariant
                k <= n,
                basis@.len() == n,
                res@.len() == n,
                prev.len() == n,
                scale.wf(),
                fpoly_wf(basis@),
                fpoly_wf(res@),
                forall|t: int| 0 <= t < k ==> #[trigger] res@[t] == fadd_s(prev[t], fmul_s(scale, fcoef(basis@, t))),
                forall|t: int| k <= t < n ==> #[trigger] res@[t] == prev[t],
            decreases n - k,
        {
            let term = fmul(&scale, &basis[k]);
            let sum = fadd(&res[k], &term);
            res.set(k, sum);
            k = k + 1;
        }
        assert(res@ =~= interp_acc(domain@, values@, (i + 1) as nat));
        i = i + 1;
    }
    Ok(res)
}

/// Multiplying by one and adding zero leave a well-formed element alone;
/// multiplying by zero gives zero.
proof fn lemma_felt_identities(x: Felt)
    requires
        x.wf(),
    ensures
        fmul_s(x, felt_one()) == x,
        fmul_s(x, felt_zero()) == felt_zero(),
        fmul_s(felt_zero(), x) == felt_zero(),
        fadd_s(felt_zero(), x) == x,
        fadd_s(x, felt_zero()) == x,
{
    let (x0, x1, x2) = (x.c0.val(), x.c1.val(), x.c2.val());
    assert(x0 * 1 == x0 && x1 * 1 == x1 && x2 * 1 == x2 && x0 * 0 == 0 && x1 * 0 == 0 && x2 * 0
        == 0 && 0 * x0 == 0 && 0 * x1 == 0 && 0 * x2 == 0 && 1 * x0 == x0) by (nonlinear_arith);
    assert(0int % (crate::belt::P as int) == 0);
    crate::belt::lemma_modp_canonical(x.c0);
    crate::belt::lemma_modp_canonical(x.c1);
    crate::belt::lemma_modp_canonical(x.c2);
}

/// The monomial x^m as a coefficient sequence.
pub open spec fn monomial(m: nat) -> Seq<Felt> {
    Seq::new(m + 1, |j: int| if j == m { felt_one() } else { felt_zero() })
}

/// The identity polynomial x.
pub open spec fn identity_poly() -> Seq<Felt> {
    seq![felt_zero(), felt_one()]
}

proof fn lemma_conv_monomial(m: nat, k: int, n: nat)
    ensures
        fconv_sum(monomial(m), identity_poly(), k, n) == if m < n && k == m + 1 {
            felt_one()
        } else {
            felt_zero()
        },
    decreases n,
{
    lemma_felt_identities(felt_one());
    lemma_felt_identities(felt_zero());
    if n > 0 {
        lemma_conv_monomial(m, k, (n - 1) as nat);
        let t = n - 1;
        let a = fcoef(monomial(m), t);
        let b = fcoef(identity_poly(), k - t);
        assert(a == felt_one() || a == felt_zero());
        assert(b == felt_one() || b == felt_zero());
        assert(a == felt_one() <==> t == m);
        assert(b == felt_one() <==> k - t == 1);
    }
}

proof fn lemma_pow_identity(i: nat)
    ensures
        fpoly_pow(identity_poly(), i) == monomial(i),
    decreases i,
{
    if i == 0 {
        assert(fpoly_pow(identity_poly(), 0) =~= monomial(0));
    } else {
        lemma_pow_identity((i - 1) as nat);
        let prev = monomial((i - 1) as nat);
        let r = fpoly_mul(prev, identity_poly());
        assert forall|k: int| 0 <= k < i + 1 implies r[k] == monomial(i)[k] by {
            lemma_conv_monomial((i - 1) as nat, k, (k + 1) as nat);
        }
        assert(r =~= monomial(i));
    }
}

proof fn lemma_compose_identity_acc(p: Seq<Felt>, n: nat, len: nat)
    requires
        fpoly_wf(p),
        n <= p.len(),
    ensures
        compose_acc(p, identity_poly(), n, len) == Seq::new(
            len,
            |j: int| if j < n { p[j] } else { felt_zero() },
        ),
    decreases n,
{
    lemma_felt_identities(felt_zero());
    if n == 0 {
        assert(compose_acc(p, identity_poly(), 0, len) =~= Seq::new(
            len,
            |j: int| if j < 0 { p[j] } else { felt_zero() },
        ));
    } else {
        lemma_compose_identity_acc(p, (n - 1) as nat, len);
        lemma_pow_identity((n - 1) as nat);
        let c = p[n - 1];
        lemma_felt_identities(c);
        assert forall|j: int| 0 <= j < len implies #[trigger] compose_acc(
            p,
            identity_poly(),
            n,
            len,
        )[j] == (if j < n { p[j] } else { felt_zero() }) by {
            if j < n - 1 {
                lemma_felt_identities(p[j]);
            }
        }
        assert(compose_acc(p, identity_poly(), n, len) =~= Seq::new(
            len,
            |j: int| if j < n { p[j] } else { felt_zero() },
        ));
    }
}

/// Composing with the identity polynomial x gives the polynomial back.
pub proof fn lemma_compose_identity(p: Seq<Felt>)
    requires
        fpoly_wf(p),
    ensures
        fpoly_compose(p, identity_poly(), p.len()) == p,
{
    if p.len() > 0 {
        lemma_compose_identity_acc(p, p.len(), p.len());
        assert(compose_acc(p, identity_poly(), p.len(), p.len()) =~= p);
    } else {
        assert(fzeros(0) =~= p);
    }
}

} // verus!
