//! Transforms of polynomials over the extension field at base-field roots
//! of unity: the recursive radix-2 transform acts on each coefficient
//! component separately.
use crate::belt::{binv, binv_s, bmul, bmul_s, bpow_s, lemma_modp_canonical, Belt, P};
use crate::bpoly::{lemma_bpow_step, poly_scal};
use crate::error::KernelError;
use crate::felt::{fadd, fadd_s, felt_lift, fmul, fmul_s, Felt};
use crate::fpoly::{fpoly_scal, fpoly_wf, fpscal_poly};
use crate::ntt::{
    canonical_root, canonical_root_exec, dft, evens, is_power_of_two, lemma_canonical_root_order,
    lemma_dft_one, lemma_inverse_root_order, lemma_ntt_combine, lemma_square_root_order, log2_exact,
    log2_nat, odds, MAX_LOG_ORDER,
};
use vstd::arithmetic::power::*;
use vstd::arithmetic::power2::*;
use vstd::prelude::*;

verus! {

/// Component `t` (0, 1 or 2) of every coefficient.
pub open spec fn component(p: Seq<Felt>, t: int) -> Seq<Belt> {
    Seq::new(
        p.len(),
        |j: int|
            if t == 0 {
                p[j].c0
            } else if t == 1 {
                p[j].c1
            } else {
                p[j].c2
            },
    )
}

/// The transform at the base-field root `w`, component by component: entry
/// k is p(w^k).
pub open spec fn fdft(p: Seq<Felt>, w: Belt) -> Seq<Felt> {
    Seq::new(
        p.len(),
        |k: int|
            Felt {
                c0: dft(component(p, 0), w)[k],
                c1: dft(component(p, 1), w)[k],
                c2: dft(component(p, 2), w)[k],
            },
    )
}

pub open spec fn fevens(p: Seq<Felt>) -> Seq<Felt> {
    Seq::new(p.len() / 2, |j: int| p[2 * j])
}

pub open spec fn fodds(p: Seq<Felt>) -> Seq<Felt> {
    Seq::new(p.len() / 2, |j: int| p[2 * j + 1])
}

/// A base-field element times an extension element scales each component.
proof fn lemma_fmul_lift(a: Belt, x: Felt)
    requires
        a.wf(),
        x.wf(),
    ensures
        fmul_s(felt_lift(a), x) == (Felt {
            c0: bmul_s(a, x.c0),
            c1: bmul_s(a, x.c1),
            c2: bmul_s(a, x.c2),
        }),
{
    let (x0, x1, x2) = (x.c0.val(), x.c1.val(), x.c2.val());
    let a0 = a.val();
    assert(0 * x0 == 0 && 0 * x1 == 0 && 0 * x2 == 0) by (nonlinear_arith);
    assert(a0 * x0 + 0 * x0 == a0 * x0);
}

proof fn lemma_components_split(p: Seq<Felt>, t: int)
    requires
        p.len() % 2 == 0,
    ensures
        component(fevens(p), t) == evens(component(p, t)),
        component(fodds(p), t) == odds(component(p, t)),
{
    assert(component(fevens(p), t) =~= evens(component(p, t)));
    assert(component(fodds(p), t) =~= odds(component(p, t)));
}

fn split_even_odd_felt(p: &[Felt]) -> (r: (Vec<Felt>, Vec<Felt>))
    requires
        p@.len() % 2 == 0,
        fpoly_wf(p@),
    ensures
        r.0@ == fevens(p@),
        r.1@ == fodds(p@),
        fpoly_wf(r.0@),
        fpoly_wf(r.1@),
{
    let n = p.len();
    let half = n / 2;
    let mut e: Vec<Felt> = Vec::new();
    let mut o: Vec<Felt> = Vec::new();
    let mut j: usize = 0;
    while j < half
        invariant
            half == p@.len() / 2,
            n == p@.len(),
            p@.len() % 2 == 0,
            j <= half,
            fpoly_wf(p@),
            e@ == fevens(p@).subrange(0, j as int),
            o@ == fodds(p@).subrange(0, j as int),
            fpoly_wf(e@),
            fpoly_wf(o@),
        decreases half - j,
    {
        e.push(p[2 * j]);
        o.push(p[2 * j + 1]);
        assert(e@ =~= fevens(p@).subrange(0, j + 1));
        assert(o@ =~= fodds(p@).subrange(0, j + 1));
        j = j + 1;
    }
    assert(e@ =~= fevens(p@));
    assert(o@ =~= fodds(p@));
    (e, o)
}

/// The recursive radix-2 transform of `p` at a base-field root: split into
/// even and odd coefficients, transform both at the squared root, and
/// combine entry i as even[i mod n/2] + root^i * odd[i mod n/2].
/// The root is taken from the base field: the extension is a field, and
/// each of its roots of unity of power-of-two order already lies in the base
/// field (its multiplicative group has order P^3 - 1, whose power of two is
/// that of P - 1), so no valid root is excluded.
pub fn fp_fft_recursive(p: &[Felt], root: &Felt) -> (r: Vec<Felt>)
    requires
        fpoly_wf(p@),
        root.wf(),
        root.c1 == Belt(0),
        root.c2 == Belt(0),
        is_power_of_two(p@.len() as nat),
        pow(root.c0.val(), p@.len() as nat) % (P as int) == 1,
    ensures
        r@ == fdft(p@, root.c0),
        fpoly_wf(r@),
    decreases p@.len(),
{
    let n = p.len();
    let w = root.c0;
    if n == 1 {
        proof {
            lemma_dft_one(component(p@, 0), w);
            lemma_dft_one(component(p@, 1), w);
            lemma_dft_one(component(p@, 2), w);
        }
        let r = vec![p[0]];
        assert(r@ =~= fdft(p@, w));
        return r;
    }
    let half = n / 2;
    let (e, o) = split_even_odd_felt(p);
    let w2 = bmul(w, w);
    let root2 = Felt::lift(w2);
    proof {
        lemma_square_root_order(w, half as nat);
    }
    let e_hat = fp_fft_recursive(e.as_slice(), &root2);
    let o_hat = fp_fft_recursive(o.as_slice(), &root2);
    let mut res: Vec<Felt> = Vec::new();
    let mut rp = Belt(1);
    proof {
        lemma_pow0(w.val());
        lemma_modp_canonical(Belt(1));
        lemma_components_split(p@, 0);
        lemma_components_split(p@, 1);
        lemma_components_split(p@, 2);
    }
    let mut i: usize = 0;
    while i < n
        invariant
            n == p@.len(),
            n == 2 * half,
            half > 0,
            i <= n,
            w.wf(),
            w2 == bmul_s(w, w),
            pow(w.val(), n as nat) % (P as int) == 1,
            fpoly_wf(p@),
            e_hat@ == fdft(fevens(p@), w2),
            o_hat@ == fdft(fodds(p@), w2),
            forall|t: int| component(fevens(p@), t) == evens(component(p@, t)),
            forall|t: int| component(fodds(p@), t) == odds(component(p@, t)),
            e_hat@.len() == half,
            o_hat@.len() == half,
            fpoly_wf(e_hat@),
            fpoly_wf(o_hat@),
            rp == bpow_s(w, i as nat),
            rp.wf(),
            res@ == fdft(p@, w).subrange(0, i as int),
            fpoly_wf(res@),
        decreases n - i,
    {
        proof {
            lemma_fmul_lift(rp, o_hat@[(i % half) as int]);
            lemma_ntt_combine(component(p@, 0), w, i as int, half as nat);
            lemma_ntt_combine(component(p@, 1), w, i as int, half as nat);
            lemma_ntt_combine(component(p@, 2), w, i as int, half as nat);
            lemma_bpow_step(w, i as nat);
        }
        let t = fmul(&Felt::lift(rp), &o_hat[i % half]);
        res.push(fadd(&e_hat[i % half], &t));
        assert(res@ =~= fdft(p@, w).subrange(0, i + 1));
        rp = bmul(rp, w);
        i = i + 1;
    }
    assert(res@ =~= fdft(p@, w));
    res
}

/// The canonical root of unity of order 2^log_n, in the extension field.
pub fn get_root_of_unity(log_n: usize) -> (r: Felt)
    requires
        log_n <= MAX_LOG_ORDER,
    ensures
        r == felt_lift(canonical_root(log_n as nat)),
        r.wf(),
{
    proof {
        lemma_canonical_root_order(log_n as nat);
    }
    Felt::lift(canonical_root_exec(log_n as u32))
}

/// The transform at the canonical root of order n = len(p); refused unless
/// n is a power of two no larger than 2^32.
pub fn fp_fft_poly(p: &[Felt]) -> (r: Result<Vec<Felt>, KernelError>)
    requires
        fpoly_wf(p@),
    ensures
        (is_power_of_two(p@.len() as nat) && p@.len() <= pow2(MAX_LOG_ORDER as nat)) ==> r is Ok
            && r->Ok_0@ == fdft(p@, canonical_root(log2_nat(p@.len() as nat))) && fpoly_wf(
            r->Ok_0@,
        ),
        !(is_power_of_two(p@.len() as nat) && p@.len() <= pow2(MAX_LOG_ORDER as nat)) ==> r
            == Err::<Vec<Felt>, KernelError>(KernelError::Precondition),
{
    let n = p.len();
    match log2_exact(n as u64) {
        Some(k) => {
            if k > MAX_LOG_ORDER {
                proof {
                    lemma_pow2_strictly_increases(MAX_LOG_ORDER as nat, k as nat);
                }
                return Err(KernelError::Precondition);
            }
            proof {
                if k < MAX_LOG_ORDER {
                    lemma_pow2_strictly_increases(k as nat, MAX_LOG_ORDER as nat);
                }
                lemma_canonical_root_order(k as nat);
            }
            let root = get_root_of_unity(k as usize);
            Ok(fp_fft_recursive(p, &root))
        },
        None => Err(KernelError::Precondition),
    }
}

/// The inverse transform: the transform at the inverse of the canonical
/// root of order n = len(p), every entry multiplied by 1/n; refused unless
/// n is a power of two no larger than 2^32.
pub fn fp_ifft_poly(p: &[Felt]) -> (r: Result<Vec<Felt>, KernelError>)
    requires
        fpoly_wf(p@),
    ensures
        (is_power_of_two(p@.len() as nat) && p@.len() <= pow2(MAX_LOG_ORDER as nat)) ==> r is Ok
            && r->Ok_0@ == fpoly_scal(
            felt_lift(binv_s(Belt(p@.len() as u64))),
            fdft(p@, binv_s(canonical_root(log2_nat(p@.len() as nat)))),
        ) && fpoly_wf(r->Ok_0@),
        !(is_power_of_two(p@.len() as nat) && p@.len() <= pow2(MAX_LOG_ORDER as nat)) ==> r
            == Err::<Vec<Felt>, KernelError>(KernelError::Precondition),
{
    let n = p.len();
    match log2_exact(n as u64) {
        Some(k) => {
            if k > MAX_LOG_ORDER {
                proof {
                    lemma_pow2_strictly_increases(MAX_LOG_ORDER as nat, k as nat);
                }
                return Err(KernelError::Precondition);
            }
            proof {
                if k < MAX_LOG_ORDER {
                    lemma_pow2_strictly_increases(k as nat, MAX_LOG_ORDER as nat);
                }
                lemma2_to64();
                lemma_canonical_root_order(k as nat);
                lemma_inverse_root_order(canonical_root(k as nat), n as nat);
            }
            let root = canonical_root_exec(k);
            let inv_root = Felt::lift(binv(root));
            let transformed = fp_fft_recursive(p, &inv_root);
            let inv_n = Felt::lift(binv(Belt(n as u64)));
            Ok(fpscal_poly(&inv_n, transformed.as_slice()))
        },
        None => Err(KernelError::Precondition),
    }
}

/// Transforming at the canonical root of order n = 2^k the inverse
/// transform of an extension-field polynomial gives it back.
pub proof fn lemma_fp_fft_ifft_round_trip(p: Seq<Felt>, k: nat)
    requires
        fpoly_wf(p),
        k <= MAX_LOG_ORDER,
        p.len() == pow2(k),
    ensures
        fdft(
            fpoly_scal(
                felt_lift(binv_s(Belt(p.len() as u64))),
                fdft(p, binv_s(canonical_root(k))),
            ),
            canonical_root(k),
        ) == p,
{
    let w = canonical_root(k);
    let v = binv_s(w);
    let c = binv_s(Belt(p.len() as u64));
    let x = fdft(p, v);
    let y = fpoly_scal(felt_lift(c), x);
    crate::belt::lemma_modp_wf(pow(Belt(p.len() as u64).val(), (P - 2) as nat));
    assert forall|t: int| 0 <= t < 3 implies #[trigger] component(y, t) == poly_scal(
        c,
        dft(component(p, t), v),
    ) by {
        assert forall|j: int| 0 <= j < y.len() implies component(y, t)[j] == poly_scal(
            c,
            dft(component(p, t), v),
        )[j] by {
            crate::belt::lemma_modp_wf(crate::ntt::dft_sum(component(p, 0), v.val(), j, p.len()));
            crate::belt::lemma_modp_wf(crate::ntt::dft_sum(component(p, 1), v.val(), j, p.len()));
            crate::belt::lemma_modp_wf(crate::ntt::dft_sum(component(p, 2), v.val(), j, p.len()));
            lemma_fmul_lift(c, x[j]);
        }
        assert(component(y, t) =~= poly_scal(c, dft(component(p, t), v)));
    }
    assert forall|t: int| 0 <= t < 3 implies crate::bpoly::bpoly_wf(#[trigger] component(p, t)) by {}
    crate::inversion::lemma_fft_ifft_round_trip(component(p, 0), k);
    crate::inversion::lemma_fft_ifft_round_trip(component(p, 1), k);
    crate::inversion::lemma_fft_ifft_round_trip(component(p, 2), k);
    assert(component(y, 0) == poly_scal(c, dft(component(p, 0), v)));
    assert(component(y, 1) == poly_scal(c, dft(component(p, 1), v)));
    assert(component(y, 2) == poly_scal(c, dft(component(p, 2), v)));
    assert forall|m: int| 0 <= m < p.len() implies #[trigger] fdft(y, w)[m] == p[m] by {
        assert(dft(component(y, 0), w)[m] == component(p, 0)[m]);
        assert(dft(component(y, 1), w)[m] == component(p, 1)[m]);
        assert(dft(component(y, 2), w)[m] == component(p, 2)[m]);
    }
    assert(fdft(y, w) =~= p);
}

} // verus!
