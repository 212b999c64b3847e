//! Entry points for the host interpreter: each takes the subject of a call,
//! reads its arguments from the sample (axis 6), runs the kernel operation
//! and encodes the result as a list. An argument of the wrong shape is a
//! decode error and no result is produced.
use crate::belt::{Belt, P};
use crate::bpoly::{
    bp_hadamard, bp_shift, bpadd, bpmul, bpneg, bpoly_wf, bpscal, bpsub, poly_add, poly_hadamard,
    poly_mul, poly_neg, poly_scal, poly_shift, poly_sub,
};
use crate::error::KernelError;
use crate::felt::Felt;
use crate::fpoly::{
    fpadd_poly, fpeval_poly, fpmul_poly, fpneg_poly, fpoly_add, fpoly_eval, fpoly_mul,
    fpoly_neg, fpoly_scal, fpoly_sub, fpoly_wf, fpscal_poly, fpsub_poly,
};
use crate::fft::{fdft, fp_fft_poly, fp_ifft_poly};
use crate::fpoly::{fpcompose_poly, fpoly_compose, fpoly_interpolate, interpolate_poly};
use crate::ntt::{
    bp_coseword, bp_eval, bp_fft, bp_ifft, bp_ntt, canonical_root, dft, is_power_of_two, log2_nat,
    MAX_LOG_ORDER,
};
use crate::belt::{binv_s, bmul_s, bpow_s};
use crate::mary::{mary_swag, mary_transpose, mary_weld, transpose_dat, Mary};
use crate::sponge::{hash_varlen, is_hash_varlen};
use crate::felt::felt_lift;
use vstd::arithmetic::power2::pow2;
use crate::montgomery::{
    mont_reduction, mont_reduction_s, montify, montify_s, montiply, montiply_s, RP,
};
use crate::noun::{
    belt_as_noun, belt_list, bpoly_to_list, felt_list, fpoly_to_list, hoon_list_to_vecbelt,
    hoon_list_to_vecfelt, noun_as_belt, noun_as_felt, noun_as_u128, noun_belt, noun_felt,
    noun_u128, noun_u64, Noun,
};
use vstd::prelude::*;

verus! {

/// The subtree at `axis`: 1 is the whole noun, 2a the head and 2a + 1 the
/// tail of the subtree at a.
pub open spec fn slot_s(n: Noun, axis: nat) -> Option<Noun>
    decreases axis,
{
    if axis == 0 {
        None
    } else if axis == 1 {
        Some(n)
    } else {
        match slot_s(n, axis / 2) {
            Some(Noun::Cell(h, t)) => Some(
                if axis % 2 == 0 {
                    *h
                } else {
                    *t
                },
            ),
            _ => None,
        }
    }
}

/// The subtree of `n` at `axis`, if there is one.
pub fn slot(n: &Noun, axis: u64) -> (r: Option<&Noun>)
    ensures
        match r {
            Some(x) => slot_s(*n, axis as nat) == Some(*x),
            None => slot_s(*n, axis as nat) is None,
        },
    decreases axis,
{
    if axis == 0 {
        return None;
    }
    if axis == 1 {
        return Some(n);
    }
    match slot(n, axis / 2) {
        Some(parent) => match parent {
            Noun::Cell(h, t) => if axis % 2 == 0 {
                Some(&**h)
            } else {
                Some(&**t)
            },
            Noun::Atom(_) => None,
        },
        None => None,
    }
}

/// The base-field polynomial given as a list at `axis`.
pub open spec fn belts_at(s: Noun, axis: nat) -> Option<Seq<Belt>> {
    match slot_s(s, axis) {
        Some(n) => belt_list(n),
        None => None,
    }
}

/// The extension-field polynomial given as a list at `axis`.
pub open spec fn felts_at(s: Noun, axis: nat) -> Option<Seq<Felt>> {
    match slot_s(s, axis) {
        Some(n) => felt_list(n),
        None => None,
    }
}

/// The base-field element at `axis`.
pub open spec fn belt_at(s: Noun, axis: nat) -> Option<Belt> {
    match slot_s(s, axis) {
        Some(n) => noun_belt(n),
        None => None,
    }
}

/// The extension-field element at `axis`.
pub open spec fn felt_at(s: Noun, axis: nat) -> Option<Felt> {
    match slot_s(s, axis) {
        Some(n) => noun_felt(n),
        None => None,
    }
}

fn belts_arg(s: &Noun, axis: u64) -> (r: Result<Vec<Belt>, KernelError>)
    ensures
        match belts_at(*s, axis as nat) {
            Some(p) => r is Ok && r->Ok_0@ == p && bpoly_wf(p),
            None => r == Err::<Vec<Belt>, KernelError>(KernelError::Decode),
        },
{
    match slot(s, axis) {
        Some(n) => hoon_list_to_vecbelt(n),
        None => Err(KernelError::Decode),
    }
}

fn felts_arg(s: &Noun, axis: u64) -> (r: Result<Vec<Felt>, KernelError>)
    ensures
        match felts_at(*s, axis as nat) {
            Some(p) => r is Ok && r->Ok_0@ == p && fpoly_wf(p),
            None => r == Err::<Vec<Felt>, KernelError>(KernelError::Decode),
        },
{
    match slot(s, axis) {
        Some(n) => hoon_list_to_vecfelt(n),
        None => Err(KernelError::Decode),
    }
}

fn belt_arg(s: &Noun, axis: u64) -> (r: Result<Belt, KernelError>)
    ensures
        match belt_at(*s, axis as nat) {
            Some(b) => r == Ok::<Belt, KernelError>(b) && b.wf(),
            None => r == Err::<Belt, KernelError>(KernelError::Decode),
        },
{
    match slot(s, axis) {
        Some(n) => match noun_as_belt(n) {
            Some(b) => Ok(b),
            None => Err(KernelError::Decode),
        },
        None => Err(KernelError::Decode),
    }
}

fn felt_arg(s: &Noun, axis: u64) -> (r: Result<Felt, KernelError>)
    ensures
        match felt_at(*s, axis as nat) {
            Some(f) => r == Ok::<Felt, KernelError>(f) && f.wf(),
            None => r == Err::<Felt, KernelError>(KernelError::Decode),
        },
{
    match slot(s, axis) {
        Some(n) => match noun_as_felt(n) {
            Some(f) => Ok(f),
            None => Err(KernelError::Decode),
        },
        None => Err(KernelError::Decode),
    }
}

/// Sum of the two polynomials of the sample [p q].
pub fn bpadd_jet(subject: &Noun) -> (r: Result<Noun, KernelError>)
    ensures
        match (belts_at(*subject, 12), belts_at(*subject, 13)) {
            (Some(p), Some(q)) => r is Ok && belt_list(r->Ok_0) == Some(poly_add(p, q)),
            _ => r == Err::<Noun, KernelError>(KernelError::Decode),
        },
{
    let p = belts_arg(subject, 12);
    let q = belts_arg(subject, 13);
    match (p, q) {
        (Ok(p), Ok(q)) => Ok(bpoly_to_list(bpadd(p.as_slice(), q.as_slice()).as_slice())),
        _ => Err(KernelError::Decode),
    }
}

/// Difference of the two polynomials of the sample [p q].
pub fn bpsub_jet(subject: &Noun) -> (r: Result<Noun, KernelError>)
    ensures
        match (belts_at(*subject, 12), belts_at(*subject, 13)) {
            (Some(p), Some(q)) => r is Ok && belt_list(r->Ok_0) == Some(poly_sub(p, q)),
            _ => r == Err::<Noun, KernelError>(KernelError::Decode),
        },
{
    let p = belts_arg(subject, 12);
    let q = belts_arg(subject, 13);
    match (p, q) {
        (Ok(p), Ok(q)) => Ok(bpoly_to_list(bpsub(p.as_slice(), q.as_slice()).as_slice())),
        _ => Err(KernelError::Decode),
    }
}

/// Negation of the polynomial that is the sample.
pub fn bpneg_jet(subject: &Noun) -> (r: Result<Noun, KernelError>)
    ensures
        match belts_at(*subject, 6) {
            Some(p) => r is Ok && belt_list(r->Ok_0) == Some(poly_neg(p)),
            None => r == Err::<Noun, KernelError>(KernelError::Decode),
        },
{
    let p = belts_arg(subject, 6)?;
    Ok(bpoly_to_list(bpneg(p.as_slice()).as_slice()))
}

/// The polynomial q of the sample [c q] scaled by c.
pub fn bpscal_jet(subject: &Noun) -> (r: Result<Noun, KernelError>)
    ensures
        match (belt_at(*subject, 12), belts_at(*subject, 13)) {
            (Some(c), Some(q)) => r is Ok && belt_list(r->Ok_0) == Some(poly_scal(c, q)),
            _ => r == Err::<Noun, KernelError>(KernelError::Decode),
        },
{
    let c = belt_arg(subject, 12);
    let q = belts_arg(subject, 13);
    match (c, q) {
        (Ok(c), Ok(q)) => Ok(bpoly_to_list(bpscal(c, q.as_slice()).as_slice())),
        _ => Err(KernelError::Decode),
    }
}

/// Product of the two polynomials of the sample [p q].
pub fn bpmul_jet(subject: &Noun) -> (r: Result<Noun, KernelError>)
    ensures
        match (belts_at(*subject, 12), belts_at(*subject, 13)) {
            (Some(p), Some(q)) => if p.len() + q.len() <= usize::MAX {
                r is Ok && belt_list(r->Ok_0) == Some(poly_mul(p, q))
            } else {
                r == Err::<Noun, KernelError>(KernelError::Precondition)
            },
            _ => r == Err::<Noun, KernelError>(KernelError::Decode),
        },
{
    let p = belts_arg(subject, 12);
    let q = belts_arg(subject, 13);
    match (p, q) {
        (Ok(p), Ok(q)) => {
            if p.len() > usize::MAX - q.len() {
                return Err(KernelError::Precondition);
            }
            Ok(bpoly_to_list(bpmul(p.as_slice(), q.as_slice()).as_slice()))
        },
        _ => Err(KernelError::Decode),
    }
}

/// Index-wise product of the two polynomials of the sample [p q], which must
/// have one length.
pub fn bp_hadamard_jet(subject: &Noun) -> (r: Result<Noun, KernelError>)
    ensures
        match (belts_at(*subject, 12), belts_at(*subject, 13)) {
            (Some(p), Some(q)) => if p.len() == q.len() {
                r is Ok && belt_list(r->Ok_0) == Some(poly_hadamard(p, q))
            } else {
                r == Err::<Noun, KernelError>(KernelError::Precondition)
            },
            _ => r == Err::<Noun, KernelError>(KernelError::Decode),
        },
{
    let p = belts_arg(subject, 12);
    let q = belts_arg(subject, 13);
    match (p, q) {
        (Ok(p), Ok(q)) => {
            let h = bp_hadamard(p.as_slice(), q.as_slice())?;
            Ok(bpoly_to_list(h.as_slice()))
        },
        _ => Err(KernelError::Decode),
    }
}

/// p(c x) for the sample [p c].
pub fn bp_shift_jet(subject: &Noun) -> (r: Result<Noun, KernelError>)
    ensures
        match (belts_at(*subject, 12), belt_at(*subject, 13)) {
            (Some(p), Some(c)) => r is Ok && belt_list(r->Ok_0) == Some(poly_shift(p, c)),
            _ => r == Err::<Noun, KernelError>(KernelError::Decode),
        },
{
    let p = belts_arg(subject, 12);
    let c = belt_arg(subject, 13);
    match (p, c) {
        (Ok(p), Ok(c)) => Ok(bpoly_to_list(bp_shift(p.as_slice(), c).as_slice())),
        _ => Err(KernelError::Decode),
    }
}

/// A polynomial from the list of canonical elements that is the sample.
pub fn init_bpoly_jet(subject: &Noun) -> (r: Result<Vec<Belt>, KernelError>)
    ensures
        match belts_at(*subject, 6) {
            Some(p) => r is Ok && r->Ok_0@ == p,
            None => r == Err::<Vec<Belt>, KernelError>(KernelError::Decode),
        },
{
    belts_arg(subject, 6)
}

/// Sum of the two extension-field polynomials of the sample [p q].
pub fn fp_add_jet(subject: &Noun) -> (r: Result<Noun, KernelError>)
    ensures
        match (felts_at(*subject, 12), felts_at(*subject, 13)) {
            (Some(p), Some(q)) => r is Ok && felt_list(r->Ok_0) == Some(fpoly_add(p, q)),
            _ => r == Err::<Noun, KernelError>(KernelError::Decode),
        },
{
    let p = felts_arg(subject, 12);
    let q = felts_arg(subject, 13);
    match (p, q) {
        (Ok(p), Ok(q)) => Ok(fpoly_to_list(fpadd_poly(p.as_slice(), q.as_slice()).as_slice())),
        _ => Err(KernelError::Decode),
    }
}

/// Difference of the two extension-field polynomials of the sample [p q].
pub fn fp_sub_jet(subject: &Noun) -> (r: Result<Noun, KernelError>)
    ensures
        match (felts_at(*subject, 12), felts_at(*subject, 13)) {
            (Some(p), Some(q)) => r is Ok && felt_list(r->Ok_0) == Some(fpoly_sub(p, q)),
            _ => r == Err::<Noun, KernelError>(KernelError::Decode),
        },
{
    let p = felts_arg(subject, 12);
    let q = felts_arg(subject, 13);
    match (p, q) {
        (Ok(p), Ok(q)) => Ok(fpoly_to_list(fpsub_poly(p.as_slice(), q.as_slice()).as_slice())),
        _ => Err(KernelError::Decode),
    }
}

/// Negation of the extension-field polynomial that is the sample.
pub fn fp_neg_jet(subject: &Noun) -> (r: Result<Noun, KernelError>)
    ensures
        match felts_at(*subject, 6) {
            Some(p) => r is Ok && felt_list(r->Ok_0) == Some(fpoly_neg(p)),
            None => r == Err::<Noun, KernelError>(KernelError::Decode),
        },
{
    let p = felts_arg(subject, 6)?;
    Ok(fpoly_to_list(fpneg_poly(p.as_slice()).as_slice()))
}

/// The polynomial q of the sample [c q] scaled by the extension element c.
pub fn fp_scal_jet(subject: &Noun) -> (r: Result<Noun, KernelError>)
    ensures
        match (felt_at(*subject, 12), felts_at(*subject, 13)) {
            (Some(c), Some(q)) => r is Ok && felt_list(r->Ok_0) == Some(fpoly_scal(c, q)),
            _ => r == Err::<Noun, KernelError>(KernelError::Decode),
        },
{
    let c = felt_arg(subject, 12);
    let q = felts_arg(subject, 13);
    match (c, q) {
        (Ok(c), Ok(q)) => Ok(fpoly_to_list(fpscal_poly(&c, q.as_slice()).as_slice())),
        _ => Err(KernelError::Decode),
    }
}

/// Product of the two extension-field polynomials of the sample [p q].
pub fn fp_mul_jet(subject: &Noun) -> (r: Result<Noun, KernelError>)
    ensures
        match (felts_at(*subject, 12), felts_at(*subject, 13)) {
            (Some(p), Some(q)) => if p.len() + q.len() <= usize::MAX {
                r is Ok && felt_list(r->Ok_0) == Some(fpoly_mul(p, q))
            } else {
                r == Err::<Noun, KernelError>(KernelError::Precondition)
            },
            _ => r == Err::<Noun, KernelError>(KernelError::Decode),
        },
{
    let p = felts_arg(subject, 12);
    let q = felts_arg(subject, 13);
    match (p, q) {
        (Ok(p), Ok(q)) => {
            if p.len() > usize::MAX - q.len() {
                return Err(KernelError::Precondition);
            }
            Ok(fpoly_to_list(fpmul_poly(p.as_slice(), q.as_slice()).as_slice()))
        },
        _ => Err(KernelError::Decode),
    }
}

/// p(x) for the sample [p x], as a packed atom.
pub fn fp_eval_jet(subject: &Noun) -> (r: Result<Noun, KernelError>)
    ensures
        match (felts_at(*subject, 12), felt_at(*subject, 13)) {
            (Some(p), Some(x)) => r is Ok && noun_felt(r->Ok_0) == Some(fpoly_eval(p, x)),
            _ => r == Err::<Noun, KernelError>(KernelError::Decode),
        },
{
    let p = felts_arg(subject, 12);
    let x = felt_arg(subject, 13);
    match (p, x) {
        (Ok(p), Ok(x)) => {
            let v = fpeval_poly(p.as_slice(), &x);
            Ok(Noun::Atom(vec![v.c0.0, v.c1.0, v.c2.0]))
        },
        _ => Err(KernelError::Decode),
    }
}

/// x carried into the Montgomery domain, for the sample x.
pub fn montify_jet(subject: &Noun) -> (r: Result<Noun, KernelError>)
    ensures
        match belt_at(*subject, 6) {
            Some(x) => r is Ok && noun_u64(r->Ok_0) == Some(montify_s(x).0),
            None => r == Err::<Noun, KernelError>(KernelError::Decode),
        },
{
    let x = belt_arg(subject, 6)?;
    Ok(belt_as_noun(montify(x)))
}

/// The Montgomery product of the sample [a b].
pub fn montiply_jet(subject: &Noun) -> (r: Result<Noun, KernelError>)
    ensures
        match (belt_at(*subject, 12), belt_at(*subject, 13)) {
            (Some(a), Some(b)) => r is Ok && noun_u64(r->Ok_0) == Some(montiply_s(a, b).0),
            _ => r == Err::<Noun, KernelError>(KernelError::Decode),
        },
{
    let a = belt_arg(subject, 12);
    let b = belt_arg(subject, 13);
    match (a, b) {
        (Ok(a), Ok(b)) => Ok(belt_as_noun(montiply(a, b))),
        _ => Err(KernelError::Decode),
    }
}

/// Montgomery reduction of the sample x, which must lie below R * P.
pub fn mont_reduction_jet(subject: &Noun) -> (r: Result<Noun, KernelError>)
    ensures
        match slot_s(*subject, 6) {
            Some(n) => match noun_u128(n) {
                Some(x) => if x < RP {
                    r is Ok && noun_u64(r->Ok_0) == Some(mont_reduction_s(x as int).0)
                } else {
                    r == Err::<Noun, KernelError>(KernelError::Precondition)
                },
                None => r == Err::<Noun, KernelError>(KernelError::Decode),
            },
            None => r == Err::<Noun, KernelError>(KernelError::Decode),
        },
{
    let n = match slot(subject, 6) {
        Some(n) => n,
        None => {
            return Err(KernelError::Decode);
        },
    };
    let x = match noun_as_u128(n) {
        Some(x) => x,
        None => {
            return Err(KernelError::Decode);
        },
    };
    if x >= RP {
        return Err(KernelError::Precondition);
    }
    Ok(belt_as_noun(mont_reduction(x)))
}

/// The transform of the sample [p root]; refused unless the length n of p
/// is a power of two with root^n = 1.
pub fn bp_ntt_jet(subject: &Noun) -> (r: Result<Noun, KernelError>)
    ensures
        match (belts_at(*subject, 12), belt_at(*subject, 13)) {
            (Some(p), Some(w)) => if is_power_of_two(p.len()) && bpow_s(w, p.len()) == Belt(1) {
                r is Ok && belt_list(r->Ok_0) == Some(dft(p, w))
            } else {
                r == Err::<Noun, KernelError>(KernelError::Precondition)
            },
            _ => r == Err::<Noun, KernelError>(KernelError::Decode),
        },
{
    let p = belts_arg(subject, 12);
    let w = belt_arg(subject, 13);
    match (p, w) {
        (Ok(p), Ok(w)) => {
            let t = bp_ntt(p.as_slice(), w)?;
            Ok(bpoly_to_list(t.as_slice()))
        },
        _ => Err(KernelError::Decode),
    }
}

/// The transform of the sample p at the canonical root of order len(p).
pub fn bp_fft_jet(subject: &Noun) -> (r: Result<Noun, KernelError>)
    ensures
        match belts_at(*subject, 6) {
            Some(p) => if is_power_of_two(p.len()) && p.len() <= pow2(MAX_LOG_ORDER as nat) {
                r is Ok && belt_list(r->Ok_0) == Some(dft(p, canonical_root(log2_nat(p.len()))))
            } else {
                r == Err::<Noun, KernelError>(KernelError::Precondition)
            },
            None => r == Err::<Noun, KernelError>(KernelError::Decode),
        },
{
    let p = belts_arg(subject, 6)?;
    let t = bp_fft(p.as_slice())?;
    Ok(bpoly_to_list(t.as_slice()))
}

/// The inverse transform of the sample p.
pub fn bp_ifft_jet(subject: &Noun) -> (r: Result<Noun, KernelError>)
    ensures
        match belts_at(*subject, 6) {
            Some(p) => if is_power_of_two(p.len()) && p.len() <= pow2(MAX_LOG_ORDER as nat) {
                r is Ok && belt_list(r->Ok_0) == Some(
                    poly_scal(
                        binv_s(Belt(p.len() as u64)),
                        dft(p, binv_s(canonical_root(log2_nat(p.len())))),
                    ),
                )
            } else {
                r == Err::<Noun, KernelError>(KernelError::Precondition)
            },
            None => r == Err::<Noun, KernelError>(KernelError::Decode),
        },
{
    let p = belts_arg(subject, 6)?;
    let t = bp_ifft(p.as_slice())?;
    Ok(bpoly_to_list(t.as_slice()))
}

/// The evaluations of p on the coset offset * w^i, i < order, for the
/// sample [p offset order].
pub fn bp_coseword_jet(subject: &Noun) -> (r: Result<Noun, KernelError>)
    ensures
        match (belts_at(*subject, 12), belt_at(*subject, 26), slot_s(*subject, 27)) {
            (Some(p), Some(offset), Some(o)) => match noun_u64(o) {
                Some(order) => if order > u32::MAX {
                    r == Err::<Noun, KernelError>(KernelError::Decode)
                } else if is_power_of_two(order as nat) && order <= pow2(MAX_LOG_ORDER as nat) {
                    r is Ok && belt_list(r->Ok_0) == Some(
                        Seq::new(
                            order as nat,
                            |i: int|
                                bp_eval(
                                    p,
                                    bmul_s(
                                        offset,
                                        bpow_s(canonical_root(log2_nat(order as nat)), i as nat),
                                    ),
                                ),
                        ),
                    )
                } else {
                    r == Err::<Noun, KernelError>(KernelError::Precondition)
                },
                None => r == Err::<Noun, KernelError>(KernelError::Decode),
            },
            _ => r == Err::<Noun, KernelError>(KernelError::Decode),
        },
{
    let p = belts_arg(subject, 12);
    let offset = belt_arg(subject, 26);
    let o = slot(subject, 27);
    match (p, offset, o) {
        (Ok(p), Ok(offset), Some(o)) => match crate::noun::noun_as_u64(o) {
            Some(order) => {
                if order > u32::MAX as u64 {
                    return Err(KernelError::Decode);
                }
                let t = bp_coseword(p.as_slice(), offset, order as u32)?;
                Ok(bpoly_to_list(t.as_slice()))
            },
            None => Err(KernelError::Decode),
        },
        _ => Err(KernelError::Decode),
    }
}

/// The transform of the extension-field polynomial that is the sample.
pub fn fp_fft_jet(subject: &Noun) -> (r: Result<Noun, KernelError>)
    ensures
        match felts_at(*subject, 6) {
            Some(p) => if is_power_of_two(p.len()) && p.len() <= pow2(MAX_LOG_ORDER as nat) {
                r is Ok && felt_list(r->Ok_0) == Some(fdft(p, canonical_root(log2_nat(p.len()))))
            } else {
                r == Err::<Noun, KernelError>(KernelError::Precondition)
            },
            None => r == Err::<Noun, KernelError>(KernelError::Decode),
        },
{
    let p = felts_arg(subject, 6)?;
    let t = fp_fft_poly(p.as_slice())?;
    Ok(fpoly_to_list(t.as_slice()))
}

/// The inverse transform of the extension-field polynomial that is the
/// sample.
pub fn fp_ifft_jet(subject: &Noun) -> (r: Result<Noun, KernelError>)
    ensures
        match felts_at(*subject, 6) {
            Some(p) => if is_power_of_two(p.len()) && p.len() <= pow2(MAX_LOG_ORDER as nat) {
                r is Ok && felt_list(r->Ok_0) == Some(
                    fpoly_scal(
                        felt_lift(binv_s(Belt(p.len() as u64))),
                        fdft(p, binv_s(canonical_root(log2_nat(p.len())))),
                    ),
                )
            } else {
                r == Err::<Noun, KernelError>(KernelError::Precondition)
            },
            None => r == Err::<Noun, KernelError>(KernelError::Decode),
        },
{
    let p = felts_arg(subject, 6)?;
    let t = fp_ifft_poly(p.as_slice())?;
    Ok(fpoly_to_list(t.as_slice()))
}

/// The interpolation polynomial through the points of the sample
/// [domain values]; the two lists must have one length.
pub fn interpolate_jet(subject: &Noun) -> (r: Result<Noun, KernelError>)
    ensures
        match (felts_at(*subject, 12), felts_at(*subject, 13)) {
            (Some(d), Some(v)) => if d.len() == v.len() && d.len() < usize::MAX {
                r is Ok && felt_list(r->Ok_0) == Some(fpoly_interpolate(d, v))
            } else {
                r == Err::<Noun, KernelError>(KernelError::Precondition)
            },
            _ => r == Err::<Noun, KernelError>(KernelError::Decode),
        },
{
    let d = felts_arg(subject, 12);
    let v = felts_arg(subject, 13);
    match (d, v) {
        (Ok(d), Ok(v)) => {
            if d.len() == usize::MAX {
                return Err(KernelError::Precondition);
            }
            let t = interpolate_poly(d.as_slice(), v.as_slice())?;
            Ok(fpoly_to_list(t.as_slice()))
        },
        _ => Err(KernelError::Decode),
    }
}

/// The number of coefficients of p(q(x)): (deg p)(deg q) + 1, or zero when
/// either is empty.
pub open spec fn compose_len(lp: nat, lq: nat) -> nat {
    if lp == 0 || lq == 0 {
        0
    } else {
        ((lp - 1) * (lq - 1) + 1) as nat
    }
}

/// p(q(x)) for the sample [p q], in full.
pub fn fpcompose_jet(subject: &Noun) -> (r: Result<Noun, KernelError>)
    ensures
        match (felts_at(*subject, 12), felts_at(*subject, 13)) {
            (Some(p), Some(q)) => if (p.len() + 1) * (q.len() + 1) <= usize::MAX {
                r is Ok && felt_list(r->Ok_0) == Some(
                    fpoly_compose(p, q, compose_len(p.len(), q.len())),
                )
            } else {
                r == Err::<Noun, KernelError>(KernelError::Precondition)
            },
            _ => r == Err::<Noun, KernelError>(KernelError::Decode),
        },
{
    let p = felts_arg(subject, 12);
    let q = felts_arg(subject, 13);
    match (p, q) {
        (Ok(p), Ok(q)) => {
            let lp = p.len();
            let lq = q.len();
            if lp >= usize::MAX || lq >= usize::MAX {
                proof {
                    assert((lp + 1) * (lq + 1) > usize::MAX) by (nonlinear_arith)
                        requires lp >= usize::MAX || lq >= usize::MAX, lp >= 0, lq >= 0;
                }
                return Err(KernelError::Precondition);
            }
            if (lp + 1).checked_mul(lq + 1).is_none() {
                return Err(KernelError::Precondition);
            }
            proof {
                if lp >= 1 && lq >= 1 {
                    assert((lp - 1) * (lq - 1) + 1 <= (lp + 1) * (lq + 1)) by (nonlinear_arith)
                        requires lp >= 1, lq >= 1;
                }
            }
            let res_len = if lp == 0 || lq == 0 {
                0
            } else {
                (lp - 1) * (lq - 1) + 1
            };
            let t = fpcompose_poly(p.as_slice(), q.as_slice(), res_len);
            Ok(fpoly_to_list(t.as_slice()))
        },
        _ => Err(KernelError::Decode),
    }
}

/// A table given as [step [len buffer]]: its row width, its row count and
/// a list of `step * len` canonical elements.
pub open spec fn mary_at(s: Noun, axis: nat) -> Option<(nat, nat, Seq<Belt>)> {
    match slot_s(s, axis) {
        Some(Noun::Cell(h, t)) => match *t {
            Noun::Cell(l, b) => match (noun_u64(*h), noun_u64(*l), belt_list(*b)) {
                (Some(step), Some(len), Some(dat)) => if step <= usize::MAX && len <= usize::MAX
                    && dat.len() == step * len {
                    Some((step as nat, len as nat, dat))
                } else {
                    None
                },
                _ => None,
            },
            Noun::Atom(_) => None,
        },
        _ => None,
    }
}

/// Whether `n` encodes the table of row width `step`, `len` rows and buffer
/// `dat`.
pub open spec fn encodes_mary(n: Noun, step: nat, len: nat, dat: Seq<Belt>) -> bool {
    match n {
        Noun::Cell(h, t) => match *t {
            Noun::Cell(l, b) => noun_u64(*h) == Some(step as u64) && noun_u64(*l) == Some(
                len as u64,
            ) && belt_list(*b) == Some(dat),
            Noun::Atom(_) => false,
        },
        Noun::Atom(_) => false,
    }
}

fn mary_arg(s: &Noun, axis: u64) -> (r: Result<Mary, KernelError>)
    ensures
        match mary_at(*s, axis as nat) {
            Some((step, len, dat)) => r is Ok && r->Ok_0.wf() && r->Ok_0.step == step
                && r->Ok_0.len == len && r->Ok_0.dat@ == dat && bpoly_wf(dat),
            None => r == Err::<Mary, KernelError>(KernelError::Decode),
        },
{
    let n = match slot(s, axis) {
        Some(n) => n,
        None => {
            return Err(KernelError::Decode);
        },
    };
    match n {
        Noun::Cell(h, t) => match &**t {
            Noun::Cell(l, b) => {
                let step = match crate::noun::noun_as_u64(h) {
                    Some(v) => v,
                    None => {
                        return Err(KernelError::Decode);
                    },
                };
                let len = match crate::noun::noun_as_u64(l) {
                    Some(v) => v,
                    None => {
                        return Err(KernelError::Decode);
                    },
                };
                let dat = match hoon_list_to_vecbelt(b) {
                    Ok(d) => d,
                    Err(e) => {
                        return Err(e);
                    },
                };
                if step as u128 > usize::MAX as u128 || len as u128 > usize::MAX as u128 {
                    return Err(KernelError::Decode);
                }
                let step = step as usize;
                let len = len as usize;
                if step != 0 && dat.len() % step != 0 {
                    proof {
                        assert(dat@.len() != step * len) by {
                            if dat@.len() == step * len {
                                vstd::arithmetic::div_mod::lemma_mod_multiples_basic(
                                    len as int,
                                    step as int,
                                );
                                assert(len * step == step * len) by (nonlinear_arith);
                            }
                        }
                    }
                    return Err(KernelError::Decode);
                }
                let rows = if step == 0 {
                    0
                } else {
                    dat.len() / step
                };
                if step == 0 && dat.len() != 0 {
                    proof {
                        assert(step * len == 0) by (nonlinear_arith)
                            requires step == 0;
                    }
                    return Err(KernelError::Decode);
                }
                if step != 0 && rows != len {
                    proof {
                        vstd::arithmetic::div_mod::lemma_fundamental_div_mod(
                            dat@.len() as int,
                            step as int,
                        );
                        if dat@.len() == step * len {
                            assert(len * step == step * len) by (nonlinear_arith);
                            vstd::arithmetic::div_mod::lemma_fundamental_div_mod_converse(
                                dat@.len() as int,
                                step as int,
                                len as int,
                                0,
                            );
                        }
                    }
                    return Err(KernelError::Decode);
                }
                proof {
                    if step == 0 {
                        assert(step * len == 0) by (nonlinear_arith)
                            requires step == 0;
                    } else {
                        vstd::arithmetic::div_mod::lemma_fundamental_div_mod(
                            dat@.len() as int,
                            step as int,
                        );
                        assert(dat@.len() == step * len);
                    }
                }
                Ok(Mary { step, len, dat })
            },
            Noun::Atom(_) => Err(KernelError::Decode),
        },
        Noun::Atom(_) => Err(KernelError::Decode),
    }
}

fn mary_to_noun(m: &Mary) -> (r: Noun)
    requires
        bpoly_wf(m.dat@),
    ensures
        encodes_mary(r, m.step as nat, m.len as nat, m.dat@),
{
    let step = Noun::Atom(vec![m.step as u64]);
    let len = Noun::Atom(vec![m.len as u64]);
    let dat = bpoly_to_list(m.dat.as_slice());
    Noun::Cell(Box::new(step), Box::new(Noun::Cell(Box::new(len), Box::new(dat))))
}

/// The rows i .. i + j of the table of the door, for the sample [i j].
pub fn mary_swag_jet(subject: &Noun) -> (r: Result<Noun, KernelError>)
    ensures
        match (mary_at(*subject, 30), slot_s(*subject, 12), slot_s(*subject, 13)) {
            (Some((step, len, dat)), Some(a), Some(b)) => match (noun_u64(a), noun_u64(b)) {
                (Some(i), Some(j)) => if i + j <= len {
                    r is Ok && encodes_mary(
                        r->Ok_0,
                        step,
                        j as nat,
                        dat.subrange(i * step, (i + j) * step),
                    )
                } else {
                    r == Err::<Noun, KernelError>(KernelError::Precondition)
                },
                _ => r == Err::<Noun, KernelError>(KernelError::Decode),
            },
            _ => r == Err::<Noun, KernelError>(KernelError::Decode),
        },
{
    let m = mary_arg(subject, 30);
    let a = slot(subject, 12);
    let b = slot(subject, 13);
    match (m, a, b) {
        (Ok(m), Some(a), Some(b)) => match (crate::noun::noun_as_u64(a), crate::noun::noun_as_u64(b)) {
            (Some(i), Some(j)) => {
                if i as u128 > m.len as u128 || j as u128 > m.len as u128 - i as u128 {
                    return Err(KernelError::Precondition);
                }
                let s = mary_swag(&m, i as usize, j as usize)?;
                proof {
                    let iu = i as usize;
                    let ju = j as usize;
                    let lo = iu * m.step;
                    let hi = (iu + ju) * m.step;
                    assert(hi <= m.len * m.step && lo <= hi) by (nonlinear_arith)
                        requires iu + ju <= m.len, lo == iu * m.step, hi == (iu + ju) * m.step;
                    assert(m.len * m.step == m.step * m.len) by (nonlinear_arith);
                    assert(s.dat@ == m.dat@.subrange(lo as int, hi as int));
                    assert forall|x: int| 0 <= x < s.dat@.len() implies (#[trigger] s.dat@[x]).wf() by {
                        assert(s.dat@[x] == m.dat@[lo + x]);
                    }
                }
                Ok(mary_to_noun(&s))
            },
            _ => Err(KernelError::Decode),
        },
        _ => Err(KernelError::Decode),
    }
}

/// The rows of the table of the door followed by those of the sample table.
pub fn mary_weld_jet(subject: &Noun) -> (r: Result<Noun, KernelError>)
    ensures
        match (mary_at(*subject, 30), mary_at(*subject, 6)) {
            (Some((s1, l1, d1)), Some((s2, l2, d2))) => if s1 == s2 && l1 + l2 <= usize::MAX {
                r is Ok && encodes_mary(r->Ok_0, s1, l1 + l2, d1 + d2)
            } else {
                r == Err::<Noun, KernelError>(KernelError::Precondition)
            },
            _ => r == Err::<Noun, KernelError>(KernelError::Decode),
        },
{
    let m1 = mary_arg(subject, 30);
    let m2 = mary_arg(subject, 6);
    match (m1, m2) {
        (Ok(m1), Ok(m2)) => {
            let w = mary_weld(&m1, &m2)?;
            Ok(mary_to_noun(&w))
        },
        _ => Err(KernelError::Decode),
    }
}

/// The transpose of the table of the door with cells of `offset` elements,
/// for the sample offset: `len * offset` columns and `step / offset` rows.
/// An empty table gives a table of no columns.
pub fn mary_transpose_jet(subject: &Noun) -> (r: Result<Noun, KernelError>)
    ensures
        match (mary_at(*subject, 30), slot_s(*subject, 6)) {
            (Some((step, len, dat)), Some(o)) => match noun_u64(o) {
                Some(offset) => if offset > 0 && offset <= usize::MAX && step % (offset as nat)
                    == 0 && len * offset <= usize::MAX {
                    r is Ok && encodes_mary(
                        r->Ok_0,
                        len * (offset as nat),
                        step / (offset as nat),
                        transpose_dat(dat, step, len, offset as nat),
                    )
                } else {
                    r == Err::<Noun, KernelError>(KernelError::Precondition)
                },
                None => r == Err::<Noun, KernelError>(KernelError::Decode),
            },
            _ => r == Err::<Noun, KernelError>(KernelError::Decode),
        },
{
    let m = mary_arg(subject, 30);
    let o = slot(subject, 6);
    match (m, o) {
        (Ok(m), Some(o)) => match crate::noun::noun_as_u64(o) {
            Some(offset) => {
                if offset as u128 > usize::MAX as u128 {
                    return Err(KernelError::Precondition);
                }
                let t = mary_transpose(&m, offset as usize)?;
                proof {
                    crate::mary::lemma_transpose_wf(m.dat@, m.step as nat, m.len as nat, offset as nat);
                }
                Ok(mary_to_noun(&t))
            },
            None => Err(KernelError::Decode),
        },
        _ => Err(KernelError::Decode),
    }
}

/// The transpose of the table that is the sample, with single-element cells.
pub fn transpose_bpolys_jet(subject: &Noun) -> (r: Result<Noun, KernelError>)
    ensures
        match mary_at(*subject, 6) {
            Some((step, len, dat)) => r is Ok && encodes_mary(
                r->Ok_0,
                len,
                step,
                transpose_dat(dat, step, len, 1),
            ),
            None => r == Err::<Noun, KernelError>(KernelError::Decode),
        },
{
    let m = mary_arg(subject, 6)?;
    proof {
        vstd::arithmetic::div_mod::lemma_fundamental_div_mod_converse(m.step as int, 1, m.step as int, 0);
        crate::mary::lemma_transpose_wf(m.dat@, m.step as nat, m.len as nat, 1);
    }
    let t = crate::mary::transpose_bpolys(&m);
    Ok(mary_to_noun(&t))
}

/// The permutation applied to the sponge state that is the sample, a list of
/// sixteen 64-bit atoms.
pub fn permutation_jet<F: Fn([u64; 16]) -> [u64; 16]>(subject: &Noun, permute: &F) -> (r: Result<
    Noun,
    KernelError,
>)
    requires
        forall|s: [u64; 16]| permute.requires((s,)),
    ensures
        match slot_s(*subject, 6) {
            Some(n) => match crate::noun::u64_list(n) {
                Some(state) => if state.len() == crate::sponge::STATE_SIZE {
                    r is Ok && exists|before: [u64; 16], after: [u64; 16]|
                        before@ == state && permute.ensures((before,), after)
                            && crate::noun::u64_list(r->Ok_0) == Some(after@)
                } else {
                    r == Err::<Noun, KernelError>(KernelError::Decode)
                },
                None => r == Err::<Noun, KernelError>(KernelError::Decode),
            },
            None => r == Err::<Noun, KernelError>(KernelError::Decode),
        },
{
    let n = match slot(subject, 6) {
        Some(n) => n,
        None => {
            return Err(KernelError::Decode);
        },
    };
    let sponge = crate::noun::hoon_list_to_sponge(n)?;
    let after = permute(sponge);
    let out = crate::noun::vec_to_hoon_list(&after);
    proof {
        assert(crate::noun::u64_list(out) == Some(after@));
    }
    Ok(out)
}

/// The digest of the list of canonical elements that is the sample, as a
/// list, with the caller's permutation.
pub fn hash_varlen_jet<F: Fn([u64; 16]) -> [u64; 16]>(subject: &Noun, permute: &F) -> (r: Result<
    Noun,
    KernelError,
>)
    requires
        forall|s: [u64; 16]| permute.requires((s,)),
    ensures
        match slot_s(*subject, 6) {
            Some(n) => match crate::noun::u64_list(n) {
                Some(input) => if (forall|i: int| 0 <= i < input.len() ==> input[i] < P) && input.len()
                    + crate::sponge::RATE <= usize::MAX {
                    r is Ok && exists|d: Seq<u64>|
                        crate::noun::u64_list(r->Ok_0) == Some(d) && is_hash_varlen(
                            *permute,
                            input.map_values(|x: u64| Belt(x)),
                            d,
                        )
                } else {
                    r == Err::<Noun, KernelError>(KernelError::Precondition)
                },
                None => r == Err::<Noun, KernelError>(KernelError::Decode),
            },
            None => r == Err::<Noun, KernelError>(KernelError::Decode),
        },
{
    let n = match slot(subject, 6) {
        Some(n) => n,
        None => {
            return Err(KernelError::Decode);
        },
    };
    let words = crate::noun::hoon_list_to_vecu64(n)?;
    let mut input: Vec<Belt> = Vec::new();
    let mut i: usize = 0;
    while i < words.len()
        invariant
            i <= words@.len(),
            input@ == words@.subrange(0, i as int).map_values(|x: u64| Belt(x)),
        decreases words@.len() - i,
    {
        input.push(Belt(words[i]));
        assert(input@ =~= words@.subrange(0, i + 1).map_values(|x: u64| Belt(x)));
        i = i + 1;
    }
    assert(words@.subrange(0, words@.len() as int) =~= words@);
    if input.len() > usize::MAX - crate::sponge::RATE {
        return Err(KernelError::Precondition);
    }
    match hash_varlen(&input, permute) {
        Ok(digest) => {
            let out = crate::noun::vec_to_hoon_list(digest.as_slice());
            proof {
                assert forall|i: int| 0 <= i < words@.len() implies words@[i] < P by {
                    assert(input@[i].wf());
                }
                assert(crate::noun::u64_list(out) == Some(digest@));
            }
            Ok(out)
        },
        Err(e) => {
            proof {
                let i = choose|i: int| 0 <= i < input@.len() && !(#[trigger] input@[i]).wf();
                assert(!(words@[i] < P));
            }
            Err(e)
        },
    }
}

} // verus!
