//! The constraint substitution evaluator: a weighted sum of monomial terms,
//! each a product of factors drawn from trace evaluations, challenges,
//! dynamic values and commitments.
use crate::belt::{bpow, bpow_s, bmul, bmul_s, Belt};
use crate::bpoly::{bpadd, bpoly_wf, bpscal, poly_add, poly_scal};
use crate::error::KernelError;
use vstd::arithmetic::div_mod::*;
use vstd::prelude::*;

verus! {

/// The kind of a factor.
#[derive(Clone, Copy, PartialEq, Eq, Structural, Debug)]
pub enum MegaTyp {
    /// A trace variable: a slice of the trace evaluations.
    Var,
    /// A random challenge, looked up by id.
    Rnd,
    /// A dynamic value, looked up by position.
    Dyn,
    /// A constant; it contributes nothing here.
    Con,
    /// A commitment polynomial, looked up by id.
    Com,
}

/// One factor of a term: a value of kind `typ` and id `idx`, raised to `exp`.
#[derive(Clone, Copy, PartialEq, Eq, Structural, Debug)]
pub struct Factor {
    pub typ: MegaTyp,
    pub idx: usize,
    pub exp: u64,
}

/// The values that the factors refer to.
pub struct SubstitutionData {
    /// Trace evaluations, `4 * height` per variable.
    pub trace_evals: Vec<Belt>,
    pub height: usize,
    /// Association list from challenge id to value.
    pub challenges: Vec<(u64, Belt)>,
    pub dyns: Vec<Belt>,
    /// Association list from commitment id to polynomial.
    pub commitments: Vec<(u64, Vec<Belt>)>,
}

impl SubstitutionData {
    /// Every field element in it is canonical.
    pub open spec fn wf(&self) -> bool {
        &&& bpoly_wf(self.trace_evals@)
        &&& bpoly_wf(self.dyns@)
        &&& forall|i: int| 0 <= i < self.challenges@.len() ==> (#[trigger] self.challenges@[i]).1.wf()
        &&& forall|i: int|
            0 <= i < self.commitments@.len() ==> bpoly_wf((#[trigger] self.commitments@[i]).1@)
    }
}

/// The polynomial `[0]`.
pub fn zero_bpoly() -> (r: Vec<Belt>)
    ensures
        r@ == seq![Belt(0)],
{
    let r = vec![Belt(0)];
    assert(r@ =~= seq![Belt(0)]);
    r
}

/// `len` coefficients equal to one.
pub fn ones_bpoly(len: usize) -> (r: Vec<Belt>)
    ensures
        r@ == Seq::new(len as nat, |i: int| Belt(1)),
{
    let mut r: Vec<Belt> = Vec::new();
    let mut i: usize = 0;
    while i < len
        invariant
            i <= len,
            r@ == Seq::new(i as nat, |j: int| Belt(1)),
        decreases len - i,
    {
        r.push(Belt(1));
        assert(r@ =~= Seq::new((i + 1) as nat, |j: int| Belt(1)));
        i = i + 1;
    }
    r
}

/// The index-wise product over the shorter of the two lengths.
pub open spec fn hadamard_trunc(p: Seq<Belt>, q: Seq<Belt>) -> Seq<Belt> {
    let n = if p.len() <= q.len() {
        p.len()
    } else {
        q.len()
    };
    Seq::new(n, |i: int| bmul_s(p[i], q[i]))
}

/// `acc` multiplied index-wise by `s`, `e` times over.
pub open spec fn hadamard_pow(acc: Seq<Belt>, s: Seq<Belt>, e: nat) -> Seq<Belt>
    decreases e,
{
    if e == 0 {
        acc
    } else {
        hadamard_trunc(hadamard_pow(acc, s, (e - 1) as nat), s)
    }
}

/// The value of the first entry with key `id`.
pub open spec fn assoc_lookup<V>(list: Seq<(u64, V)>, id: int) -> Option<V>
    decreases list.len(),
{
    if list.len() == 0 {
        None
    } else if list[0].0 == id {
        Some(list[0].1)
    } else {
        assoc_lookup(list.drop_first(), id)
    }
}

/// One factor applied to a running term value, or `None` where what it
/// refers to is missing.
pub open spec fn apply_factor(acc: Seq<Belt>, f: Factor, d: SubstitutionData) -> Option<Seq<Belt>> {
    match f.typ {
        MegaTyp::Var => {
            let n = 4 * d.height;
            let start = f.idx * n;
            if start + n <= d.trace_evals@.len() {
                Some(hadamard_pow(acc, d.trace_evals@.subrange(start, start + n), f.exp as nat))
            } else {
                None
            }
        },
        MegaTyp::Rnd => match assoc_lookup(d.challenges@, f.idx as int) {
            Some(r) => Some(poly_scal(bpow_s(r, f.exp as nat), acc)),
            None => None,
        },
        MegaTyp::Dyn => if f.idx < d.dyns@.len() {
            Some(poly_scal(bpow_s(d.dyns@[f.idx as int], f.exp as nat), acc))
        } else {
            None
        },
        MegaTyp::Con => Some(acc),
        MegaTyp::Com => match assoc_lookup(d.commitments@, f.idx as int) {
            Some(c) => Some(hadamard_pow(acc, c@, f.exp as nat)),
            None => None,
        },
    }
}

/// Whether a factor is a polynomial (a trace variable or a commitment)
/// rather than a scalar.
pub open spec fn is_poly_factor(f: Factor) -> bool {
    f.typ == MegaTyp::Var || f.typ == MegaTyp::Com
}

/// The arity of a term: the evaluation length `4 * height` when one of its
/// factors is a polynomial, and 1 when all of them are scalars (or there
/// are none). Constant factors never change it.
pub open spec fn term_arity(factors: Seq<Factor>, height: nat) -> nat {
    if exists|i: int| 0 <= i < factors.len() && is_poly_factor(#[trigger] factors[i]) {
        4 * height
    } else {
        1
    }
}

/// The first `m` factors applied, in order, to ones of the term's arity;
/// `None` where that arity does not fit in memory or a lookup fails.
pub open spec fn term_value(factors: Seq<Factor>, m: nat, d: SubstitutionData) -> Option<Seq<Belt>>
    decreases m,
{
    if m == 0 {
        if term_arity(factors, d.height as nat) <= usize::MAX {
            Some(Seq::new(term_arity(factors, d.height as nat), |i: int| Belt(1)))
        } else {
            None
        }
    } else {
        match term_value(factors, (m - 1) as nat, d) {
            Some(acc) => apply_factor(acc, factors[m - 1], d),
            None => None,
        }
    }
}

/// The running total after the first `i` terms, starting from `[0]`; terms
/// with a zero coefficient are skipped.
pub open spec fn substitute_acc(
    terms: Seq<(Vec<Factor>, Belt)>,
    i: nat,
    d: SubstitutionData,
) -> Option<Seq<Belt>>
    decreases i,
{
    if i == 0 {
        Some(seq![Belt(0)])
    } else {
        match substitute_acc(terms, (i - 1) as nat, d) {
            Some(acc) => {
                let (factors, v) = terms[i - 1];
                if v.0 == 0 {
                    Some(acc)
                } else {
                    match term_value(factors@, factors@.len(), d) {
                        Some(t) => Some(poly_add(acc, poly_scal(v, t))),
                        None => None,
                    }
                }
            },
            None => None,
        }
    }
}

/// The weighted sum of all terms, or `None` where a lookup fails.
pub open spec fn substitute(terms: Seq<(Vec<Factor>, Belt)>, d: SubstitutionData) -> Option<
    Seq<Belt>,
> {
    substitute_acc(terms, terms.len(), d)
}

fn hadamard_trunc_exec(p: &[Belt], q: &[Belt]) -> (r: Vec<Belt>)
    requires
        bpoly_wf(p@),
        bpoly_wf(q@),
    ensures
        r@ == hadamard_trunc(p@, q@),
        bpoly_wf(r@),
{
    let n = if p.len() <= q.len() { p.len() } else { q.len() };
    let mut r: Vec<Belt> = Vec::new();
    let mut i: usize = 0;
    while i < n
        invariant
            i <= n,
            n <= p@.len(),
            n <= q@.len(),
            n == hadamard_trunc(p@, q@).len(),
            bpoly_wf(p@),
            bpoly_wf(q@),
            r@ == hadamard_trunc(p@, q@).subrange(0, i as int),
            bpoly_wf(r@),
        decreases n - i,
    {
        r.push(bmul(p[i], q[i]));
        assert(r@ =~= hadamard_trunc(p@, q@).subrange(0, i + 1));
        i = i + 1;
    }
    assert(r@ =~= hadamard_trunc(p@, q@));
    r
}

fn hadamard_pow_exec(acc: Vec<Belt>, s: &[Belt], e: u64) -> (r: Vec<Belt>)
    requires
        bpoly_wf(acc@),
        bpoly_wf(s@),
    ensures
        r@ == hadamard_pow(acc@, s@, e as nat),
        bpoly_wf(r@),
{
    let ghost init = acc@;
    let mut cur = acc;
    let mut k: u64 = 0;
    while k < e
        invariant
            k <= e,
            bpoly_wf(s@),
            cur@ == hadamard_pow(init, s@, k as nat),
            bpoly_wf(cur@),
        decreases e - k,
    {
        cur = hadamard_trunc_exec(cur.as_slice(), s);
        k = k + 1;
    }
    cur
}

fn challenge_lookup(list: &Vec<(u64, Belt)>, id: u64) -> (r: Option<Belt>)
    ensures
        r == assoc_lookup(list@, id as int),
{
    let mut i: usize = 0;
    assert(list@.subrange(0, list@.len() as int) =~= list@);
    while i < list.len()
        invariant
            i <= list@.len(),
            assoc_lookup(list@, id as int) == assoc_lookup(list@.subrange(i as int, list@.len() as int), id as int),
        decreases list@.len() - i,
    {
        assert(list@.subrange(i as int, list@.len() as int).drop_first() =~= list@.subrange(i + 1, list@.len() as int));
        if list[i].0 == id {
            return Some(list[i].1);
        }
        i = i + 1;
    }
    None
}

fn commitment_lookup(list: &Vec<(u64, Vec<Belt>)>, id: u64) -> (r: Option<usize>)
    ensures
        match r {
            Some(i) => i < list@.len() && assoc_lookup(list@, id as int) == Some(list@[i as int].1),
            None => assoc_lookup(list@, id as int) is None,
        },
{
    let mut i: usize = 0;
    assert(list@.subrange(0, list@.len() as int) =~= list@);
    while i < list.len()
        invariant
            i <= list@.len(),
            assoc_lookup(list@, id as int) == assoc_lookup(list@.subrange(i as int, list@.len() as int), id as int),
        decreases list@.len() - i,
    {
        assert(list@.subrange(i as int, list@.len() as int).drop_first() =~= list@.subrange(i + 1, list@.len() as int));
        if list[i].0 == id {
            return Some(i);
        }
        i = i + 1;
    }
    None
}

/// The slice of trace evaluations of variable `idx`, or `None` where it runs
/// past the end.
fn trace_slice(d: &SubstitutionData, idx: usize) -> (r: Option<(usize, usize)>)
    ensures
        ({
            let n = 4 * d.height;
            let start = idx * n;
            match r {
                Some(bounds) => start + n <= d.trace_evals@.len() && bounds.0 == start && bounds.1
                    == start + n,
                None => start + n > d.trace_evals@.len(),
            }
        }),
{
    let len = d.trace_evals.len();
    let h = d.height;
    if h > len / 4 {
        proof {
            lemma_fundamental_div_mod(len as int, 4);
            assert(idx * (4 * h) >= 0) by (nonlinear_arith);
        }
        return None;
    }
    proof {
        lemma_fundamental_div_mod(len as int, 4);
    }
    let n = 4 * h;
    if n == 0 {
        proof {
            assert(idx * n == 0) by (nonlinear_arith)
                requires n == 0;
        }
        return Some((0, 0));
    }
    let q = len / n;
    proof {
        lemma_fundamental_div_mod(len as int, n as int);
        lemma_mod_bound(len as int, n as int);
    }
    if idx >= q {
        proof {
            assert(idx * n + n > len) by (nonlinear_arith)
                requires idx >= q, len == n * q + len % n, len % n < n, n > 0;
        }
        return None;
    }
    proof {
        assert(idx * n + n <= len) by (nonlinear_arith)
            requires idx < q, len == n * q + len % n, len % n >= 0, n > 0;
    }
    let start = idx * n;
    Some((start, start + n))
}

/// Applies one factor to the running term value.
fn apply_factor_exec(acc: Vec<Belt>, f: Factor, d: &SubstitutionData) -> (r: Result<
    Vec<Belt>,
    KernelError,
>)
    requires
        bpoly_wf(acc@),
        d.wf(),
    ensures
        match apply_factor(acc@, f, *d) {
            Some(v) => r is Ok && r->Ok_0@ == v && bpoly_wf(v),
            None => r == Err::<Vec<Belt>, KernelError>(KernelError::Lookup),
        },
{
    match f.typ {
        MegaTyp::Var => match trace_slice(d, f.idx) {
            Some((start, end)) => {
                let s = vstd::slice::slice_subrange(d.trace_evals.as_slice(), start, end);
                Ok(hadamard_pow_exec(acc, s, f.exp))
            },
            None => Err(KernelError::Lookup),
        },
        MegaTyp::Rnd => {
            if f.idx as u128 > u64::MAX as u128 {
                proof {
                    assert forall|i: int| 0 <= i < d.challenges@.len() implies d.challenges@[i].0 != f.idx as int by {}
                    lemma_assoc_missing(d.challenges@, f.idx as int);
                }
                return Err(KernelError::Lookup);
            }
            match challenge_lookup(&d.challenges, f.idx as u64) {
                Some(rnd) => {
                    proof {
                        lemma_assoc_member(d.challenges@, f.idx as int);
                    }
                    let pow_rnd = bpow(rnd, f.exp);
                    Ok(bpscal(pow_rnd, acc.as_slice()))
                },
                None => Err(KernelError::Lookup),
            }
        },
        MegaTyp::Dyn => {
            if f.idx >= d.dyns.len() {
                return Err(KernelError::Lookup);
            }
            let pow_dyn = bpow(d.dyns[f.idx], f.exp);
            Ok(bpscal(pow_dyn, acc.as_slice()))
        },
        MegaTyp::Con => Ok(acc),
        MegaTyp::Com => {
            if f.idx as u128 > u64::MAX as u128 {
                proof {
                    assert forall|i: int| 0 <= i < d.commitments@.len() implies d.commitments@[i].0 != f.idx as int by {}
                    lemma_assoc_missing(d.commitments@, f.idx as int);
                }
                return Err(KernelError::Lookup);
            }
            match commitment_lookup(&d.commitments, f.idx as u64) {
                Some(i) => Ok(hadamard_pow_exec(acc, d.commitments[i].1.as_slice(), f.exp)),
                None => Err(KernelError::Lookup),
            }
        },
    }
}

/// Whether any factor is a polynomial.
fn has_poly_factor(factors: &Vec<Factor>) -> (r: bool)
    ensures
        r == exists|i: int| 0 <= i < factors@.len() && is_poly_factor(#[trigger] factors@[i]),
{
    let mut i: usize = 0;
    while i < factors.len()
        invariant
            i <= factors@.len(),
            forall|j: int| 0 <= j < i ==> !is_poly_factor(#[trigger] factors@[j]),
        decreases factors@.len() - i,
    {
        match factors[i].typ {
            MegaTyp::Var | MegaTyp::Com => {
                return true;
            },
            _ => {},
        }
        i = i + 1;
    }
    false
}

/// The value of one term: its factors applied in order to ones of its
/// arity.
fn term_value_exec(factors: &Vec<Factor>, d: &SubstitutionData) -> (r: Result<Vec<Belt>, KernelError>)
    requires
        d.wf(),
    ensures
        match term_value(factors@, factors@.len(), *d) {
            Some(v) => r is Ok && r->Ok_0@ == v && bpoly_wf(v),
            None => r == Err::<Vec<Belt>, KernelError>(KernelError::Lookup),
        },
{
    let arity: usize = if has_poly_factor(factors) {
        if d.height > usize::MAX / 4 {
            proof {
                lemma_fundamental_div_mod(usize::MAX as int, 4);
                lemma_term_none_persists(factors@, 0, factors@.len(), *d);
            }
            return Err(KernelError::Lookup);
        }
        4 * d.height
    } else {
        1
    };
    let mut acc = ones_bpoly(arity);
    let mut i: usize = 0;
    while i < factors.len()
        invariant
            i <= factors@.len(),
            d.wf(),
            term_value(factors@, i as nat, *d) == Some(acc@),
            bpoly_wf(acc@),
        decreases factors@.len() - i,
    {
        match apply_factor_exec(acc, factors[i], d) {
            Ok(next) => {
                acc = next;
            },
            Err(e) => {
                proof {
                    lemma_term_none_persists(factors@, (i + 1) as nat, factors@.len(), *d);
                }
                return Err(e);
            },
        }
        i = i + 1;
    }
    Ok(acc)
}

proof fn lemma_term_none_persists(factors: Seq<Factor>, i: nat, m: nat, d: SubstitutionData)
    requires
        term_value(factors, i, d) is None,
        i <= m,
    ensures
        term_value(factors, m, d) is None,
    decreases m,
{
    if i < m {
        lemma_term_none_persists(factors, i, (m - 1) as nat, d);
    }
}

proof fn lemma_substitute_none_persists(
    terms: Seq<(Vec<Factor>, Belt)>,
    i: nat,
    m: nat,
    d: SubstitutionData,
)
    requires
        substitute_acc(terms, i, d) is None,
        i <= m,
    ensures
        substitute_acc(terms, m, d) is None,
    decreases m,
{
    if i < m {
        lemma_substitute_none_persists(terms, i, (m - 1) as nat, d);
    }
}

/// Evaluates the weighted sum of `terms` (factor lists with coefficients)
/// against `d`; a missing challenge, dynamic value or commitment, or a trace
/// slice past the end, is reported as a lookup failure.
pub fn mp_substitute_mega(terms: &Vec<(Vec<Factor>, Belt)>, d: &SubstitutionData) -> (r: Result<
    Vec<Belt>,
    KernelError,
>)
    requires
        d.wf(),
        forall|i: int| 0 <= i < terms@.len() ==> (#[trigger] terms@[i]).1.wf(),
    ensures
        match substitute(terms@, *d) {
            Some(v) => r is Ok && r->Ok_0@ == v && bpoly_wf(v),
            None => r == Err::<Vec<Belt>, KernelError>(KernelError::Lookup),
        },
{
    let mut acc = zero_bpoly();
    let mut i: usize = 0;
    while i < terms.len()
        invariant
            i <= terms@.len(),
            d.wf(),
            forall|j: int| 0 <= j < terms@.len() ==> (#[trigger] terms@[j]).1.wf(),
            substitute_acc(terms@, i as nat, *d) == Some(acc@),
            bpoly_wf(acc@),
        decreases terms@.len() - i,
    {
        let v = terms[i].1;
        if v.0 != 0 {
            let inner = match term_value_exec(&terms[i].0, d) {
                Ok(t) => t,
                Err(e) => {
                    proof {
                        lemma_substitute_none_persists(terms@, (i + 1) as nat, terms@.len(), *d);
                    }
                    return Err(e);
                },
            };
            let scaled = bpscal(v, inner.as_slice());
            acc = bpadd(acc.as_slice(), scaled.as_slice());
        }
        i = i + 1;
    }
    Ok(acc)
}

/// A single term with no factors and coefficient `c` evaluates to `[c]`.
pub proof fn lemma_substitute_empty_term(empty: Vec<Factor>, c: Belt, d: SubstitutionData)
    requires
        empty@.len() == 0,
        c.wf(),
    ensures
        substitute(seq![(empty, c)], d) == Some(seq![c]),
{
    let terms = seq![(empty, c)];
    assert(substitute_acc(terms, 0, d) == Some(seq![Belt(0)]));
    if c.0 == 0 {
        assert(c == Belt(0));
    } else {
        let t = Seq::new(1, |i: int| Belt(1));
        assert(term_arity(empty@, d.height as nat) == 1);
        assert(term_value(empty@, 0, d) == Some(t));
        crate::belt::lemma_modp_canonical(c);
        assert(c.val() * 1 == c.val());
        assert(poly_add(seq![Belt(0)], poly_scal(c, t)) =~= seq![c]);
    }
}

/// A constant factor changes nothing: appending one to a term leaves its
/// value as it was.
pub proof fn lemma_constant_factor_is_noop(factors: Seq<Factor>, con: Factor, d: SubstitutionData)
    requires
        con.typ == MegaTyp::Con,
    ensures
        term_value(factors.push(con), factors.len() + 1, d) == term_value(
            factors,
            factors.len(),
            d,
        ),
{
    let g = factors.push(con);
    assert(term_arity(g, d.height as nat) == term_arity(factors, d.height as nat)) by {
        if exists|i: int| 0 <= i < g.len() && is_poly_factor(#[trigger] g[i]) {
            let i = choose|i: int| 0 <= i < g.len() && is_poly_factor(#[trigger] g[i]);
            assert(factors[i] == g[i]);
        }
        if exists|i: int| 0 <= i < factors.len() && is_poly_factor(#[trigger] factors[i]) {
            let i = choose|i: int| 0 <= i < factors.len() && is_poly_factor(#[trigger] factors[i]);
            assert(factors[i] == g[i]);
        }
    }
    lemma_term_prefix(factors, con, factors.len(), d);
}

proof fn lemma_term_prefix(factors: Seq<Factor>, con: Factor, m: nat, d: SubstitutionData)
    requires
        m <= factors.len(),
        term_arity(factors.push(con), d.height as nat) == term_arity(factors, d.height as nat),
    ensures
        term_value(factors.push(con), m, d) == term_value(factors, m, d),
    decreases m,
{
    if m > 0 {
        lemma_term_prefix(factors, con, (m - 1) as nat, d);
        assert(factors.push(con)[m - 1] == factors[m - 1]);
    }
}

proof fn lemma_assoc_missing<V>(list: Seq<(u64, V)>, id: int)
    requires
        forall|i: int| 0 <= i < list.len() ==> list[i].0 != id,
    ensures
        assoc_lookup(list, id) is None,
    decreases list.len(),
{
    if list.len() > 0 {
        assert forall|i: int| 0 <= i < list.drop_first().len() implies list.drop_first()[i].0 != id by {
            assert(list.drop_first()[i] == list[i + 1]);
        }
        lemma_assoc_missing(list.drop_first(), id);
    }
}

proof fn lemma_assoc_member<V>(list: Seq<(u64, V)>, id: int)
    ensures
        assoc_lookup(list, id) matches Some(v) ==> exists|i: int| 0 <= i < list.len() && list[i].1 == v,
    decreases list.len(),
{
    if list.len() > 0 && list[0].0 != id {
        lemma_assoc_member(list.drop_first(), id);
        if assoc_lookup(list, id) is Some {
            let i = choose|i: int| 0 <= i < list.drop_first().len() && list.drop_first()[i].1 == assoc_lookup(list, id)->Some_0;
            assert(list[i + 1] == list.drop_first()[i]);
        }
    }
}

} // verus!
