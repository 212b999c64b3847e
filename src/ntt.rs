//! Number-theoretic transforms over the base field: the recursive
//! radix-2 transform proved equal to the discrete Fourier sum.
use crate::belt::{
    badd, badd_s, binv, binv_s, bmul, bmul_s, bpow, bpow_s, lemma_modp_add, lemma_modp_canonical,
    lemma_modp_mul, lemma_modp_wf, modp, Belt, P,
};
use crate::bpoly::{bpoly_wf, bpscal, coef, lemma_bpow_step, poly_scal};
use crate::error::KernelError;
use vstd::arithmetic::power2::*;
use vstd::arithmetic::div_mod::*;
use vstd::arithmetic::mul::*;
use vstd::arithmetic::power::*;
use vstd::prelude::*;

verus! {

/// f(0) + f(1) + ... + f(m - 1).
pub open spec fn sum_of(f: spec_fn(int) -> int, m: nat) -> int
    decreases m,
{
    if m == 0 {
        0
    } else {
        sum_of(f, (m - 1) as nat) + f(m - 1)
    }
}

/// The terms p[j] * w^(j k) of the Fourier sum at index k.
pub open spec fn dft_term(p: Seq<Belt>, w: int, k: int) -> spec_fn(int) -> int {
    |j: int| coef(p, j).val() * pow(w, (j * k) as nat)
}

/// The sum of p[j] * w^(j k) over j < m, as an integer.
pub open spec fn dft_sum(p: Seq<Belt>, w: int, k: int, m: nat) -> int {
    sum_of(dft_term(p, w, k), m)
}

/// The discrete Fourier transform of `p` at the root `w`: entry k is
/// p(w^k), the sum of p[j] * w^(j k).
pub open spec fn dft(p: Seq<Belt>, w: Belt) -> Seq<Belt> {
    Seq::new(p.len(), |k: int| modp(dft_sum(p, w.val(), k, p.len())))
}

/// Whether `n` is a power of two.
pub open spec fn is_power_of_two(n: nat) -> bool
    decreases n,
{
    if n == 0 {
        false
    } else if n == 1 {
        true
    } else {
        n % 2 == 0 && is_power_of_two(n / 2)
    }
}

pub open spec fn evens(p: Seq<Belt>) -> Seq<Belt> {
    Seq::new(p.len() / 2, |j: int| p[2 * j])
}

pub open spec fn odds(p: Seq<Belt>) -> Seq<Belt> {
    Seq::new(p.len() / 2, |j: int| p[2 * j + 1])
}

pub(crate) proof fn lemma_sum_ext(f: spec_fn(int) -> int, g: spec_fn(int) -> int, m: nat)
    requires
        forall|j: int| 0 <= j < m ==> #[trigger] f(j) == g(j),
    ensures
        sum_of(f, m) == sum_of(g, m),
    decreases m,
{
    if m > 0 {
        lemma_sum_ext(f, g, (m - 1) as nat);
    }
}

pub(crate) proof fn lemma_sum_congruent(f: spec_fn(int) -> int, g: spec_fn(int) -> int, m: nat)
    requires
        forall|j: int| 0 <= j < m ==> #[trigger] f(j) % (P as int) == g(j) % (P as int),
    ensures
        sum_of(f, m) % (P as int) == sum_of(g, m) % (P as int),
    decreases m,
{
    if m > 0 {
        let p = P as int;
        lemma_sum_congruent(f, g, (m - 1) as nat);
        lemma_add_mod_noop(sum_of(f, (m - 1) as nat), f(m - 1), p);
        lemma_add_mod_noop(sum_of(g, (m - 1) as nat), g(m - 1), p);
    }
}

pub(crate) proof fn lemma_sum_scale(f: spec_fn(int) -> int, c: int, m: nat)
    ensures
        sum_of(|j: int| c * f(j), m) == c * sum_of(f, m),
    decreases m,
{
    if m > 0 {
        lemma_sum_scale(f, c, (m - 1) as nat);
        lemma_mul_is_distributive_add(c, sum_of(f, (m - 1) as nat), f(m - 1));
    }
}

proof fn lemma_sum_even_odd(f: spec_fn(int) -> int, m: nat)
    ensures
        sum_of(f, 2 * m) == sum_of(|j: int| f(2 * j), m) + sum_of(|j: int| f(2 * j + 1), m),
    decreases m,
{
    if m > 0 {
        lemma_sum_even_odd(f, (m - 1) as nat);
        assert(sum_of(f, 2 * m) == sum_of(f, (2 * m - 1) as nat) + f(2 * m - 1));
        assert(sum_of(f, (2 * m - 1) as nat) == sum_of(f, (2 * (m - 1)) as nat) + f(2 * m - 2));
    }
}

/// The Fourier sum of an even-length sequence splits into the sums of its
/// even- and odd-indexed halves at the squared root.
proof fn lemma_dft_split(p: Seq<Belt>, w: int, k: int, h: nat)
    requires
        p.len() == 2 * h,
        k >= 0,
    ensures
        dft_sum(p, w, k, 2 * h) == dft_sum(evens(p), w * w, k, h) + pow(w, k as nat) * dft_sum(
            odds(p),
            w * w,
            k,
            h,
        ),
{
    let f = dft_term(p, w, k);
    let pw = pow(w, k as nat);
    let ge = dft_term(evens(p), w * w, k);
    let go = dft_term(odds(p), w * w, k);
    lemma_sum_even_odd(f, h);
    let fe = |j: int| f(2 * j);
    let fo = |j: int| f(2 * j + 1);
    let so = |j: int| pw * go(j);
    assert forall|j: int| 0 <= j < h implies #[trigger] fe(j) == ge(j) by {
        let jk = (j * k) as nat;
        assert(j * k >= 0) by (nonlinear_arith)
            requires j >= 0, k >= 0;
        assert((2 * j) * k == 2 * (j * k)) by (nonlinear_arith);
        lemma_pow_multiplies(w, 2, jk);
        lemma_square_is_pow2(w);
        assert(coef(p, 2 * j) == coef(evens(p), j));
    }
    lemma_sum_ext(fe, ge, h);
    assert forall|j: int| 0 <= j < h implies #[trigger] fo(j) == so(j) by {
        let jk = (j * k) as nat;
        assert(j * k >= 0) by (nonlinear_arith)
            requires j >= 0, k >= 0;
        assert((2 * j + 1) * k == 2 * (j * k) + k) by (nonlinear_arith);
        lemma_pow_adds(w, 2 * jk, k as nat);
        lemma_pow_multiplies(w, 2, jk);
        lemma_square_is_pow2(w);
        assert(coef(p, 2 * j + 1) == coef(odds(p), j));
        let c = coef(odds(p), j).val();
        let a = pow(w * w, jk);
        assert(c * (a * pw) == pw * (c * a)) by (nonlinear_arith);
    }
    lemma_sum_ext(fo, so, h);
    lemma_sum_scale(go, pw, h);
}

/// Reducing the root modulo P leaves the Fourier sum's residue alone.
proof fn lemma_dft_reduce_root(p: Seq<Belt>, w: int, k: int, m: nat)
    requires
        k >= 0,
    ensures
        dft_sum(p, w % (P as int), k, m) % (P as int) == dft_sum(p, w, k, m) % (P as int),
{
    let pp = P as int;
    let f = dft_term(p, w % pp, k);
    let g = dft_term(p, w, k);
    assert forall|j: int| 0 <= j < m implies #[trigger] f(j) % pp == g(j) % pp by {
        let e = (j * k) as nat;
        lemma_pow_mod_noop(w, e, pp);
        lemma_mul_mod_noop_right(coef(p, j).val(), pow(w % pp, e), pp);
        lemma_mul_mod_noop_right(coef(p, j).val(), pow(w, e), pp);
    }
    lemma_sum_congruent(f, g, m);
}

/// With w^h = 1, the Fourier sum repeats with period h in k.
proof fn lemma_dft_periodic(p: Seq<Belt>, w: int, k: int, h: nat)
    requires
        k >= 0,
        h > 0,
        pow(w, h) % (P as int) == 1,
    ensures
        dft_sum(p, w, k, h) % (P as int) == dft_sum(p, w, k % (h as int), h) % (P as int),
{
    let pp = P as int;
    let r = k % (h as int);
    let q = k / (h as int);
    lemma_fundamental_div_mod(k, h as int);
    lemma_mod_bound(k, h as int);
    lemma_div_pos_is_pos(k, h as int);
    let f = dft_term(p, w, k);
    let g = dft_term(p, w, r);
    assert forall|j: int| 0 <= j < h implies #[trigger] f(j) % pp == g(j) % pp by {
        assert(j * k == j * r + h * (j * q)) by (nonlinear_arith)
            requires k == h * q + r;
        assert(j * r >= 0 && j * q >= 0) by (nonlinear_arith)
            requires j >= 0, r >= 0, q >= 0;
        let jr = (j * r) as nat;
        let jq = (j * q) as nat;
        lemma_pow_adds(w, jr, h * jq);
        lemma_pow_multiplies(w, h, jq);
        lemma_pow_mod_noop(pow(w, h), jq, pp);
        lemma1_pow(jq);
        let big = pow(pow(w, h), jq);
        assert(big % pp == 1);
        lemma_mul_mod_noop_right(pow(w, jr), big, pp);
        assert(pow(w, jr) * big % pp == pow(w, jr) % pp);
        let c = coef(p, j).val();
        lemma_mul_mod_noop_right(c, pow(w, jr) * big, pp);
        lemma_mul_mod_noop_right(c, pow(w, jr), pp);
        assert(f(j) == c * (pow(w, jr) * big));
    }
    lemma_sum_congruent(f, g, h);
}

/// One butterfly combine step: entry k of the transform of `p` from the
/// transforms of its halves at the squared root.
pub(crate) proof fn lemma_ntt_combine(p: Seq<Belt>, w: Belt, k: int, h: nat)
    requires
        p.len() == 2 * h,
        h > 0,
        w.wf(),
        pow(w.val(), 2 * h) % (P as int) == 1,
        0 <= k < 2 * h,
    ensures
        badd_s(
            dft(evens(p), bmul_s(w, w))[k % (h as int)],
            bmul_s(bpow_s(w, k as nat), dft(odds(p), bmul_s(w, w))[k % (h as int)]),
        ) == modp(dft_sum(p, w.val(), k, 2 * h)),
{
    let pp = P as int;
    let wv = w.val();
    let ww = wv * wv;
    let w2 = bmul_s(w, w).val();
    lemma_modp_wf(ww);
    assert(w2 == ww % pp);
    let r = k % (h as int);
    lemma_mod_bound(k, h as int);
    let e = evens(p);
    let o = odds(p);
    assert(e.len() == h && o.len() == h);
    // w2^h = w^(2h) = 1
    lemma_pow_mod_noop(ww, h, pp);
    lemma_square_is_pow2(wv);
    lemma_pow_multiplies(wv, 2, h);
    assert(pow(w2, h) % pp == 1);
    let a = dft_sum(e, w2, r, h);
    let b = dft_sum(o, w2, r, h);
    let se = dft_sum(e, ww, k, h);
    let so = dft_sum(o, ww, k, h);
    lemma_dft_periodic(e, w2, k, h);
    lemma_dft_periodic(o, w2, k, h);
    lemma_dft_reduce_root(e, ww, k, h);
    lemma_dft_reduce_root(o, ww, k, h);
    assert(a % pp == se % pp);
    assert(b % pp == so % pp);
    lemma_dft_split(p, wv, k, h);
    let pw = pow(wv, k as nat);
    // the left side is modp(a + pw * b)
    assert(dft(e, bmul_s(w, w))[r] == modp(a));
    assert(dft(o, bmul_s(w, w))[r] == modp(b));
    lemma_modp_mul(pw, b);
    lemma_modp_add(a, pw * b);
    // which agrees with modp(se + pw * so)
    lemma_mul_mod_noop_right(pw, b, pp);
    lemma_mul_mod_noop_right(pw, so, pp);
    lemma_add_mod_noop(a, pw * b, pp);
    lemma_add_mod_noop(se, pw * so, pp);
}

pub(crate) proof fn lemma_square_root_order(w: Belt, h: nat)
    requires
        w.wf(),
        pow(w.val(), 2 * h) % (P as int) == 1,
    ensures
        pow(bmul_s(w, w).val(), h) % (P as int) == 1,
{
    let pp = P as int;
    let wv = w.val();
    lemma_modp_wf(wv * wv);
    lemma_pow_mod_noop(wv * wv, h, pp);
    lemma_square_is_pow2(wv);
    lemma_pow_multiplies(wv, 2, h);
}

/// The transform of a single coefficient is that coefficient.
pub(crate) proof fn lemma_dft_one(p: Seq<Belt>, root: Belt)
    requires
        p.len() == 1,
        p[0].wf(),
    ensures
        dft(p, root) == p,
{
    let w = root.val();
    lemma_pow0(w);
    assert(dft_term(p, w, 0)(0) == p[0].val() * pow(w, 0));
    assert(p[0].val() * 1 == p[0].val());
    assert(sum_of(dft_term(p, w, 0), 1) == sum_of(dft_term(p, w, 0), 0) + dft_term(p, w, 0)(0));
    assert(dft_sum(p, w, 0, 1) == p[0].val());
    lemma_modp_canonical(p[0]);
    assert(dft(p, root) =~= p);
}

/// The even- and odd-indexed entries of `p`.
fn split_even_odd(p: &[Belt]) -> (r: (Vec<Belt>, Vec<Belt>))
    requires
        p@.len() % 2 == 0,
        bpoly_wf(p@),
    ensures
        r.0@ == evens(p@),
        r.1@ == odds(p@),
        bpoly_wf(r.0@),
        bpoly_wf(r.1@),
{
    let n = p.len();
    let half = n / 2;
    let mut e: Vec<Belt> = Vec::new();
    let mut o: Vec<Belt> = Vec::new();
    let mut j: usize = 0;
    while j < half
        invariant
            half == p@.len() / 2,
            n == p@.len(),
            p@.len() % 2 == 0,
            j <= half,
            bpoly_wf(p@),
            e@ == evens(p@).subrange(0, j as int),
            o@ == odds(p@).subrange(0, j as int),
            bpoly_wf(e@),
            bpoly_wf(o@),
        decreases half - j,
    {
        e.push(p[2 * j]);
        o.push(p[2 * j + 1]);
        assert(e@ =~= evens(p@).subrange(0, j + 1));
        assert(o@ =~= odds(p@).subrange(0, j + 1));
        j = j + 1;
    }
    assert(e@ =~= evens(p@));
    assert(o@ =~= odds(p@));
    (e, o)
}

/// The recursive radix-2 transform of `p` at `root`, where root^n = 1 for
/// the power-of-two length n.
fn ntt_rec(p: &[Belt], root: Belt) -> (r: Vec<Belt>)
    requires
        bpoly_wf(p@),
        root.wf(),
        is_power_of_two(p@.len() as nat),
        pow(root.val(), p@.len() as nat) % (P as int) == 1,
    ensures
        r@ == dft(p@, root),
        bpoly_wf(r@),
    decreases p@.len(),
{
    let n = p.len();
    if n == 1 {
        proof {
            lemma_dft_one(p@, root);
        }
        let r = vec![p[0]];
        assert(r@ =~= dft(p@, root));
        return r;
    }
    let half = n / 2;
    let (e, o) = split_even_odd(p);
    let root2 = bmul(root, root);
    proof {
        lemma_square_root_order(root, half as nat);
    }
    let e_hat = ntt_rec(e.as_slice(), root2);
    let o_hat = ntt_rec(o.as_slice(), root2);
    let mut res: Vec<Belt> = Vec::new();
    let mut rp = Belt(1);
    proof {
        lemma_pow0(root.val());
        lemma_modp_canonical(Belt(1));
    }
    let mut i: usize = 0;
    while i < n
        invariant
            n == p@.len(),
            n == 2 * half,
            half > 0,
            i <= n,
            root.wf(),
            root2 == bmul_s(root, root),
            pow(root.val(), n as nat) % (P as int) == 1,
            e_hat@ == dft(evens(p@), root2),
            o_hat@ == dft(odds(p@), root2),
            e_hat@.len() == half,
            o_hat@.len() == half,
            bpoly_wf(e_hat@),
            bpoly_wf(o_hat@),
            rp == bpow_s(root, i as nat),
            rp.wf(),
            res@ == dft(p@, root).subrange(0, i as int),
            bpoly_wf(res@),
        decreases n - i,
    {
        proof {
            lemma_ntt_combine(p@, root, i as int, half as nat);
            lemma_bpow_step(root, i as nat);
        }
        let t = bmul(rp, o_hat[i % half]);
        res.push(badd(e_hat[i % half], t));
        assert(res@ =~= dft(p@, root).subrange(0, i + 1));
        rp = bmul(rp, root);
        i = i + 1;
    }
    assert(res@ =~= dft(p@, root));
    res
}

/// The largest supported transform order is 2^MAX_LOG_ORDER.
pub const MAX_LOG_ORDER: u32 = 32;

/// The canonical root of unity of order 2^32.
pub const TOP_ROOT: u64 = 0x1856_29dc_da58_878c;

/// x squared i times modulo P.
pub open spec fn square_chain(x: int, i: nat) -> int
    decreases i,
{
    if i == 0 {
        x
    } else {
        square_chain((x * x) % (P as int), (i - 1) as nat)
    }
}

/// The canonical root of unity of order 2^log_n: the root of order 2^32
/// squared 32 - log_n times.
pub open spec fn canonical_root(log_n: nat) -> Belt {
    Belt(square_chain(TOP_ROOT as int, (MAX_LOG_ORDER - log_n) as nat) as u64)
}

pub(crate) proof fn lemma_square_chain_wf(x: int, i: nat)
    requires
        0 <= x < P,
    ensures
        0 <= square_chain(x, i) < P,
    decreases i,
{
    if i > 0 {
        lemma_mod_bound(x * x, P as int);
        lemma_square_chain_wf((x * x) % (P as int), (i - 1) as nat);
    }
}

pub(crate) proof fn lemma_square_chain_add(x: int, a: nat, b: nat)
    ensures
        square_chain(square_chain(x, a), b) == square_chain(x, a + b),
    decreases a,
{
    if a > 0 {
        lemma_square_chain_add((x * x) % (P as int), (a - 1) as nat, b);
    }
}

pub(crate) proof fn lemma_pow_square_chain(x: int, i: nat)
    ensures
        pow(x, pow2(i)) % (P as int) == square_chain(x, i) % (P as int),
    decreases i,
{
    let pp = P as int;
    if i == 0 {
        lemma2_to64();
        lemma_pow1(x);
    } else {
        let e = pow2((i - 1) as nat);
        lemma_pow2_unfold(i);
        lemma_pow_multiplies(x, 2, e);
        lemma_square_is_pow2(x);
        lemma_pow_mod_noop(x * x, e, pp);
        lemma_pow_square_chain((x * x) % pp, (i - 1) as nat);
    }
}

proof fn lemma_top_root_order()
    ensures
        square_chain(TOP_ROOT as int, MAX_LOG_ORDER as nat) == 1,
{
    // the roots of orders 2^32, 2^31, ..., 1, each the square of the one before
    let pp = P as int;
    assert((0x185629dcda58878cint * 0x185629dcda58878cint) % pp == 0x400a7f755588e659int);
    assert(square_chain(0x185629dcda58878cint, 32) == square_chain(0x400a7f755588e659int, 31));
    assert((0x400a7f755588e659int * 0x400a7f755588e659int) % pp == 0x7e9bd009b86a0845int);
    assert(square_chain(0x400a7f755588e659int, 31) == square_chain(0x7e9bd009b86a0845int, 30));
    assert((0x7e9bd009b86a0845int * 0x7e9bd009b86a0845int) % pp == 0xdfa8c93ba46d2666int);
    assert(square_chain(0x7e9bd009b86a0845int, 30) == square_chain(0xdfa8c93ba46d2666int, 29));
    assert((0xdfa8c93ba46d2666int * 0xdfa8c93ba46d2666int) % pp == 0x59049500004a4485int);
    assert(square_chain(0xdfa8c93ba46d2666int, 29) == square_chain(0x59049500004a4485int, 28));
    assert((0x59049500004a4485int * 0x59049500004a4485int) % pp == 0x10d78dd8915a171dint);
    assert(square_chain(0x59049500004a4485int, 28) == square_chain(0x10d78dd8915a171dint, 27));
    assert((0x10d78dd8915a171dint * 0x10d78dd8915a171dint) % pp == 0xed41d05b78d6e286int);
    assert(square_chain(0x10d78dd8915a171dint, 27) == square_chain(0xed41d05b78d6e286int, 26));
    assert((0xed41d05b78d6e286int * 0xed41d05b78d6e286int) % pp == 0x4bbaf5976ecfefd8int);
    assert(square_chain(0xed41d05b78d6e286int, 26) == square_chain(0x4bbaf5976ecfefd8int, 25));
    assert((0x4bbaf5976ecfefd8int * 0x4bbaf5976ecfefd8int) % pp == 0x86cdcc31c307e171int);
    assert(square_chain(0x4bbaf5976ecfefd8int, 25) == square_chain(0x86cdcc31c307e171int, 24));
    assert((0x86cdcc31c307e171int * 0x86cdcc31c307e171int) % pp == 0xea9d5a1336fbc98bint);
    assert(square_chain(0x86cdcc31c307e171int, 24) == square_chain(0xea9d5a1336fbc98bint, 23));
    assert((0xea9d5a1336fbc98bint * 0xea9d5a1336fbc98bint) % pp == 0x4b2a18ade67246b5int);
    assert(square_chain(0xea9d5a1336fbc98bint, 23) == square_chain(0x4b2a18ade67246b5int, 22));
    assert((0x4b2a18ade67246b5int * 0x4b2a18ade67246b5int) % pp == 0xf502aef532322654int);
    assert(square_chain(0x4b2a18ade67246b5int, 22) == square_chain(0xf502aef532322654int, 21));
    assert((0xf502aef532322654int * 0xf502aef532322654int) % pp == 0x30ba2ecd5e93e76dint);
    assert(square_chain(0xf502aef532322654int, 21) == square_chain(0x30ba2ecd5e93e76dint, 20));
    assert((0x30ba2ecd5e93e76dint * 0x30ba2ecd5e93e76dint) % pp == 0xfbd41c6b8caa3302int);
    assert(square_chain(0x30ba2ecd5e93e76dint, 20) == square_chain(0xfbd41c6b8caa3302int, 19));
    assert((0xfbd41c6b8caa3302int * 0xfbd41c6b8caa3302int) % pp == 0x81281a7b05f9beacint);
    assert(square_chain(0xfbd41c6b8caa3302int, 19) == square_chain(0x81281a7b05f9beacint, 18));
    assert((0x81281a7b05f9beacint * 0x81281a7b05f9beacint) % pp == 0xabd0a6e8aa3d8a0eint);
    assert(square_chain(0x81281a7b05f9beacint, 18) == square_chain(0xabd0a6e8aa3d8a0eint, 17));
    assert((0xabd0a6e8aa3d8a0eint * 0xabd0a6e8aa3d8a0eint) % pp == 0x54df9630bf79450eint);
    assert(square_chain(0xabd0a6e8aa3d8a0eint, 17) == square_chain(0x54df9630bf79450eint, 16));
    assert((0x54df9630bf79450eint * 0x54df9630bf79450eint) % pp == 0xf6b2cffe2306baacint);
    assert(square_chain(0x54df9630bf79450eint, 16) == square_chain(0xf6b2cffe2306baacint, 15));
    assert((0xf6b2cffe2306baacint * 0xf6b2cffe2306baacint) % pp == 0xe0ee099310bba1e2int);
    assert(square_chain(0xf6b2cffe2306baacint, 15) == square_chain(0xe0ee099310bba1e2int, 14));
    assert((0xe0ee099310bba1e2int * 0xe0ee099310bba1e2int) % pp == 0x1544ef2335d17997int);
    assert(square_chain(0xe0ee099310bba1e2int, 14) == square_chain(0x1544ef2335d17997int, 13));
    assert((0x1544ef2335d17997int * 0x1544ef2335d17997int) % pp == 0xf2c35199959dfcb6int);
    assert(square_chain(0x1544ef2335d17997int, 13) == square_chain(0xf2c35199959dfcb6int, 12));
    assert((0xf2c35199959dfcb6int * 0xf2c35199959dfcb6int) % pp == 0x653b4801da1c8cfint);
    assert(square_chain(0xf2c35199959dfcb6int, 12) == square_chain(0x653b4801da1c8cfint, 11));
    assert((0x653b4801da1c8cfint * 0x653b4801da1c8cfint) % pp == 0x9d8f2ad78bfed972int);
    assert(square_chain(0x653b4801da1c8cfint, 11) == square_chain(0x9d8f2ad78bfed972int, 10));
    assert((0x9d8f2ad78bfed972int * 0x9d8f2ad78bfed972int) % pp == 0x1905d02a5c411f4eint);
    assert(square_chain(0x9d8f2ad78bfed972int, 10) == square_chain(0x1905d02a5c411f4eint, 9));
    assert((0x1905d02a5c411f4eint * 0x1905d02a5c411f4eint) % pp == 0xbf79143ce60ca966int);
    assert(square_chain(0x1905d02a5c411f4eint, 9) == square_chain(0xbf79143ce60ca966int, 8));
    assert((0xbf79143ce60ca966int * 0xbf79143ce60ca966int) % pp == 0xf80007ff08000001int);
    assert(square_chain(0xbf79143ce60ca966int, 8) == square_chain(0xf80007ff08000001int, 7));
    assert((0xf80007ff08000001int * 0xf80007ff08000001int) % pp == 0x8000000000int);
    assert(square_chain(0xf80007ff08000001int, 7) == square_chain(0x8000000000int, 6));
    assert((0x8000000000int * 0x8000000000int) % pp == 0x3fffffffc000int);
    assert(square_chain(0x8000000000int, 6) == square_chain(0x3fffffffc000int, 5));
    assert((0x3fffffffc000int * 0x3fffffffc000int) % pp == 0xefffffff00000001int);
    assert(square_chain(0x3fffffffc000int, 5) == square_chain(0xefffffff00000001int, 4));
    assert((0xefffffff00000001int * 0xefffffff00000001int) % pp == 0xfffffffeff000001int);
    assert(square_chain(0xefffffff00000001int, 4) == square_chain(0xfffffffeff000001int, 3));
    assert((0xfffffffeff000001int * 0xfffffffeff000001int) % pp == 0x1000000000000int);
    assert(square_chain(0xfffffffeff000001int, 3) == square_chain(0x1000000000000int, 2));
    assert((0x1000000000000int * 0x1000000000000int) % pp == 0xffffffff00000000int);
    assert(square_chain(0x1000000000000int, 2) == square_chain(0xffffffff00000000int, 1));
    assert((0xffffffff00000000int * 0xffffffff00000000int) % pp == 0x1int);
    assert(square_chain(0xffffffff00000000int, 1) == square_chain(0x1int, 0));
}

/// The canonical root of order 2^log_n raised to 2^log_n is one.
pub proof fn lemma_canonical_root_order(log_n: nat)
    requires
        log_n <= MAX_LOG_ORDER,
    ensures
        canonical_root(log_n).wf(),
        pow(canonical_root(log_n).val(), pow2(log_n)) % (P as int) == 1,
{
    let a = (MAX_LOG_ORDER - log_n) as nat;
    lemma_square_chain_wf(TOP_ROOT as int, a);
    let r = square_chain(TOP_ROOT as int, a);
    assert(canonical_root(log_n).val() == r);
    lemma_pow_square_chain(r, log_n);
    lemma_square_chain_add(TOP_ROOT as int, a, log_n);
    lemma_top_root_order();
    assert(a + log_n == MAX_LOG_ORDER);
}

/// floor(log2(n)), zero for zero and one.
pub open spec fn log2_nat(n: nat) -> nat
    decreases n,
{
    if n <= 1 {
        0
    } else {
        1 + log2_nat(n / 2)
    }
}

pub(crate) proof fn lemma_pow2_log2(n: nat)
    requires
        is_power_of_two(n),
    ensures
        pow2(log2_nat(n)) == n,
    decreases n,
{
    if n > 1 {
        lemma_pow2_log2(n / 2);
        lemma_pow2_unfold(log2_nat(n));
    } else {
        lemma2_to64();
    }
}

/// log2(n) when `n` is a power of two.
pub(crate) fn log2_exact(n: u64) -> (r: Option<u32>)
    ensures
        r is Some <==> is_power_of_two(n as nat),
        r matches Some(k) ==> k == log2_nat(n as nat) && pow2(k as nat) == n,
{
    let mut m = n;
    let mut k: u32 = 0;
    proof {
        lemma2_to64();
    }
    while m > 1 && m % 2 == 0
        invariant
            1 <= pow2(k as nat),
            pow2(k as nat) * m == n,
            k < 64,
            is_power_of_two(n as nat) == is_power_of_two(m as nat),
            log2_nat(n as nat) == k + log2_nat(m as nat),
        decreases m,
    {
        proof {
            lemma_pow2_unfold((k + 1) as nat);
            assert(pow2((k + 1) as nat) * (m / 2) == n) by (nonlinear_arith)
                requires
                    pow2((k + 1) as nat) == 2 * pow2(k as nat),
                    pow2(k as nat) * m == n,
                    m % 2 == 0,
            ;
            if k + 1 >= 64 {
                lemma2_to64();
                if k + 1 > 64 {
                    lemma_pow2_strictly_increases(64, (k + 1) as nat);
                }
                assert(false) by (nonlinear_arith)
                    requires
                        pow2((k + 1) as nat) >= 0x1_0000_0000_0000_0000,
                        pow2((k + 1) as nat) * (m / 2) == n,
                        m / 2 >= 1,
                        n <= 0xffff_ffff_ffff_ffff,
                ;
            }
        }
        m = m / 2;
        k = k + 1;
    }
    if m == 1 {
        assert(pow2(k as nat) == n);
        Some(k)
    } else {
        None
    }
}

/// The canonical root of unity of order 2^log_n.
pub(crate) fn canonical_root_exec(log_n: u32) -> (r: Belt)
    requires
        log_n <= MAX_LOG_ORDER,
    ensures
        r == canonical_root(log_n as nat),
        r.wf(),
{
    let mut x = Belt(TOP_ROOT);
    let steps = MAX_LOG_ORDER - log_n;
    let mut i: u32 = 0;
    while i < steps
        invariant
            i <= steps,
            steps == MAX_LOG_ORDER - log_n,
            x.wf(),
            square_chain(TOP_ROOT as int, steps as nat) == square_chain(x.val(), (steps - i) as nat),
        decreases steps - i,
    {
        x = bmul(x, x);
        i = i + 1;
    }
    proof {
        lemma_square_chain_wf(TOP_ROOT as int, steps as nat);
    }
    x
}

/// The canonical root of unity of order `n`; refused unless `n` is a power
/// of two no larger than 2^32.
pub fn ordered_root(n: u64) -> (r: Result<Belt, KernelError>)
    ensures
        (is_power_of_two(n as nat) && n <= pow2(MAX_LOG_ORDER as nat)) ==> r == Ok::<
            Belt,
            KernelError,
        >(canonical_root(log2_nat(n as nat))),
        !(is_power_of_two(n as nat) && n <= pow2(MAX_LOG_ORDER as nat)) ==> r == Err::<
            Belt,
            KernelError,
        >(KernelError::Precondition),
{
    match log2_exact(n) {
        Some(k) => {
            if k > MAX_LOG_ORDER {
                proof {
                    lemma_pow2_strictly_increases(MAX_LOG_ORDER as nat, k as nat);
                }
                return Err(KernelError::Precondition);
            }
            proof {
                if k < MAX_LOG_ORDER {
                    lemma_pow2_strictly_increases(k as nat, MAX_LOG_ORDER as nat);
                }
            }
            Ok(canonical_root_exec(k))
        },
        None => Err(KernelError::Precondition),
    }
}

/// The transform of `p` at `root`: entry k is p(root^k). Refused unless the
/// length is a power of two n with root^n = 1.
pub fn bp_ntt(p: &[Belt], root: Belt) -> (r: Result<Vec<Belt>, KernelError>)
    requires
        bpoly_wf(p@),
        root.wf(),
    ensures
        (is_power_of_two(p@.len() as nat) && bpow_s(root, p@.len() as nat) == Belt(1)) ==> r is Ok
            && r->Ok_0@ == dft(p@, root) && bpoly_wf(r->Ok_0@),
        !(is_power_of_two(p@.len() as nat) && bpow_s(root, p@.len() as nat) == Belt(1)) ==> r
            == Err::<Vec<Belt>, KernelError>(KernelError::Precondition),
{
    let n = p.len();
    if log2_exact(n as u64).is_none() {
        return Err(KernelError::Precondition);
    }
    let check = bpow(root, n as u64);
    if check.0 != 1 {
        return Err(KernelError::Precondition);
    }
    proof {
        lemma_modp_wf(pow(root.val(), n as nat));
    }
    Ok(ntt_rec(p, root))
}

/// The transform at the canonical root of order n = len(p); refused unless
/// n is a power of two no larger than 2^32.
pub fn bp_fft(p: &[Belt]) -> (r: Result<Vec<Belt>, KernelError>)
    requires
        bpoly_wf(p@),
    ensures
        (is_power_of_two(p@.len() as nat) && p@.len() <= pow2(MAX_LOG_ORDER as nat)) ==> r is Ok
            && r->Ok_0@ == dft(p@, canonical_root(log2_nat(p@.len() as nat))) && bpoly_wf(
            r->Ok_0@,
        ),
        !(is_power_of_two(p@.len() as nat) && p@.len() <= pow2(MAX_LOG_ORDER as nat)) ==> r
            == Err::<Vec<Belt>, KernelError>(KernelError::Precondition),
{
    let n = p.len();
    match log2_exact(n as u64) {
        Some(k) => {
            if k > MAX_LOG_ORDER {
                proof {
                    lemma_pow2_strictly_increases(MAX_LOG_ORDER as nat, k as nat);
                }
                return Err(KernelError::Precondition);
            }
            proof {
                if k < MAX_LOG_ORDER {
                    lemma_pow2_strictly_increases(k as nat, MAX_LOG_ORDER as nat);
                }
                lemma_canonical_root_order(k as nat);
            }
            let root = canonical_root_exec(k);
            Ok(ntt_rec(p, root))
        },
        None => Err(KernelError::Precondition),
    }
}

/// The inverse of an n-th root of unity is one too.
pub(crate) proof fn lemma_inverse_root_order(w: Belt, n: nat)
    requires
        w.wf(),
        pow(w.val(), n) % (P as int) == 1,
    ensures
        pow(binv_s(w).val(), n) % (P as int) == 1,
{
    let pp = P as int;
    let e = (P - 2) as nat;
    let big = pow(w.val(), e);
    lemma_modp_wf(big);
    lemma_pow_mod_noop(big, n, pp);
    lemma_pow_multiplies(w.val(), e, n);
    lemma_pow_multiplies(w.val(), n, e);
    assert(e * n == n * e) by (nonlinear_arith);
    lemma_pow_mod_noop(pow(w.val(), n), e, pp);
    lemma1_pow(e);
}

/// The inverse transform: the transform at the inverse of the canonical
/// root of order n = len(p), scaled by 1/n; refused unless n is a power of
/// two no larger than 2^32.
pub fn bp_ifft(p: &[Belt]) -> (r: Result<Vec<Belt>, KernelError>)
    requires
        bpoly_wf(p@),
    ensures
        (is_power_of_two(p@.len() as nat) && p@.len() <= pow2(MAX_LOG_ORDER as nat)) ==> r is Ok
            && r->Ok_0@ == poly_scal(
            binv_s(Belt(p@.len() as u64)),
            dft(p@, binv_s(canonical_root(log2_nat(p@.len() as nat)))),
        ) && bpoly_wf(r->Ok_0@),
        !(is_power_of_two(p@.len() as nat) && p@.len() <= pow2(MAX_LOG_ORDER as nat)) ==> r
            == Err::<Vec<Belt>, KernelError>(KernelError::Precondition),
{
    let n = p.len();
    match log2_exact(n as u64) {
        Some(k) => {
            if k > MAX_LOG_ORDER {
                proof {
                    lemma_pow2_strictly_increases(MAX_LOG_ORDER as nat, k as nat);
                }
                return Err(KernelError::Precondition);
            }
            proof {
                if k < MAX_LOG_ORDER {
                    lemma_pow2_strictly_increases(k as nat, MAX_LOG_ORDER as nat);
                }
                lemma2_to64();
                lemma_canonical_root_order(k as nat);
                lemma_inverse_root_order(canonical_root(k as nat), n as nat);
            }
            let root = canonical_root_exec(k);
            let inv_root = binv(root);
            let transformed = ntt_rec(p, inv_root);
            let inv_n = binv(Belt(n as u64));
            Ok(bpscal(inv_n, transformed.as_slice()))
        },
        None => Err(KernelError::Precondition),
    }
}

/// p(x) in the base field: the sum of p[j] * x^j.
pub open spec fn bp_eval(p: Seq<Belt>, x: Belt) -> Belt {
    modp(dft_sum(p, x.val(), 1, p.len()))
}

/// p(x) as the sum of p[j] * x^j.
fn bp_eval_exec(p: &[Belt], x: Belt) -> (r: Belt)
    requires
        bpoly_wf(p@),
        x.wf(),
    ensures
        r == bp_eval(p@, x),
        r.wf(),
{
    let mut acc = Belt(0);
    let mut xp = Belt(1);
    let mut j: usize = 0;
    proof {
        lemma_pow0(x.val());
        lemma_modp_canonical(Belt(1));
    }
    while j < p.len()
        invariant
            j <= p@.len(),
            bpoly_wf(p@),
            x.wf(),
            acc == modp(dft_sum(p@, x.val(), 1, j as nat)),
            acc.wf(),
            xp == bpow_s(x, j as nat),
            xp.wf(),
        decreases p@.len() - j,
    {
        proof {
            let c = p@[j as int];
            let pw = pow(x.val(), j as nat);
            assert(dft_term(p@, x.val(), 1)(j as int) == c.val() * pw);
            lemma_modp_canonical(c);
            lemma_modp_mul(c.val(), pw);
            lemma_modp_add(dft_sum(p@, x.val(), 1, j as nat), c.val() * pw);
            lemma_bpow_step(x, j as nat);
        }
        acc = badd(acc, bmul(p[j], xp));
        xp = bmul(xp, x);
        j = j + 1;
    }
    acc
}

/// The evaluations of `p` on the coset offset * w^i, i < order, where w is
/// the canonical root of unity of order `order`; refused unless `order` is a
/// power of two no larger than 2^32.
pub fn bp_coseword(p: &[Belt], offset: Belt, order: u32) -> (r: Result<Vec<Belt>, KernelError>)
    requires
        bpoly_wf(p@),
        offset.wf(),
    ensures
        (is_power_of_two(order as nat) && order <= pow2(MAX_LOG_ORDER as nat)) ==> r is Ok
            && r->Ok_0@ == Seq::new(
            order as nat,
            |i: int|
                bp_eval(
                    p@,
                    bmul_s(offset, bpow_s(canonical_root(log2_nat(order as nat)), i as nat)),
                ),
        ),
        !(is_power_of_two(order as nat) && order <= pow2(MAX_LOG_ORDER as nat)) ==> r == Err::<
            Vec<Belt>,
            KernelError,
        >(KernelError::Precondition),
{
    let root = match ordered_root(order as u64) {
        Ok(w) => w,
        Err(e) => {
            return Err(e);
        },
    };
    proof {
        let k = log2_nat(order as nat);
        lemma2_to64();
        lemma_pow2_log2(order as nat);
        if k > MAX_LOG_ORDER {
            lemma_pow2_strictly_increases(MAX_LOG_ORDER as nat, k);
        }
        lemma_canonical_root_order(k);
        lemma_pow0(root.val());
        lemma_modp_canonical(Belt(1));
    }
    let ghost target = Seq::new(
        order as nat,
        |i: int| bp_eval(p@, bmul_s(offset, bpow_s(root, i as nat))),
    );
    let mut res: Vec<Belt> = Vec::new();
    let mut rp = Belt(1);
    let mut i: u32 = 0;
    while i < order
        invariant
            i <= order,
            bpoly_wf(p@),
            offset.wf(),
            root.wf(),
            target == Seq::new(
                order as nat,
                |i: int| bp_eval(p@, bmul_s(offset, bpow_s(root, i as nat))),
            ),
            rp == bpow_s(root, i as nat),
            rp.wf(),
            res@ == target.subrange(0, i as int),
        decreases order - i,
    {
        let x = bmul(offset, rp);
        res.push(bp_eval_exec(p, x));
        assert(res@ =~= target.subrange(0, i + 1));
        proof {
            lemma_bpow_step(root, i as nat);
        }
        rp = bmul(rp, root);
        i = i + 1;
    }
    assert(res@ =~= target);
    Ok(res)
}

} // verus!
