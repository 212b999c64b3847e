//! Row-major tables of base-field elements ("marys"): `len` rows of `step`
//! elements each, stored in one flat buffer.
use crate::belt::Belt;
use crate::error::KernelError;
use vstd::arithmetic::div_mod::*;
use vstd::prelude::*;

verus! {

/// A table of `len` rows, each `step` elements wide.
pub struct Mary {
    pub step: usize,
    pub len: usize,
    pub dat: Vec<Belt>,
}

impl Mary {
    /// The buffer holds exactly `step * len` elements.
    pub open spec fn wf(&self) -> bool {
        self.dat@.len() == self.step * self.len
    }

    /// Builds a table from its row width and buffer; a buffer whose length is
    /// not a multiple of a nonzero `step` is refused.
    pub fn new(step: usize, dat: Vec<Belt>) -> (r: Result<Mary, KernelError>)
        ensures
            (step > 0 && dat@.len() % (step as nat) == 0) ==> r is Ok && r->Ok_0.wf()
                && r->Ok_0.step == step && r->Ok_0.len == dat@.len() / (step as nat)
                && r->Ok_0.dat@ == dat@,
            !(step > 0 && dat@.len() % (step as nat) == 0) ==> r == Err::<Mary, KernelError>(
                KernelError::Precondition,
            ),
    {
        if step == 0 || dat.len() % step != 0 {
            return Err(KernelError::Precondition);
        }
        let len = dat.len() / step;
        proof {
            lemma_fundamental_div_mod(dat@.len() as int, step as int);
        }
        Ok(Mary { step, len, dat })
    }
}

/// The buffer of the transpose of a `len` x `step` table whose rows are read
/// as cells of `k` consecutive elements: row r of the result is cell r of
/// every input row, in row order.
pub open spec fn transpose_dat(dat: Seq<Belt>, step: nat, len: nat, k: nat) -> Seq<Belt> {
    let w = len * k;
    Seq::new(
        step * len,
        |idx: int|
            {
                let r = idx / (w as int);
                let rest = idx % (w as int);
                dat[(rest / (k as int)) * step + r * k + rest % (k as int)]
            },
    )
}

proof fn lemma_transpose_index(idx: int, step: int, len: int, k: int)
    requires
        k > 0,
        step >= 0,
        len >= 0,
        step % k == 0,
        0 <= idx < step * len,
    ensures
        ({
            let w = len * k;
            let r = idx / w;
            let rest = idx % w;
            let i = rest / k;
            let c = rest % k;
            &&& w > 0
            &&& 0 <= r < step / k
            &&& 0 <= i < len
            &&& 0 <= c < k
            &&& 0 <= i * step + r * k + c < step * len
        }),
{
    let big_w = step / k;
    lemma_fundamental_div_mod(step, k);
    assert(step == big_w * k);
    assert(len > 0 && step > 0) by (nonlinear_arith)
        requires 0 <= idx < step * len, step >= 0, len >= 0;
    let w = len * k;
    assert(w > 0) by (nonlinear_arith)
        requires len > 0, k > 0, w == len * k;
    assert(idx < big_w * w) by (nonlinear_arith)
        requires idx < step * len, step == big_w * k, w == len * k;
    let r = idx / w;
    let rest = idx % w;
    lemma_div_pos_is_pos(idx, w);
    lemma_mod_bound(idx, w);
    lemma_multiply_divide_lt(idx, w, big_w);
    let i = rest / k;
    let c = rest % k;
    lemma_div_pos_is_pos(rest, k);
    lemma_mod_bound(rest, k);
    lemma_multiply_divide_lt(rest, k, len);
    assert(i * step + r * k + c < step * len) by (nonlinear_arith)
        requires
            0 <= i < len,
            0 <= r < big_w,
            0 <= c < k,
            step == big_w * k,
    ;
    assert(0 <= i * step + r * k + c) by (nonlinear_arith)
        requires
            0 <= i,
            0 <= r,
            0 <= c,
            step >= 0,
            k > 0,
    ;
}

/// Transpose with cells of `offset` elements: the result has
/// `len * offset` columns and `step / offset` rows. A zero offset or one
/// that does not divide the step is refused.
pub fn mary_transpose(m: &Mary, offset: usize) -> (r: Result<Mary, KernelError>)
    requires
        m.wf(),
    ensures
        (offset > 0 && m.step % offset == 0 && m.len * offset <= usize::MAX) ==> r is Ok && r->Ok_0.wf() && r->Ok_0.step == m.len
            * offset && r->Ok_0.len == m.step / offset && r->Ok_0.dat@ == transpose_dat(
            m.dat@,
            m.step as nat,
            m.len as nat,
            offset as nat,
        ),
        !(offset > 0 && m.step % offset == 0 && m.len * offset <= usize::MAX) ==> r == Err::<Mary, KernelError>(
            KernelError::Precondition,
        ),
{
    if offset == 0 || m.step % offset != 0 || m.len > usize::MAX / offset {
        proof {
            if offset > 0 && m.len > usize::MAX / offset {
                lemma_fundamental_div_mod(usize::MAX as int, offset as int);
                assert(m.len * offset > usize::MAX) by (nonlinear_arith)
                    requires
                        m.len > usize::MAX / offset,
                        offset > 0,
                        usize::MAX == offset * (usize::MAX / offset) + usize::MAX % offset,
                        usize::MAX % offset < offset,
                ;
            }
        }
        return Err(KernelError::Precondition);
    }
    proof {
        lemma_fundamental_div_mod(usize::MAX as int, offset as int);
        assert(m.len * offset <= usize::MAX) by (nonlinear_arith)
            requires
                m.len <= usize::MAX / offset,
                offset > 0,
                usize::MAX == offset * (usize::MAX / offset) + usize::MAX % offset,
                usize::MAX % offset >= 0,
        ;
    }
    let step = m.step;
    let len = m.len;
    let total = m.dat.len();
    let res_len = step / offset;
    proof {
        lemma_fundamental_div_mod(step as int, offset as int);
        assert(len * offset * res_len == step * len) by (nonlinear_arith)
            requires step == offset * res_len;
        assert(len * offset <= step * len || len == 0 || step == 0) by (nonlinear_arith)
            requires step == offset * res_len, offset > 0;
    }
    let ghost target = transpose_dat(m.dat@, step as nat, len as nat, offset as nat);
    let mut dat: Vec<Belt> = Vec::new();
    let mut idx: usize = 0;
    while idx < total
        invariant
            idx <= total,
            total == m.dat@.len(),
            total == step * len,
            step == m.step,
            len == m.len,
            offset > 0,
            step % offset == 0,
            len * offset <= usize::MAX,
            target == transpose_dat(m.dat@, step as nat, len as nat, offset as nat),
            dat@ == target.subrange(0, idx as int),
        decreases total - idx,
    {
        proof {
            lemma_transpose_index(idx as int, step as int, len as int, offset as int);
        }
        let w = len * offset;
        let r = idx / w;
        let rest = idx % w;
        let src = (rest / offset) * step + r * offset + rest % offset;
        dat.push(m.dat[src]);
        assert(dat@ =~= target.subrange(0, idx + 1));
        idx = idx + 1;
    }
    assert(dat@ =~= target);
    let res_step = len * offset;
    proof {
        assert(res_step * res_len == step * len) by (nonlinear_arith)
            requires step == offset * res_len, res_step == len * offset;
    }
    Ok(Mary { step: res_step, len: res_len, dat })
}

/// The transpose of a table of single-element cells.
pub fn transpose_bpolys(bpolys: &Mary) -> (r: Mary)
    requires
        bpolys.wf(),
    ensures
        r.wf(),
        r.step == bpolys.len,
        r.len == bpolys.step,
        r.dat@ == transpose_dat(bpolys.dat@, bpolys.step as nat, bpolys.len as nat, 1),
{
    proof {
        lemma_fundamental_div_mod_converse(bpolys.step as int, 1, bpolys.step as int, 0);
    }
    match mary_transpose(bpolys, 1) {
        Ok(r) => r,
        Err(_) => Mary { step: 0, len: 0, dat: Vec::new() },
    }
}

/// The rows of `m1` followed by those of `m2`; tables of different steps are
/// refused.
pub fn mary_weld(m1: &Mary, m2: &Mary) -> (r: Result<Mary, KernelError>)
    requires
        m1.wf(),
        m2.wf(),
    ensures
        (m1.step == m2.step && m1.len + m2.len <= usize::MAX) ==> r is Ok && r->Ok_0.wf()
            && r->Ok_0.step == m1.step && r->Ok_0.len == m1.len + m2.len && r->Ok_0.dat@ == m1.dat@
            + m2.dat@,
        !(m1.step == m2.step && m1.len + m2.len <= usize::MAX) ==> r == Err::<Mary, KernelError>(
            KernelError::Precondition,
        ),
{
    if m1.step != m2.step || m1.len > usize::MAX - m2.len {
        return Err(KernelError::Precondition);
    }
    let step = m1.step;
    let total1 = m1.dat.len();
    let total2 = m2.dat.len();
    proof {
        assert(step * (m1.len + m2.len) == step * m1.len + step * m2.len) by (nonlinear_arith);
    }
    let mut dat: Vec<Belt> = Vec::new();
    let mut i: usize = 0;
    while i < total1
        invariant
            i <= total1,
            total1 == m1.dat@.len(),
            dat@ == m1.dat@.subrange(0, i as int),
        decreases total1 - i,
    {
        dat.push(m1.dat[i]);
        assert(dat@ =~= m1.dat@.subrange(0, i + 1));
        i = i + 1;
    }
    let mut j: usize = 0;
    while j < total2
        invariant
            j <= total2,
            total2 == m2.dat@.len(),
            dat@ == m1.dat@ + m2.dat@.subrange(0, j as int),
        decreases total2 - j,
    {
        dat.push(m2.dat[j]);
        assert(dat@ =~= m1.dat@ + m2.dat@.subrange(0, j + 1));
        j = j + 1;
    }
    assert(dat@ =~= m1.dat@ + m2.dat@);
    Ok(Mary { step, len: m1.len + m2.len, dat })
}

/// The `j` rows starting at row `i`; a range that runs past the last row is
/// refused.
pub fn mary_swag(m: &Mary, i: usize, j: usize) -> (r: Result<Mary, KernelError>)
    requires
        m.wf(),
    ensures
        i + j <= m.len ==> r is Ok && r->Ok_0.wf() && r->Ok_0.step == m.step && r->Ok_0.len == j
            && r->Ok_0.dat@ == m.dat@.subrange(i * m.step, (i + j) * m.step),
        i + j > m.len ==> r == Err::<Mary, KernelError>(KernelError::Precondition),
{
    if i > m.len || j > m.len - i {
        return Err(KernelError::Precondition);
    }
    let step = m.step;
    let total = m.dat.len();
    proof {
        assert((i + j) * step <= m.len * step) by (nonlinear_arith)
            requires i + j <= m.len;
        assert(i * step <= (i + j) * step) by (nonlinear_arith);
        assert((i + j) * step - i * step == j * step) by (nonlinear_arith);
        assert(m.len * step == step * m.len) by (nonlinear_arith);
    }
    let start = i * step;
    let end = (i + j) * step;
    let mut dat: Vec<Belt> = Vec::new();
    let mut t: usize = start;
    while t < end
        invariant
            start <= t <= end,
            end <= m.dat@.len(),
            dat@ == m.dat@.subrange(start as int, t as int),
        decreases end - t,
    {
        dat.push(m.dat[t]);
        assert(dat@ =~= m.dat@.subrange(start as int, t + 1));
        t = t + 1;
    }
    proof {
        assert(step * j == j * step) by (nonlinear_arith);
    }
    Ok(Mary { step, len: j, dat })
}

/// The transpose holds only elements of the table.
pub proof fn lemma_transpose_wf(dat: Seq<Belt>, step: nat, len: nat, k: nat)
    requires
        crate::bpoly::bpoly_wf(dat),
        k > 0,
        step % k == 0,
        dat.len() == step * len,
    ensures
        crate::bpoly::bpoly_wf(transpose_dat(dat, step, len, k)),
{
    assert forall|idx: int| 0 <= idx < transpose_dat(dat, step, len, k).len() implies (#[trigger] transpose_dat(dat, step, len, k)[idx]).wf() by {
        lemma_transpose_index(idx, step as int, len as int, k as int);
    }
}

/// Transposing twice with one cell width gives the table back.
pub proof fn lemma_transpose_round_trip(dat: Seq<Belt>, step: nat, len: nat, k: nat)
    requires
        k > 0,
        step % k == 0,
        dat.len() == step * len,
    ensures
        transpose_dat(transpose_dat(dat, step, len, k), len * k, step / k, k) == dat,
{
    let s = step as int;
    let l = len as int;
    let kk = k as int;
    let big_w = s / kk;
    lemma_fundamental_div_mod(s, kk);
    let once = transpose_dat(dat, step, len, k);
    let twice = transpose_dat(once, len * k, step / k, k);
    assert((l * kk) * big_w == s * l) by (nonlinear_arith)
        requires s == kk * big_w;
    assert(twice.len() == dat.len());
    assert forall|idx: int| 0 <= idx < dat.len() implies twice[idx] == dat[idx] by {
        // the second transpose reads cell (r2, i2, c2) of the first result
        let r2 = idx / s;
        let rest2 = idx % s;
        let i2 = rest2 / kk;
        let c2 = rest2 % kk;
        assert(big_w * kk == s);
        lemma_mod_multiples_basic(l, kk);
        lemma_div_multiples_vanish(l, kk);
        assert(idx < (l * kk) * big_w);
        lemma_transpose_index(idx, l * kk, big_w, kk);
        assert(0 <= r2 < l);
        assert(r2 * kk + c2 < l * kk) by (nonlinear_arith)
            requires 0 <= r2 < l, 0 <= c2 < kk;
        assert(0 <= r2 * kk + c2) by (nonlinear_arith)
            requires 0 <= r2, 0 <= c2, kk > 0;
        let idx1 = i2 * (l * kk) + r2 * kk + c2;
        assert(twice[idx] == once[idx1]);
        // which is cell (i2, r2, c2) of the input table
        lemma_transpose_index(idx1, s, l, kk);
        lemma_fundamental_div_mod_converse(idx1, l * kk, i2, r2 * kk + c2);
        lemma_fundamental_div_mod_converse(r2 * kk + c2, kk, r2, c2);
        assert(once[idx1] == dat[r2 * s + i2 * kk + c2]);
        lemma_fundamental_div_mod(idx, s);
        lemma_fundamental_div_mod(rest2, kk);
        assert(idx == r2 * s + i2 * kk + c2);
    }
    assert(twice =~= dat);
}

} // verus!
