//! Chunked table building and a cache-blocked butterfly transform over
//! 64-bit words.
use crate::memory_pool::PooledVec;
use vstd::arithmetic::div_mod::*;
use vstd::arithmetic::power2::*;
use vstd::prelude::*;

verus! {

/// Rows handled per chunk when building a table.
pub const CHUNK_SIZE: usize = 4096;

/// Rows visited per block during bit reversal.
pub const BLOCK_SIZE: usize = 64;

/// Builds tables chunk by chunk and runs a blocked butterfly transform.
pub struct StreamingProver {
    chunk_size: usize,
}

/// `bits` bits of `x`, least significant first, shifted into `acc`.
pub open spec fn rev_acc(x: nat, bits: nat, acc: nat) -> nat
    decreases bits,
{
    if bits == 0 {
        acc
    } else {
        rev_acc(x / 2, (bits - 1) as nat, 2 * acc + x % 2)
    }
}

/// The low `bits` bits of `x` in reverse order.
pub open spec fn rev_bits(x: nat, bits: nat) -> nat {
    rev_acc(x, bits, 0)
}

/// `d` with the entries at `a` and `b` exchanged.
pub open spec fn swap_at(d: Seq<u64>, a: int, b: int) -> Seq<u64> {
    d.update(a, d[b]).update(b, d[a])
}

/// The first `i` steps of bit reversal over the first `n` entries: step t
/// exchanges t with its reversal r when t < r < n.
pub open spec fn bitrev_steps(d: Seq<u64>, n: nat, bits: nat, i: nat) -> Seq<u64>
    decreases i,
{
    if i == 0 {
        d
    } else {
        let prev = bitrev_steps(d, n, bits, (i - 1) as nat);
        let t = i - 1;
        let r = rev_bits(t as nat, bits);
        if t < r && r < n {
            swap_at(prev, t, r as int)
        } else {
            prev
        }
    }
}

/// One butterfly pass with half-width `stride` over the first `n` entries:
/// each pair (i, i + stride) in a block of `2 * stride` becomes
/// (d[i] + d[i + stride], d[i] - d[i + stride]), wrapping.
pub open spec fn butterfly_pass(d: Seq<u64>, stride: nat, n: nat) -> Seq<u64> {
    Seq::new(
        d.len(),
        |t: int|
            {
                let k = t % (2 * stride as int);
                if k < stride && t + stride < n {
                    d[t].wrapping_add(d[t + stride])
                } else if k >= stride && t < n {
                    d[t - stride].wrapping_sub(d[t])
                } else {
                    d[t]
                }
            },
    )
}

/// Butterfly passes with half-widths stride, 2 * stride, ... below `n`.
pub open spec fn butterfly_passes(d: Seq<u64>, stride: nat, n: nat) -> Seq<u64>
    decreases (if stride >= n { 0 } else { n - stride }),
{
    if stride == 0 || stride >= n {
        d
    } else {
        butterfly_passes(butterfly_pass(d, stride, n), 2 * stride, n)
    }
}

/// Number of trailing zero bits of `n`, zero for zero.
pub open spec fn low_zeros(n: nat) -> nat
    decreases n,
{
    if n == 0 || n % 2 == 1 {
        0
    } else {
        1 + low_zeros(n / 2)
    }
}

/// `input` written over the start of `out`.
pub open spec fn copy_prefix(out: Seq<u64>, input: Seq<u64>) -> Seq<u64> {
    input + out.subrange(input.len() as int, out.len() as int)
}

/// The blocked transform of `fft_chunked`: `input` copied over the start of
/// `out`, its first `input.len()` entries bit-reversed, then butterfly passes
/// of half-width 1, 2, 4, ...
pub open spec fn chunked_transform(out: Seq<u64>, input: Seq<u64>) -> Seq<u64> {
    let n = input.len();
    butterfly_passes(bitrev_steps(copy_prefix(out, input), n, low_zeros(n), n), 1, n)
}

proof fn lemma_flat_index(rr: int, cc: int, k: int, nc: int)
    requires
        0 <= rr < k,
        0 <= cc < nc,
    ensures
        0 <= rr * nc + cc < k * nc,
        rr * nc + cc >= rr * nc,
{
    assert(0 <= rr * nc + cc < k * nc) by (nonlinear_arith)
        requires 0 <= rr < k, 0 <= cc < nc;
    assert(rr * nc >= 0) by (nonlinear_arith)
        requires 0 <= rr, 0 <= nc;
}

proof fn lemma_bitrev_len(d: Seq<u64>, n: nat, bits: nat, i: nat)
    requires
        n <= d.len(),
    ensures
        bitrev_steps(d, n, bits, i).len() == d.len(),
    decreases i,
{
    if i > 0 {
        lemma_bitrev_len(d, n, bits, (i - 1) as nat);
    }
}

/// Trailing zero bits of `n`, zero for zero.
fn low_zero_bits(n: usize) -> (r: u32)
    ensures
        r == low_zeros(n as nat),
        pow2(r as nat) <= usize::MAX as nat + 1,
{
    let mut m = n;
    let mut r: u32 = 0;
    proof {
        lemma2_to64();
    }
    while m > 0 && m % 2 == 0
        invariant
            r < 64,
            pow2(r as nat) * m == n,
            low_zeros(n as nat) == r + low_zeros(m as nat),
            m <= n,
        decreases m,
    {
        proof {
            lemma_pow2_unfold((r + 1) as nat);
            assert(pow2((r + 1) as nat) * (m / 2) == n) by (nonlinear_arith)
                requires
                    pow2((r + 1) as nat) == 2 * pow2(r as nat),
                    pow2(r as nat) * m == n,
                    m % 2 == 0,
            ;
            if r + 1 >= 64 {
                lemma_pow2_increases_to_64((r + 1) as nat);
                assert(false) by (nonlinear_arith)
                    requires
                        pow2((r + 1) as nat) >= 0x1_0000_0000_0000_0000,
                        pow2((r + 1) as nat) * (m / 2) == n,
                        m / 2 >= 1,
                        n <= usize::MAX,
                        usize::MAX <= 0xffff_ffff_ffff_ffff,
                ;
            }
        }
        m = m / 2;
        r = r + 1;
    }
    proof {
        if n > 0 {
            lemma_pow2_pos(r as nat);
            assert(pow2(r as nat) <= n) by (nonlinear_arith)
                requires pow2(r as nat) * m == n, m >= 1;
        } else {
            assert(r == 0);
        }
    }
    r
}

proof fn lemma_pow2_increases_to_64(e: nat)
    requires
        e >= 64,
    ensures
        pow2(e) >= 0x1_0000_0000_0000_0000,
{
    lemma2_to64();
    if e > 64 {
        lemma_pow2_strictly_increases(64, e);
    }
}

impl StreamingProver {
    /// The number of rows per chunk.
    pub closed spec fn chunk(&self) -> usize {
        self.chunk_size
    }

    pub fn new() -> (r: StreamingProver)
        ensures
            r.chunk() == CHUNK_SIZE,
    {
        StreamingProver { chunk_size: CHUNK_SIZE }
    }

    /// The table of `num_rows` generated rows of `num_cols` entries, returned
    /// as its columns; rows are generated and transposed a chunk at a time.
    pub fn build_table_streaming<F: Fn(usize) -> Vec<u64>>(
        &self,
        num_rows: usize,
        num_cols: usize,
        row_generator: F,
    ) -> (r: Vec<Vec<u64>>)
        requires
            self.chunk() > 0,
            forall|i: usize| i < num_rows ==> row_generator.requires((i,)),
            forall|i: usize, v: Vec<u64>| row_generator.ensures((i,), v) ==> v@.len() == num_cols,
        ensures
            r@.len() == num_cols,
            exists|rows: Seq<Vec<u64>>|
                {
                    &&& rows.len() == num_rows
                    &&& forall|i: int|
                        0 <= i < num_rows ==> row_generator.ensures((i as usize,), #[trigger] rows[i])
                    &&& forall|c: int|
                        0 <= c < num_cols ==> (#[trigger] r@[c])@ == Seq::new(
                            num_rows as nat,
                            |i: int| rows[i]@[c],
                        )
                },
    {
        let mut result: Vec<Vec<u64>> = Vec::new();
        let mut c: usize = 0;
        while c < num_cols
            invariant
                c <= num_cols,
                result@.len() == c,
                forall|t: int| 0 <= t < c ==> (#[trigger] result@[t])@ == Seq::<u64>::empty(),
            decreases num_cols - c,
        {
            result.push(Vec::new());
            c = c + 1;
        }
        let ghost mut rows: Seq<Vec<u64>> = Seq::empty();
        let mut chunk_start: usize = 0;
        while chunk_start < num_rows
            invariant
                self.chunk() > 0,
                chunk_start <= num_rows,
                forall|i: usize| i < num_rows ==> row_generator.requires((i,)),
                forall|i: usize, v: Vec<u64>| row_generator.ensures((i,), v) ==> v@.len() == num_cols,
                rows.len() == chunk_start,
                forall|i: int| 0 <= i < chunk_start ==> row_generator.ensures((i as usize,), #[trigger] rows[i]),
                result@.len() == num_cols,
                forall|t: int|
                    0 <= t < num_cols ==> (#[trigger] result@[t])@ == Seq::new(
                        chunk_start as nat,
                        |i: int| rows[i]@[t],
                    ),
            decreases num_rows - chunk_start,
        {
            let chunk_end = if num_rows - chunk_start < self.chunk_size {
                num_rows
            } else {
                chunk_start + self.chunk_size
            };
            let mut chunk_data: Vec<u64> = Vec::new();
            let mut row_idx: usize = chunk_start;
            while row_idx < chunk_end
                invariant
                    chunk_start <= row_idx <= chunk_end <= num_rows,
                    forall|i: usize| i < num_rows ==> row_generator.requires((i,)),
                    forall|i: usize, v: Vec<u64>| row_generator.ensures((i,), v) ==> v@.len() == num_cols,
                    rows.len() == row_idx,
                    forall|i: int| 0 <= i < row_idx ==> row_generator.ensures((i as usize,), #[trigger] rows[i]),
                    result@.len() == num_cols,
                    forall|t: int|
                        0 <= t < num_cols ==> (#[trigger] result@[t])@ == Seq::new(
                            chunk_start as nat,
                            |i: int| rows[i]@[t],
                        ),
                    chunk_data@.len() == (row_idx - chunk_start) * num_cols,
                    forall|rr: int, cc: int|
                        0 <= rr < row_idx - chunk_start && 0 <= cc < num_cols ==> chunk_data@[rr
                            * num_cols + cc] == #[trigger] rows[chunk_start + rr]@[cc],
                decreases chunk_end - row_idx,
            {
                let row = row_generator(row_idx);
                proof {
                    let old_rows = rows;
                    rows = rows.push(row);
                    assert forall|t: int| 0 <= t < num_cols implies (#[trigger] result@[t])@ == Seq::new(
                        chunk_start as nat,
                        |i: int| rows[i]@[t],
                    ) by {
                        assert(result@[t]@ == Seq::new(chunk_start as nat, |i: int| old_rows[i]@[t]));
                        assert(result@[t]@ =~= Seq::new(chunk_start as nat, |i: int| rows[i]@[t]));
                    }
                }
                let ghost before = chunk_data@;
                let mut x: usize = 0;
                while x < row.len()
                    invariant
                        x <= row@.len(),
                        row@.len() == num_cols,
                        chunk_data@ == before + row@.subrange(0, x as int),
                    decreases row@.len() - x,
                {
                    chunk_data.push(row[x]);
                    assert(chunk_data@ =~= before + row@.subrange(0, x + 1));
                    x = x + 1;
                }
                proof {
                    let k = (row_idx - chunk_start) as int;
                    assert(chunk_data@.len() == (k + 1) * num_cols) by (nonlinear_arith)
                        requires chunk_data@.len() == k * num_cols + num_cols;
                    assert forall|rr: int, cc: int|
                        0 <= rr < k + 1 && 0 <= cc < num_cols implies chunk_data@[rr * num_cols + cc]
                        == #[trigger] rows[chunk_start + rr]@[cc] by {
                        lemma_flat_index(rr, cc, k + 1, num_cols as int);
                        if rr < k {
                            lemma_flat_index(rr, cc, k, num_cols as int);
                        } else {
                            assert(rr * num_cols == k * num_cols);
                        }
                    }
                }
                row_idx = row_idx + 1;
            }
            let chunk_len = chunk_end - chunk_start;
            let cd_len = chunk_data.len();
            let mut row: usize = 0;
            while row < chunk_len
                invariant
                    chunk_len == chunk_end - chunk_start,
                    chunk_end <= num_rows,
                    row <= chunk_len,
                    rows.len() == chunk_end,
                    chunk_data@.len() == chunk_len * num_cols,
                    cd_len == chunk_data@.len(),
                    forall|rr: int, cc: int|
                        0 <= rr < chunk_len && 0 <= cc < num_cols ==> chunk_data@[rr * num_cols + cc]
                            == #[trigger] rows[chunk_start + rr]@[cc],
                    result@.len() == num_cols,
                    forall|t: int|
                        0 <= t < num_cols ==> (#[trigger] result@[t])@ == Seq::new(
                            (chunk_start + row) as nat,
                            |i: int| rows[i]@[t],
                        ),
                decreases chunk_len - row,
            {
                let mut col: usize = 0;
                while col < num_cols
                    invariant
                        chunk_len == chunk_end - chunk_start,
                        chunk_end <= num_rows,
                        row < chunk_len,
                        col <= num_cols,
                        rows.len() == chunk_end,
                        chunk_data@.len() == chunk_len * num_cols,
                        cd_len == chunk_data@.len(),
                        forall|rr: int, cc: int|
                            0 <= rr < chunk_len && 0 <= cc < num_cols ==> chunk_data@[rr * num_cols
                                + cc] == #[trigger] rows[chunk_start + rr]@[cc],
                        result@.len() == num_cols,
                        forall|t: int|
                            0 <= t < col ==> (#[trigger] result@[t])@ == Seq::new(
                                (chunk_start + row + 1) as nat,
                                |i: int| rows[i]@[t],
                            ),
                        forall|t: int|
                            col <= t < num_cols ==> (#[trigger] result@[t])@ == Seq::new(
                                (chunk_start + row) as nat,
                                |i: int| rows[i]@[t],
                            ),
                    decreases num_cols - col,
                {
                    proof {
                        lemma_flat_index(row as int, col as int, chunk_len as int, num_cols as int);
                    }
                    let v = chunk_data[row * num_cols + col];
                    let mut column = Vec::new();
                    std::mem::swap(&mut column, &mut result[col]);
                    column.push(v);
                    result.set(col, column);
                    assert(result@[col as int]@ =~= Seq::new(
                        (chunk_start + row + 1) as nat,
                        |i: int| rows[i]@[col as int],
                    ));
                    col = col + 1;
                }
                row = row + 1;
            }
            chunk_start = chunk_end;
        }
        result
    }

    /// The low `bits` bits of `x`, reversed.
    pub fn reverse_bits(&self, x: usize, bits: u32) -> (r: usize)
        requires
            pow2(bits as nat) <= usize::MAX as nat + 1,
        ensures
            r == rev_bits(x as nat, bits as nat),
    {
        let mut acc: usize = 0;
        let mut y: usize = x;
        let mut i: u32 = 0;
        proof {
            lemma2_to64();
        }
        assert(x as nat == y as nat);
        while i < bits
            invariant
                i <= bits,
                pow2(bits as nat) <= usize::MAX as nat + 1,
                acc < pow2(i as nat),
                rev_bits(x as nat, bits as nat) == rev_acc(y as nat, (bits - i) as nat, acc as nat),
            decreases bits - i,
        {
            proof {
                lemma_pow2_unfold((i + 1) as nat);
                if i + 1 < bits {
                    lemma_pow2_strictly_increases((i + 1) as nat, bits as nat);
                }
            }
            acc = acc * 2 + y % 2;
            y = y / 2;
            i = i + 1;
        }
        acc
    }

    /// Bit reversal of the first `n` entries, visited in blocks of
    /// `BLOCK_SIZE`: entry i is exchanged with its reversal j when i < j < n.
    fn bit_reversal_blocked(&self, data: &mut [u64], n: usize)
        requires
            n <= old(data)@.len(),
        ensures
            final(data)@ == bitrev_steps(old(data)@, n as nat, low_zeros(n as nat), n as nat),
    {
        let ghost orig = data@;
        let bits = low_zero_bits(n);
        let mut block_start: usize = 0;
        while block_start < n
            invariant
                n <= orig.len(),
                bits == low_zeros(n as nat),
                pow2(bits as nat) <= usize::MAX as nat + 1,
                block_start <= n,
                data@.len() == orig.len(),
                data@ == bitrev_steps(orig, n as nat, bits as nat, block_start as nat),
            decreases n - block_start,
        {
            let block_end = if n - block_start < BLOCK_SIZE { n } else { block_start + BLOCK_SIZE };
            let mut i: usize = block_start;
            while i < block_end
                invariant
                    n <= orig.len(),
                    bits == low_zeros(n as nat),
                    pow2(bits as nat) <= usize::MAX as nat + 1,
                    block_start <= i <= block_end <= n,
                    data@.len() == orig.len(),
                    data@ == bitrev_steps(orig, n as nat, bits as nat, i as nat),
                decreases block_end - i,
            {
                let j = self.reverse_bits(i, bits);
                if i < j && j < n {
                    let a = data[i];
                    let b = data[j];
                    data[i] = b;
                    data[j] = a;
                }
                i = i + 1;
            }
            block_start = block_end;
        }
    }

    /// Copies `input` over the start of `output`, bit-reverses that prefix and
    /// runs butterfly passes of half-width 1, 2, 4, ... over it.
    fn fft_chunked(&self, input: &[u64], output: &mut [u64], workspace: &mut [u64])
        requires
            input@.len() <= old(output)@.len(),
            input@.len() <= usize::MAX / 4,
        ensures
            final(output)@ == chunked_transform(old(output)@, input@),
    {
        let n = input.len();
        let ghost orig = output@;
        let mut i: usize = 0;
        while i < n
            invariant
                n == input@.len(),
                n <= orig.len(),
                output@.len() == orig.len(),
                i <= n,
                forall|t: int| 0 <= t < orig.len() ==> #[trigger] output@[t] == if t < i { input@[t] } else { orig[t] },
            decreases n - i,
        {
            output[i] = input[i];
            i = i + 1;
        }
        assert(output@ =~= copy_prefix(orig, input@));
        self.bit_reversal_blocked(output, n);
        proof {
            lemma_bitrev_len(copy_prefix(orig, input@), n as nat, low_zeros(n as nat), n as nat);
        }
        let mut stride: usize = 1;
        while stride < n
            invariant
                n == input@.len(),
                n <= usize::MAX / 4,
                n <= output@.len(),
                0 < stride,
                stride <= 2 * n + 1,
                butterfly_passes(output@, stride as nat, n as nat) == chunked_transform(orig, input@),
            decreases 2 * n + 1 - stride,
        {
            self.fft_pass_blocked(output, workspace, stride, n);
            stride = stride * 2;
        }
    }

    /// The blocked transform of `values` in a fresh zeroed buffer of
    /// `domain_size` entries.
    pub fn interpolate_streaming(&self, values: &[u64], domain_size: usize) -> (r: PooledVec)
        requires
            values@.len() <= domain_size,
            domain_size <= usize::MAX / 4,
        ensures
            r@ == chunked_transform(Seq::new(domain_size as nat, |i: int| 0u64), values@),
            r.class() == crate::memory_pool::size_class_of(domain_size as nat),
    {
        let mut result = PooledVec::new(domain_size);
        let mut workspace: Vec<u64> = vec![0u64; domain_size * 2];
        self.fft_chunked(values, result.as_mut_slice(), workspace.as_mut_slice());
        result
    }

    /// One butterfly pass of half-width `stride` over the first `n` entries;
    /// `workspace` is left alone.
    fn fft_pass_blocked(&self, data: &mut [u64], workspace: &mut [u64], stride: usize, n: usize)
        requires
            n <= old(data)@.len(),
            0 < stride,
            n + 2 * stride <= usize::MAX,
        ensures
            final(data)@ == butterfly_pass(old(data)@, stride as nat, n as nat),
            final(workspace)@ == old(workspace)@,
    {
        let ghost orig = data@;
        let ghost target = butterfly_pass(orig, stride as nat, n as nat);
        let half_stride = stride;
        let full_stride = stride * 2;
        let mut start: usize = 0;
        while start < n
            invariant
                n <= orig.len(),
                n + 2 * stride <= usize::MAX,
                data@.len() == orig.len(),
                full_stride == 2 * half_stride,
                half_stride == stride,
                0 < stride,
                start <= n + full_stride,
                (start as int) % (full_stride as int) == 0,
                target == butterfly_pass(orig, stride as nat, n as nat),
                forall|t: int|
                    0 <= t < data@.len() ==> #[trigger] data@[t] == if t < start {
                        target[t]
                    } else {
                        orig[t]
                    },
            decreases n + full_stride - start,
        {
            let mut k: usize = 0;
            while k < half_stride
                invariant
                    n <= orig.len(),
                    n + 2 * stride <= usize::MAX,
                    start < n,
                    data@.len() == orig.len(),
                    full_stride == 2 * half_stride,
                    half_stride == stride,
                    0 < stride,
                    (start as int) % (full_stride as int) == 0,
                    k <= half_stride,
                    target == butterfly_pass(orig, stride as nat, n as nat),
                    forall|t: int|
                        0 <= t < data@.len() ==> #[trigger] data@[t] == if t < start || (start <= t
                            < start + k) || (start + half_stride <= t < start + half_stride + k) {
                            target[t]
                        } else {
                            orig[t]
                        },
                decreases half_stride - k,
            {
                let i = start + k;
                let j = start + k + half_stride;
                proof {
                    let f = full_stride as int;
                    lemma_fundamental_div_mod(start as int, f);
                    assert(start as int == (start as int / f) * f);
                    lemma_fundamental_div_mod_converse(i as int, f, start as int / f, k as int);
                    lemma_fundamental_div_mod_converse(
                        j as int,
                        f,
                        start as int / f,
                        (k + half_stride) as int,
                    );
                }
                if j < n {
                    let t = data[j];
                    let di = data[i];
                    data[j] = di.wrapping_sub(t);
                    data[i] = di.wrapping_add(t);
                }
                k = k + 1;
            }
            proof {
                lemma_mod_add_multiples_vanish(start as int, full_stride as int);
            }
            start = start + full_stride;
        }
        assert(data@ =~= target);
    }
}

} // verus!
