//! A sponge hash over sixteen lanes of the base field: inputs are padded,
//! carried into the Montgomery domain and absorbed ten lanes at a time,
//! each block followed by the fixed permutation, which the caller supplies.
use crate::belt::{Belt, P};
use crate::error::KernelError;
use crate::montgomery::{
    lemma_montgomery_round_trip, mont_reduction, mont_reduction_s, montify, montify_s,
};
use vstd::prelude::*;

verus! {

/// Number of lanes of the sponge state.
pub const STATE_SIZE: usize = 16;

/// Number of lanes that one block overwrites.
pub const RATE: usize = 10;

/// Number of lanes read out as the digest.
pub const DIGEST_LENGTH: usize = 5;

/// The input padded with a one and then zeros up to a positive multiple of
/// `RATE`.
pub open spec fn pad(input: Seq<Belt>) -> Seq<Belt> {
    input + seq![Belt(1)] + Seq::new(
        (RATE - input.len() % (RATE as nat) - 1) as nat,
        |i: int| Belt(0),
    )
}

/// The padded input in the Montgomery domain: the lanes that are absorbed.
pub open spec fn sponge_input(input: Seq<Belt>) -> Seq<Belt> {
    pad(input).map_values(|b: Belt| montify_s(b))
}

/// Block `k` of an absorbed sequence.
pub open spec fn block(s: Seq<Belt>, k: int) -> Seq<Belt> {
    s.subrange(k * RATE, k * RATE + RATE)
}

/// The state with its first `RATE` lanes overwritten by `blk`.
pub open spec fn overwrite(state: Seq<u64>, blk: Seq<Belt>) -> Seq<u64> {
    Seq::new(STATE_SIZE as nat, |i: int| if i < RATE { blk[i].0 } else { state[i] })
}

/// `after` is what one absorption of `blk` into `before` may give under
/// `permute`.
pub open spec fn absorb_step<F: Fn([u64; 16]) -> [u64; 16]>(
    permute: F,
    before: [u64; 16],
    blk: Seq<Belt>,
    after: [u64; 16],
) -> bool {
    exists|pre: [u64; 16]| pre@ == overwrite(before@, blk) && permute.ensures((pre,), after)
}

/// `states` starts from the zero state and absorbs the blocks of `lanes` one
/// after the other.
pub open spec fn sponge_trace<F: Fn([u64; 16]) -> [u64; 16]>(
    permute: F,
    lanes: Seq<Belt>,
    states: Seq<[u64; 16]>,
) -> bool {
    &&& states.len() == lanes.len() / (RATE as nat) + 1
    &&& states[0]@ == Seq::new(STATE_SIZE as nat, |i: int| 0u64)
    &&& forall|k: int|
        0 <= k < states.len() - 1 ==> #[trigger] absorb_step(
            permute,
            states[k],
            block(lanes, k),
            states[k + 1],
        )
}

/// The digest read from a final state: its first lanes out of the
/// Montgomery domain.
pub open spec fn digest_of(state: [u64; 16]) -> Seq<u64> {
    Seq::new(DIGEST_LENGTH as nat, |i: int| mont_reduction_s(state@[i] as int).0)
}

/// `digest` is a digest of `input` under `permute`.
pub open spec fn is_hash_varlen<F: Fn([u64; 16]) -> [u64; 16]>(
    permute: F,
    input: Seq<Belt>,
    digest: Seq<u64>,
) -> bool {
    exists|states: Seq<[u64; 16]>|
        sponge_trace(permute, sponge_input(input), states) && digest == digest_of(
            states.last(),
        )
}

/// Overwrites the first `RATE` lanes of the sponge with `input` and permutes.
pub fn absorb_rate<F: Fn([u64; 16]) -> [u64; 16]>(
    sponge: &mut [u64; 16],
    input: &[Belt],
    permute: &F,
)
    requires
        input@.len() == RATE,
        forall|s: [u64; 16]| permute.requires((s,)),
    ensures
        absorb_step(*permute, *old(sponge), input@, *final(sponge)),
{
    let ghost before = *sponge;
    let mut copy_pos: usize = 0;
    while copy_pos < RATE
        invariant
            copy_pos <= RATE,
            input@.len() == RATE,
            forall|i: int| 0 <= i < copy_pos ==> sponge@[i] == input@[i].0,
            forall|i: int| copy_pos <= i < STATE_SIZE ==> sponge@[i] == before@[i],
        decreases RATE - copy_pos,
    {
        sponge[copy_pos] = input[copy_pos].0;
        copy_pos = copy_pos + 1;
    }
    let pre = *sponge;
    assert(pre@ == overwrite(before@, input@));
    *sponge = permute(pre);
}

/// Hashes a sequence of canonical base-field elements to a digest of
/// `DIGEST_LENGTH` canonical elements; a non-canonical input is refused.
pub fn hash_varlen<F: Fn([u64; 16]) -> [u64; 16]>(input: &Vec<Belt>, permute: &F) -> (r: Result<
    Vec<u64>,
    KernelError,
>)
    requires
        input@.len() + RATE <= usize::MAX,
        forall|s: [u64; 16]| permute.requires((s,)),
    ensures
        match r {
            Ok(d) => (forall|i: int| 0 <= i < input@.len() ==> (#[trigger] input@[i]).wf())
                && is_hash_varlen(*permute, input@, d@),
            Err(e) => e == KernelError::Precondition && exists|i: int|
                0 <= i < input@.len() && !(#[trigger] input@[i]).wf(),
        },
{
    let n = input.len();
    let mut i: usize = 0;
    while i < n
        invariant
            i <= n,
            n == input@.len(),
            forall|j: int| 0 <= j < i ==> (#[trigger] input@[j]).wf(),
        decreases n - i,
    {
        if input[i].0 >= P {
            return Err(KernelError::Precondition);
        }
        i = i + 1;
    }
    let ghost target = sponge_input(input@);
    let ghost padded = pad(input@);
    let zeros = RATE - n % RATE - 1;
    assert(padded.len() == n + 1 + zeros);
    assert(target.len() == n + 1 + zeros);
    let mut lanes: Vec<Belt> = Vec::new();
    i = 0;
    while i < n
        invariant
            i <= n,
            n == input@.len(),
            target == sponge_input(input@),
            padded == pad(input@),
            target.len() == n + 1 + zeros,
            forall|j: int| 0 <= j < n ==> (#[trigger] input@[j]).wf(),
            lanes@ == target.subrange(0, i as int),
        decreases n - i,
    {
        assert(padded[i as int] == input@[i as int]);
        lanes.push(montify(input[i]));
        assert(lanes@ =~= target.subrange(0, i + 1));
        i = i + 1;
    }
    assert(padded[n as int] == Belt(1));
    lanes.push(montify(Belt(1)));
    assert(lanes@ =~= target.subrange(0, n + 1));
    let mut z: usize = 0;
    while z < zeros
        invariant
            z <= zeros,
            zeros == RATE - n % RATE - 1,
            target == sponge_input(input@),
            padded == pad(input@),
            target.len() == n + 1 + zeros,
            n == input@.len(),
            lanes@ == target.subrange(0, n + 1 + z),
        decreases zeros - z,
    {
        let ghost head = input@ + seq![Belt(1)];
        let ghost tail = Seq::new(zeros as nat, |i: int| Belt(0));
        assert(head.len() == n + 1);
        assert(padded == head + tail);
        assert(padded[n + 1 + z] == tail[z as int]);
        lanes.push(montify(Belt(0)));
        assert(lanes@ =~= target.subrange(0, n + 1 + z + 1));
        z = z + 1;
    }
    assert(lanes@ =~= target);
    let nblocks = n / RATE + 1;
    let total = lanes.len();
    assert(total == nblocks * RATE);
    let mut sponge: [u64; 16] = [0u64; 16];
    let ghost mut states: Seq<[u64; 16]> = seq![sponge];
    assert(states[0]@ =~= Seq::new(STATE_SIZE as nat, |i: int| 0u64));
    let mut k: usize = 0;
    while k < nblocks
        invariant
            k <= nblocks,
            nblocks == n / RATE + 1,
            lanes@ == target,
            target == sponge_input(input@),
            target.len() == nblocks * RATE,
            total == nblocks * RATE,
            forall|s: [u64; 16]| permute.requires((s,)),
            states.len() == k + 1,
            states[0]@ == Seq::new(STATE_SIZE as nat, |i: int| 0u64),
            states.last() == sponge,
            forall|j: int|
                0 <= j < k ==> #[trigger] absorb_step(
                    *permute,
                    states[j],
                    block(target, j),
                    states[j + 1],
                ),
        decreases nblocks - k,
    {
        assert(k * RATE + RATE <= nblocks * RATE) by (nonlinear_arith)
            requires k < nblocks;
        let blk = vstd::slice::slice_subrange(lanes.as_slice(), k * RATE, k * RATE + RATE);
        let ghost before = states;
        absorb_rate(&mut sponge, blk, permute);
        proof {
            states = states.push(sponge);
            assert forall|j: int| 0 <= j < k + 1 implies #[trigger] absorb_step(
                *permute,
                states[j],
                block(target, j),
                states[j + 1],
            ) by {
                if j < k {
                    assert(states[j] == before[j] && states[j + 1] == before[j + 1]);
                }
            }
        }
        k = k + 1;
    }
    assert(sponge_trace(*permute, target, states));
    let mut digest: Vec<u64> = Vec::new();
    let mut d: usize = 0;
    while d < DIGEST_LENGTH
        invariant
            d <= DIGEST_LENGTH,
            states.len() == nblocks + 1,
            states.last() == sponge,
            digest@ == digest_of(sponge).subrange(0, d as int),
        decreases DIGEST_LENGTH - d,
    {
        let lane = mont_reduction(sponge[d] as u128);
        digest.push(lane.0);
        assert(digest@ =~= digest_of(sponge).subrange(0, d + 1));
        d = d + 1;
    }
    assert(digest@ =~= digest_of(states.last()));
    Ok(digest)
}

proof fn lemma_traces_agree<F: Fn([u64; 16]) -> [u64; 16]>(
    permute: F,
    lanes: Seq<Belt>,
    s1: Seq<[u64; 16]>,
    s2: Seq<[u64; 16]>,
    k: int,
)
    requires
        forall|s: [u64; 16], a: [u64; 16], b: [u64; 16]|
            permute.ensures((s,), a) && permute.ensures((s,), b) ==> a == b,
        sponge_trace(permute, lanes, s1),
        sponge_trace(permute, lanes, s2),
        0 <= k < s1.len(),
    ensures
        s1[k] == s2[k],
    decreases k,
{
    if k == 0 {
        assert(s1[0] =~= s2[0]);
    } else {
        lemma_traces_agree(permute, lanes, s1, s2, k - 1);
        let j = k - 1;
        assert(absorb_step(permute, s1[j], block(lanes, j), s1[j + 1]));
        assert(absorb_step(permute, s2[j], block(lanes, j), s2[j + 1]));
        assert(j + 1 == k);
        let pre1 = choose|pre: [u64; 16]|
            pre@ == overwrite(s1[k - 1]@, block(lanes, k - 1)) && permute.ensures((pre,), s1[k]);
        let pre2 = choose|pre: [u64; 16]|
            pre@ == overwrite(s2[k - 1]@, block(lanes, k - 1)) && permute.ensures((pre,), s2[k]);
        assert(pre1 =~= pre2);
    }
}

/// With a deterministic permutation, the same input always hashes to the
/// same digest.
pub proof fn lemma_hash_varlen_deterministic<F: Fn([u64; 16]) -> [u64; 16]>(
    permute: F,
    input: Seq<Belt>,
    d1: Seq<u64>,
    d2: Seq<u64>,
)
    requires
        forall|s: [u64; 16], a: [u64; 16], b: [u64; 16]|
            permute.ensures((s,), a) && permute.ensures((s,), b) ==> a == b,
        is_hash_varlen(permute, input, d1),
        is_hash_varlen(permute, input, d2),
    ensures
        d1 == d2,
{
    let lanes = sponge_input(input);
    let s1 = choose|states: Seq<[u64; 16]>|
        sponge_trace(permute, lanes, states) && d1 == digest_of(states.last());
    let s2 = choose|states: Seq<[u64; 16]>|
        sponge_trace(permute, lanes, states) && d2 == digest_of(states.last());
    lemma_traces_agree(permute, lanes, s1, s2, s1.len() - 1);
}

/// Two canonical inputs of one length that differ in any element are
/// absorbed as different lanes.
pub proof fn lemma_sponge_input_injective(a: Seq<Belt>, b: Seq<Belt>, i: int)
    requires
        a.len() == b.len(),
        forall|j: int| 0 <= j < a.len() ==> (#[trigger] a[j]).wf(),
        forall|j: int| 0 <= j < b.len() ==> (#[trigger] b[j]).wf(),
        0 <= i < a.len(),
        a[i] != b[i],
    ensures
        sponge_input(a) != sponge_input(b),
        sponge_input(a)[i] != sponge_input(b)[i],
{
    assert(pad(a)[i] == a[i]);
    assert(pad(b)[i] == b[i]);
    assert(sponge_input(a)[i] == montify_s(a[i]));
    assert(sponge_input(b)[i] == montify_s(b[i]));
    lemma_montgomery_round_trip(a[i]);
    lemma_montgomery_round_trip(b[i]);
}

} // verus!
