use zkvm_jetpack::belt::{Belt, P};
use zkvm_jetpack::error::KernelError;
use zkvm_jetpack::mary::{mary_swag, mary_transpose, mary_weld, transpose_bpolys, Mary};
use zkvm_jetpack::memory_pool::PooledVec;
use zkvm_jetpack::mining::MiningWire;
use zkvm_jetpack::sponge::{hash_varlen, DIGEST_LENGTH};
use zkvm_jetpack::streaming::StreamingProver;

fn bp(v: &[u64]) -> Vec<Belt> {
    v.iter().map(|&x| Belt(x)).collect()
}

fn table(step: usize, v: &[u64]) -> Mary {
    Mary::new(step, bp(v)).unwrap()
}

fn toy_permutation(s: [u64; 16]) -> [u64; 16] {
    let mut t = [0u64; 16];
    for i in 0..16 {
        t[i] = s[(i + 1) % 16] ^ (i as u64);
    }
    t
}

#[test]
fn mary_new_checks_shape() {
    let m = table(4, &[1, 2, 3, 4, 5, 6, 7, 8]);
    assert_eq!((m.step, m.len), (4, 2));
    assert!(Mary::new(3, bp(&[1, 2, 3, 4])).is_err());
    assert!(Mary::new(0, bp(&[])).is_err());
}

#[test]
fn transpose_single_cells() {
    let m = table(4, &[1, 2, 3, 4, 5, 6, 7, 8]);
    let t = mary_transpose(&m, 1).unwrap();
    assert_eq!((t.step, t.len), (2, 4));
    assert_eq!(t.dat, bp(&[1, 5, 2, 6, 3, 7, 4, 8]));
    let b = transpose_bpolys(&m);
    assert_eq!(b.dat, t.dat);
}

#[test]
fn transpose_wide_cells() {
    let m = table(4, &[1, 2, 3, 4, 5, 6, 7, 8]);
    let t = mary_transpose(&m, 2).unwrap();
    assert_eq!((t.step, t.len), (4, 2));
    assert_eq!(t.dat, bp(&[1, 2, 5, 6, 3, 4, 7, 8]));
}

#[test]
fn transpose_twice_restores_table() {
    let m = table(6, &[1, 2, 3, 4, 5, 6, 7, 8, 9, 10, 11, 12, 13, 14, 15, 16, 17, 18]);
    for k in [1usize, 2, 3, 6] {
        let once = mary_transpose(&m, k).unwrap();
        let twice = mary_transpose(&once, k).unwrap();
        assert_eq!((twice.step, twice.len), (m.step, m.len));
        assert_eq!(twice.dat, m.dat);
    }
}

#[test]
fn transpose_rejects_bad_offset() {
    let m = table(4, &[1, 2, 3, 4]);
    assert_eq!(mary_transpose(&m, 3).err(), Some(KernelError::Precondition));
    assert_eq!(mary_transpose(&m, 0).err(), Some(KernelError::Precondition));
}

#[test]
fn weld_concatenates_rows() {
    let a = table(2, &[1, 2, 3, 4]);
    let b = table(2, &[5, 6]);
    let w = mary_weld(&a, &b).unwrap();
    assert_eq!((w.step, w.len), (2, 3));
    assert_eq!(w.dat, bp(&[1, 2, 3, 4, 5, 6]));
    let c = table(3, &[5, 6, 7]);
    assert_eq!(mary_weld(&a, &c).err(), Some(KernelError::Precondition));
}

#[test]
fn swag_extracts_rows() {
    let m = table(2, &[1, 2, 3, 4, 5, 6, 7, 8]);
    let s = mary_swag(&m, 1, 2).unwrap();
    assert_eq!((s.step, s.len), (2, 2));
    assert_eq!(s.dat, bp(&[3, 4, 5, 6]));
    assert_eq!(mary_swag(&m, 4, 0).unwrap().dat, bp(&[]));
    assert_eq!(mary_swag(&m, 3, 2).err(), Some(KernelError::Precondition));
}

#[test]
fn hash_varlen_pads_to_one_block() {
    let calls = std::cell::Cell::new(0u32);
    let perm = |s: [u64; 16]| {
        calls.set(calls.get() + 1);
        toy_permutation(s)
    };
    let d = hash_varlen(&bp(&[1, 2, 3]), &perm).unwrap();
    assert_eq!(calls.get(), 1);
    assert_eq!(d.len(), DIGEST_LENGTH);
    assert_eq!(
        d,
        vec![2, 4294967299, 8589934593, 18446744056529682433, 18446744052234715137]
    );
}

#[test]
fn hash_varlen_full_block_gets_padding_block() {
    let calls = std::cell::Cell::new(0u32);
    let perm = |s: [u64; 16]| {
        calls.set(calls.get() + 1);
        toy_permutation(s)
    };
    let input: Vec<u64> = (1..=10).collect();
    let d = hash_varlen(&bp(&input), &perm).unwrap();
    assert_eq!(calls.get(), 2);
    assert_eq!(
        d,
        vec![0, 18446744065119617025, 18446744060824649729, 18446744056529682433, 18446744052234715137]
    );
}

#[test]
fn hash_varlen_is_deterministic_and_input_sensitive() {
    let a = hash_varlen(&bp(&[1, 2, 3]), &toy_permutation).unwrap();
    let b = hash_varlen(&bp(&[1, 2, 3]), &toy_permutation).unwrap();
    let c = hash_varlen(&bp(&[1, 2, 4]), &toy_permutation).unwrap();
    assert_eq!(a, b);
    assert_ne!(a, c);
}

#[test]
fn hash_varlen_rejects_noncanonical_input() {
    assert_eq!(
        hash_varlen(&bp(&[1, P]), &toy_permutation),
        Err(KernelError::Precondition)
    );
}

#[test]
fn pooled_vec_is_zeroed_and_writable() {
    let mut v = PooledVec::new(5);
    assert_eq!(v.as_slice(), &[0u64; 5]);
    v.as_mut_slice()[0] = 7;
    assert_eq!(v.as_slice(), &[7, 0, 0, 0, 0]);
    assert_eq!(PooledVec::new(0).as_slice().len(), 0);
    assert_eq!(PooledVec::new(70000).as_slice().len(), 70000);
}

#[test]
fn streaming_table_is_column_major() {
    let prover = StreamingProver::new();
    let cols = prover.build_table_streaming(3, 2, |r| vec![r as u64, 10 + r as u64]);
    assert_eq!(cols, vec![vec![0, 1, 2], vec![10, 11, 12]]);
    let empty = prover.build_table_streaming(0, 2, |r| vec![r as u64, 0]);
    assert_eq!(empty, vec![Vec::<u64>::new(), Vec::new()]);
}

#[test]
fn streaming_table_spans_chunks() {
    let prover = StreamingProver::new();
    let rows = 5000;
    let cols = prover.build_table_streaming(rows, 3, |r| vec![r as u64, 2 * r as u64, 7]);
    assert_eq!(cols.len(), 3);
    for r in 0..rows {
        assert_eq!(cols[0][r], r as u64);
        assert_eq!(cols[1][r], 2 * r as u64);
        assert_eq!(cols[2][r], 7);
    }
}

#[test]
fn streaming_reverse_bits() {
    let prover = StreamingProver::new();
    assert_eq!(prover.reverse_bits(1, 3), 4);
    assert_eq!(prover.reverse_bits(6, 3), 3);
    assert_eq!(prover.reverse_bits(5, 0), 0);
}

#[test]
fn streaming_interpolate_butterflies() {
    let prover = StreamingProver::new();
    let r = prover.interpolate_streaming(&[1, 2, 3, 4], 4);
    assert_eq!(r.as_slice(), &[10, u64::MAX - 3, u64::MAX - 1, 0]);
    let r = prover.interpolate_streaming(&[1, 2, 3, 4], 6);
    assert_eq!(r.as_slice(), &[10, u64::MAX - 3, u64::MAX - 1, 0, 0, 0]);
}

#[test]
fn mining_wire_verbs() {
    assert_eq!(MiningWire::Mined.verb(), "mined");
    assert_eq!(MiningWire::Candidate.verb(), "candidate");
    assert_eq!(MiningWire::SetPubKey.verb(), "setpubkey");
    assert_eq!(MiningWire::Enable.verb(), "enable");
}
