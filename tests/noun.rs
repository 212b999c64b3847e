use zkvm_jetpack::belt::{Belt, P};
use zkvm_jetpack::error::KernelError;
use zkvm_jetpack::felt::Felt;
use zkvm_jetpack::noun::{
    belt_as_noun, bpoly_to_list, felt_atom_is_valid, fpoly_to_list, hoon_list_to_sponge,
    hoon_list_to_vecbelt, hoon_list_to_vecfelt, hoon_list_to_vecu64, noun_as_felt, noun_as_u128,
    noun_as_u64, u128_as_noun, vec_to_hoon_list, Noun,
};

fn atom(v: u64) -> Noun {
    Noun::Atom(vec![v])
}

fn cell(h: Noun, t: Noun) -> Noun {
    Noun::Cell(Box::new(h), Box::new(t))
}

#[test]
fn u64_list_round_trip() {
    let v = vec![1u64, 0, u64::MAX, 42];
    let n = vec_to_hoon_list(&v);
    assert_eq!(hoon_list_to_vecu64(&n), Ok(v));
    assert_eq!(hoon_list_to_vecu64(&vec_to_hoon_list(&[])), Ok(vec![]));
}

#[test]
fn belt_list_round_trip() {
    let p = vec![Belt(3), Belt(P - 1), Belt(0)];
    assert_eq!(hoon_list_to_vecbelt(&bpoly_to_list(&p)), Ok(p));
}

#[test]
fn belt_list_rejects_bad_shapes() {
    // not terminated by zero
    assert_eq!(hoon_list_to_vecbelt(&cell(atom(1), atom(5))), Err(KernelError::Decode));
    // an element at or above the modulus
    assert_eq!(hoon_list_to_vecbelt(&cell(atom(P), atom(0))), Err(KernelError::Decode));
    // an element that is a cell
    assert_eq!(
        hoon_list_to_vecbelt(&cell(cell(atom(1), atom(2)), atom(0))),
        Err(KernelError::Decode)
    );
    // a wide atom whose high limbs are zero is still small
    let wide = Noun::Atom(vec![7, 0, 0]);
    assert_eq!(hoon_list_to_vecbelt(&cell(wide, Noun::Atom(vec![]))), Ok(vec![Belt(7)]));
}

#[test]
fn felt_list_round_trip() {
    let p = vec![
        Felt::new(Belt(1), Belt(2), Belt(3)),
        Felt::new(Belt(P - 1), Belt(0), Belt(9)),
    ];
    assert_eq!(hoon_list_to_vecfelt(&fpoly_to_list(&p)), Ok(p));
}

#[test]
fn felt_forms() {
    let f = Felt::new(Belt(1), Belt(2), Belt(3));
    assert_eq!(noun_as_felt(&Noun::Atom(vec![1, 2, 3])), Some(f));
    assert_eq!(noun_as_felt(&Noun::Atom(vec![1, 2, 3, 1])), Some(f));
    assert_eq!(noun_as_felt(&cell(atom(1), cell(atom(2), atom(3)))), Some(f));
    assert_eq!(noun_as_felt(&Noun::Atom(vec![1, 2, 3, 2])), None);
    assert_eq!(noun_as_felt(&Noun::Atom(vec![P, 0, 0])), None);
    assert!(felt_atom_is_valid(&Noun::Atom(vec![1, 2, 3, 1])));
    assert!(!felt_atom_is_valid(&Noun::Atom(vec![1, 2, 3])));
}

#[test]
fn sponge_needs_sixteen_atoms() {
    let v: Vec<u64> = (0..16).collect();
    let s = hoon_list_to_sponge(&vec_to_hoon_list(&v)).unwrap();
    assert_eq!(s.to_vec(), v);
    let short: Vec<u64> = (0..15).collect();
    assert_eq!(hoon_list_to_sponge(&vec_to_hoon_list(&short)), Err(KernelError::Decode));
    let long: Vec<u64> = (0..17).collect();
    assert_eq!(hoon_list_to_sponge(&vec_to_hoon_list(&long)), Err(KernelError::Decode));
    assert_eq!(hoon_list_to_sponge(&atom(3)), Err(KernelError::Decode));
}

#[test]
fn atoms_of_64_and_128_bits() {
    assert_eq!(noun_as_u64(&belt_as_noun(Belt(99))), Some(99));
    assert_eq!(noun_as_u64(&Noun::Atom(vec![1, 1])), None);
    assert_eq!(noun_as_u64(&Noun::Atom(vec![])), Some(0));
    let x: u128 = (5u128 << 64) | 9;
    assert_eq!(noun_as_u128(&u128_as_noun(x)), Some(x));
    assert_eq!(noun_as_u128(&Noun::Atom(vec![1, 2, 3])), None);
    assert_eq!(noun_as_u128(&cell(atom(1), atom(2))), None);
}
