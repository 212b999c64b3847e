//! The host's value trees ("nouns") and the conversions between them and
//! the kernel's containers. A leaf is an unsigned integer stored as 64-bit
//! limbs, least significant first; a list is a chain of cells ending in the
//! atom zero. Decoding either yields the whole container or fails.
use crate::belt::{Belt, P};
use crate::bpoly::bpoly_wf;
use crate::error::KernelError;
use crate::felt::Felt;
use crate::fpoly::fpoly_wf;
use crate::sponge::STATE_SIZE;
use vstd::prelude::*;

verus! {

/// A value of the host: an atom (an unsigned integer) or a pair of values.
#[derive(Debug, PartialEq, Eq)]
pub enum Noun {
    /// Little-endian 64-bit limbs.
    Atom(Vec<u64>),
    Cell(Box<Noun>, Box<Noun>),
}

/// Number of nodes in a noun.
pub open spec fn noun_size(n: Noun) -> nat
    decreases n,
{
    match n {
        Noun::Atom(_) => 1,
        Noun::Cell(h, t) => 1 + noun_size(*h) + noun_size(*t),
    }
}

/// Limb `i` of an atom, zero beyond its end.
pub open spec fn limb(l: Seq<u64>, i: int) -> u64 {
    if 0 <= i < l.len() {
        l[i]
    } else {
        0
    }
}

/// All limbs from index `k` on are zero: the atom is below 2^(64 k).
pub open spec fn atom_fits(l: Seq<u64>, k: int) -> bool {
    forall|i: int| k <= i < l.len() ==> #[trigger] l[i] == 0
}

/// The atom's value when it fits in 64 bits.
pub open spec fn noun_u64(n: Noun) -> Option<u64> {
    match n {
        Noun::Atom(l) => if atom_fits(l@, 1) {
            Some(limb(l@, 0))
        } else {
            None
        },
        Noun::Cell(_, _) => None,
    }
}

/// The atom's value when it fits in 128 bits.
pub open spec fn noun_u128(n: Noun) -> Option<u128> {
    match n {
        Noun::Atom(l) => if atom_fits(l@, 2) {
            Some((limb(l@, 0) as int + 0x1_0000_0000_0000_0000 * limb(l@, 1) as int) as u128)
        } else {
            None
        },
        Noun::Cell(_, _) => None,
    }
}

/// The atom as a base-field element, when it is below P.
pub open spec fn noun_belt(n: Noun) -> Option<Belt> {
    match noun_u64(n) {
        Some(v) => if v < P {
            Some(Belt(v))
        } else {
            None
        },
        None => None,
    }
}

/// Whether `n` is the atom zero, which ends a list.
pub open spec fn is_null(n: Noun) -> bool {
    match n {
        Noun::Atom(l) => atom_fits(l@, 0),
        Noun::Cell(_, _) => false,
    }
}

/// An extension-field element: one atom packing the three coefficients
/// (optionally marked by a limb of one above them), or a triple of atoms.
pub open spec fn noun_felt(n: Noun) -> Option<Felt> {
    match n {
        Noun::Atom(l) => {
            let (a, b, c) = (limb(l@, 0), limb(l@, 1), limb(l@, 2));
            if atom_fits(l@, 4) && limb(l@, 3) <= 1 && a < P && b < P && c < P {
                Some(Felt { c0: Belt(a), c1: Belt(b), c2: Belt(c) })
            } else {
                None
            }
        },
        Noun::Cell(h, t) => match *t {
            Noun::Cell(m, l) => match (noun_belt(*h), noun_belt(*m), noun_belt(*l)) {
                (Some(a), Some(b), Some(c)) => Some(Felt { c0: a, c1: b, c2: c }),
                _ => None,
            },
            Noun::Atom(_) => None,
        },
    }
}

/// The list's elements as 64-bit values.
pub open spec fn u64_list(n: Noun) -> Option<Seq<u64>>
    decreases n,
{
    match n {
        Noun::Atom(_) => if is_null(n) {
            Some(Seq::empty())
        } else {
            None
        },
        Noun::Cell(h, t) => match (noun_u64(*h), u64_list(*t)) {
            (Some(v), Some(rest)) => Some(seq![v] + rest),
            _ => None,
        },
    }
}

/// The list's elements as base-field elements.
pub open spec fn belt_list(n: Noun) -> Option<Seq<Belt>>
    decreases n,
{
    match n {
        Noun::Atom(_) => if is_null(n) {
            Some(Seq::empty())
        } else {
            None
        },
        Noun::Cell(h, t) => match (noun_belt(*h), belt_list(*t)) {
            (Some(v), Some(rest)) => Some(seq![v] + rest),
            _ => None,
        },
    }
}

/// The list's elements as extension-field elements.
pub open spec fn felt_list(n: Noun) -> Option<Seq<Felt>>
    decreases n,
{
    match n {
        Noun::Atom(_) => if is_null(n) {
            Some(Seq::empty())
        } else {
            None
        },
        Noun::Cell(h, t) => match (noun_felt(*h), felt_list(*t)) {
            (Some(v), Some(rest)) => Some(seq![v] + rest),
            _ => None,
        },
    }
}

/// Whether every limb from `k` on is zero.
fn limbs_zero_from(l: &Vec<u64>, k: usize) -> (r: bool)
    ensures
        r == atom_fits(l@, k as int),
{
    let mut i = k;
    while i < l.len()
        invariant
            k <= i || i >= l@.len(),
            forall|j: int| k <= j < i && j < l@.len() ==> #[trigger] l@[j] == 0,
        decreases l@.len() - i,
    {
        if l[i] != 0 {
            return false;
        }
        i = i + 1;
    }
    true
}

fn limb_at(l: &Vec<u64>, i: usize) -> (r: u64)
    ensures
        r == limb(l@, i as int),
{
    if i < l.len() {
        l[i]
    } else {
        0
    }
}

/// The atom's value, when `n` is an atom below 2^64.
pub fn noun_as_u64(n: &Noun) -> (r: Option<u64>)
    ensures
        r == noun_u64(*n),
{
    match n {
        Noun::Atom(l) => if limbs_zero_from(l, 1) {
            Some(limb_at(l, 0))
        } else {
            None
        },
        Noun::Cell(_, _) => None,
    }
}

/// The atom's value, when `n` is an atom below 2^128.
pub fn noun_as_u128(n: &Noun) -> (r: Option<u128>)
    ensures
        r == noun_u128(*n),
{
    match n {
        Noun::Atom(l) => if limbs_zero_from(l, 2) {
            let lo = limb_at(l, 0);
            let hi = limb_at(l, 1);
            Some((hi as u128) * 0x1_0000_0000_0000_0000 + lo as u128)
        } else {
            None
        },
        Noun::Cell(_, _) => None,
    }
}

/// The atom as a base-field element, when it is below P.
pub fn noun_as_belt(n: &Noun) -> (r: Option<Belt>)
    ensures
        r == noun_belt(*n),
{
    match noun_as_u64(n) {
        Some(v) => if v < P {
            Some(Belt(v))
        } else {
            None
        },
        None => None,
    }
}

/// The noun as an extension-field element: a packed atom or a triple.
pub fn noun_as_felt(n: &Noun) -> (r: Option<Felt>)
    ensures
        r == noun_felt(*n),
{
    match n {
        Noun::Atom(l) => {
            let a = limb_at(l, 0);
            let b = limb_at(l, 1);
            let c = limb_at(l, 2);
            if limbs_zero_from(l, 4) && limb_at(l, 3) <= 1 && a < P && b < P && c < P {
                Some(Felt { c0: Belt(a), c1: Belt(b), c2: Belt(c) })
            } else {
                None
            }
        },
        Noun::Cell(h, t) => match &**t {
            Noun::Cell(m, l) => match (noun_as_belt(h), noun_as_belt(m), noun_as_belt(l)) {
                (Some(a), Some(b), Some(c)) => Some(Felt { c0: a, c1: b, c2: c }),
                _ => None,
            },
            Noun::Atom(_) => None,
        },
    }
}

/// Whether a packed extension-field atom carries the marker limb of one
/// above its three coefficients.
pub fn felt_atom_is_valid(n: &Noun) -> (r: bool)
    ensures
        r == (n is Atom && limb(n->Atom_0@, 3) == 1),
{
    match n {
        Noun::Atom(l) => limb_at(l, 3) == 1,
        Noun::Cell(_, _) => false,
    }
}

/// Decodes a list of 64-bit atoms.
pub fn hoon_list_to_vecu64(list: &Noun) -> (r: Result<Vec<u64>, KernelError>)
    ensures
        match u64_list(*list) {
            Some(s) => r is Ok && r->Ok_0@ == s,
            None => r == Err::<Vec<u64>, KernelError>(KernelError::Decode),
        },
{
    let mut out: Vec<u64> = Vec::new();
    let mut cur: &Noun = list;
    loop
        invariant
            u64_list(*list) == match u64_list(*cur) {
                Some(rest) => Some(out@ + rest),
                None => None::<Seq<u64>>,
            },
        decreases noun_size(*cur),
    {
        match cur {
            Noun::Cell(h, t) => match noun_as_u64(h) {
                Some(v) => {
                    proof {
                        if let Some(rest) = u64_list(**t) {
                            assert(out@ + (seq![v] + rest) =~= out@.push(v) + rest);
                        }
                    }
                    out.push(v);
                    cur = &**t;
                },
                None => {
                    return Err(KernelError::Decode);
                },
            },
            Noun::Atom(l) => {
                if limbs_zero_from(l, 0) {
                    assert(out@ + Seq::<u64>::empty() =~= out@);
                    return Ok(out);
                } else {
                    return Err(KernelError::Decode);
                }
            },
        }
    }
}

/// Decodes a list of canonical base-field elements.
pub fn hoon_list_to_vecbelt(list: &Noun) -> (r: Result<Vec<Belt>, KernelError>)
    ensures
        match belt_list(*list) {
            Some(s) => r is Ok && r->Ok_0@ == s && bpoly_wf(s),
            None => r == Err::<Vec<Belt>, KernelError>(KernelError::Decode),
        },
{
    let mut out: Vec<Belt> = Vec::new();
    let mut cur: &Noun = list;
    loop
        invariant
            bpoly_wf(out@),
            belt_list(*list) == match belt_list(*cur) {
                Some(rest) => Some(out@ + rest),
                None => None::<Seq<Belt>>,
            },
        decreases noun_size(*cur),
    {
        match cur {
            Noun::Cell(h, t) => match noun_as_belt(h) {
                Some(v) => {
                    proof {
                        if let Some(rest) = belt_list(**t) {
                            assert(out@ + (seq![v] + rest) =~= out@.push(v) + rest);
                        }
                    }
                    out.push(v);
                    cur = &**t;
                },
                None => {
                    return Err(KernelError::Decode);
                },
            },
            Noun::Atom(l) => {
                if limbs_zero_from(l, 0) {
                    assert(out@ + Seq::<Belt>::empty() =~= out@);
                    return Ok(out);
                } else {
                    return Err(KernelError::Decode);
                }
            },
        }
    }
}

/// Decodes a list of extension-field elements.
pub fn hoon_list_to_vecfelt(list: &Noun) -> (r: Result<Vec<Felt>, KernelError>)
    ensures
        match felt_list(*list) {
            Some(s) => r is Ok && r->Ok_0@ == s && fpoly_wf(s),
            None => r == Err::<Vec<Felt>, KernelError>(KernelError::Decode),
        },
{
    let mut out: Vec<Felt> = Vec::new();
    let mut cur: &Noun = list;
    loop
        invariant
            fpoly_wf(out@),
            felt_list(*list) == match felt_list(*cur) {
                Some(rest) => Some(out@ + rest),
                None => None::<Seq<Felt>>,
            },
        decreases noun_size(*cur),
    {
        match cur {
            Noun::Cell(h, t) => match noun_as_felt(h) {
                Some(v) => {
                    proof {
                        if let Some(rest) = felt_list(**t) {
                            assert(out@ + (seq![v] + rest) =~= out@.push(v) + rest);
                        }
                    }
                    out.push(v);
                    cur = &**t;
                },
                None => {
                    return Err(KernelError::Decode);
                },
            },
            Noun::Atom(l) => {
                if limbs_zero_from(l, 0) {
                    assert(out@ + Seq::<Felt>::empty() =~= out@);
                    return Ok(out);
                } else {
                    return Err(KernelError::Decode);
                }
            },
        }
    }
}

/// A sponge state: a list of exactly `STATE_SIZE` 64-bit atoms.
pub fn hoon_list_to_sponge(list: &Noun) -> (r: Result<[u64; 16], KernelError>)
    ensures
        match u64_list(*list) {
            Some(s) => if s.len() == STATE_SIZE {
                r is Ok && r->Ok_0@ == s
            } else {
                r == Err::<[u64; 16], KernelError>(KernelError::Decode)
            },
            None => r == Err::<[u64; 16], KernelError>(KernelError::Decode),
        },
{
    let v = hoon_list_to_vecu64(list)?;
    if v.len() != STATE_SIZE {
        return Err(KernelError::Decode);
    }
    let mut sponge = [0u64; 16];
    let mut i: usize = 0;
    while i < STATE_SIZE
        invariant
            v@.len() == STATE_SIZE,
            i <= STATE_SIZE,
            forall|j: int| 0 <= j < i ==> sponge@[j] == v@[j],
        decreases STATE_SIZE - i,
    {
        sponge[i] = v[i];
        i = i + 1;
    }
    assert(sponge@ =~= v@);
    Ok(sponge)
}

/// The list of the atoms `v`, in order.
pub fn vec_to_hoon_list(v: &[u64]) -> (r: Noun)
    ensures
        u64_list(r) == Some(v@),
{
    let mut list = Noun::Atom(Vec::new());
    let mut i = v.len();
    assert(v@.subrange(i as int, i as int) =~= Seq::<u64>::empty());
    while i > 0
        invariant
            i <= v@.len(),
            u64_list(list) == Some(v@.subrange(i as int, v@.len() as int)),
        decreases i,
    {
        i = i - 1;
        let atom = Noun::Atom(vec![v[i]]);
        list = Noun::Cell(Box::new(atom), Box::new(list));
        assert(seq![v@[i as int]] + v@.subrange(i + 1, v@.len() as int) =~= v@.subrange(
            i as int,
            v@.len() as int,
        ));
    }
    assert(v@.subrange(0, v@.len() as int) =~= v@);
    list
}

/// The list of the coefficients of a base-field polynomial.
pub fn bpoly_to_list(p: &[Belt]) -> (r: Noun)
    requires
        bpoly_wf(p@),
    ensures
        belt_list(r) == Some(p@),
{
    let mut list = Noun::Atom(Vec::new());
    let mut i = p.len();
    assert(p@.subrange(i as int, i as int) =~= Seq::<Belt>::empty());
    while i > 0
        invariant
            i <= p@.len(),
            bpoly_wf(p@),
            belt_list(list) == Some(p@.subrange(i as int, p@.len() as int)),
        decreases i,
    {
        i = i - 1;
        let atom = Noun::Atom(vec![p[i].0]);
        list = Noun::Cell(Box::new(atom), Box::new(list));
        assert(seq![p@[i as int]] + p@.subrange(i + 1, p@.len() as int) =~= p@.subrange(
            i as int,
            p@.len() as int,
        ));
    }
    assert(p@.subrange(0, p@.len() as int) =~= p@);
    list
}

/// The list of the coefficients of an extension-field polynomial, each
/// packed into one atom.
pub fn fpoly_to_list(p: &[Felt]) -> (r: Noun)
    requires
        fpoly_wf(p@),
    ensures
        felt_list(r) == Some(p@),
{
    let mut list = Noun::Atom(Vec::new());
    let mut i = p.len();
    assert(p@.subrange(i as int, i as int) =~= Seq::<Felt>::empty());
    while i > 0
        invariant
            i <= p@.len(),
            fpoly_wf(p@),
            felt_list(list) == Some(p@.subrange(i as int, p@.len() as int)),
        decreases i,
    {
        i = i - 1;
        let f = p[i];
        let atom = Noun::Atom(vec![f.c0.0, f.c1.0, f.c2.0]);
        list = Noun::Cell(Box::new(atom), Box::new(list));
        assert(seq![p@[i as int]] + p@.subrange(i + 1, p@.len() as int) =~= p@.subrange(
            i as int,
            p@.len() as int,
        ));
    }
    assert(p@.subrange(0, p@.len() as int) =~= p@);
    list
}

/// A base-field element as an atom.
pub fn belt_as_noun(b: Belt) -> (r: Noun)
    ensures
        noun_u64(r) == Some(b.0),
{
    Noun::Atom(vec![b.0])
}

/// A 128-bit value as an atom.
pub fn u128_as_noun(x: u128) -> (r: Noun)
    ensures
        noun_u128(r) == Some(x),
{
    let lo = (x % 0x1_0000_0000_0000_0000) as u64;
    let hi = (x / 0x1_0000_0000_0000_0000) as u64;
    Noun::Atom(vec![lo, hi])
}

} // verus!
