//! Zero-filled buffers tagged with the size class they were requested in.
use vstd::prelude::*;

verus! {

/// The size class of a buffer: small up to 1024 elements, medium up to 65536,
/// large beyond.
#[derive(Clone, Copy, PartialEq, Eq, Structural, Debug)]
pub enum SizeClass {
    Small,
    Medium,
    Large,
}

pub open spec fn size_class_of(size: nat) -> SizeClass {
    if size <= 1024 {
        SizeClass::Small
    } else if size <= 65536 {
        SizeClass::Medium
    } else {
        SizeClass::Large
    }
}

/// A buffer of `u64` together with its size class.
pub struct PooledVec {
    data: Vec<u64>,
    size_class: SizeClass,
}

impl PooledVec {
    /// The buffer's contents.
    pub closed spec fn view(&self) -> Seq<u64> {
        self.data@
    }

    /// The size class it was requested in.
    pub closed spec fn class(&self) -> SizeClass {
        self.size_class
    }

    /// A buffer of `size` zeros.
    pub fn new(size: usize) -> (r: PooledVec)
        ensures
            r@ == Seq::new(size as nat, |i: int| 0u64),
            r.class() == size_class_of(size as nat),
    {
        let size_class = if size <= 1024 {
            SizeClass::Small
        } else if size <= 65536 {
            SizeClass::Medium
        } else {
            SizeClass::Large
        };
        let data = vec![0u64; size];
        assert(data@ =~= Seq::new(size as nat, |i: int| 0u64));
        PooledVec { data, size_class }
    }

    pub fn as_slice(&self) -> (r: &[u64])
        ensures
            r@ == self@,
    {
        self.data.as_slice()
    }

    /// The contents, for writing; the size class stays.
    pub fn as_mut_slice(&mut self) -> (r: &mut [u64])
        ensures
            r@ == old(self)@,
            final(self)@ == final(r)@,
            final(self).class() == old(self).class(),
    {
        self.data.as_mut_slice()
    }
}

} // verus!
