//! Unsigned integers that exclude their type's maximum value.
//!
//! Each type stores the complement of the value it stands for, so the stored
//! word is never zero.

use vstd::prelude::*;

verus! {

/// A `u16` that is never `u16::MAX`.
#[derive(Clone, Copy)]
pub struct NonMaxU16 {
    complement: u16,
}

/// A `u32` that is never `u32::MAX`.
#[derive(Clone, Copy)]
pub struct NonMaxU32 {
    complement: u32,
}

/// A `u64` that is never `u64::MAX`.
#[derive(Clone, Copy)]
pub struct NonMaxU64 {
    complement: u64,
}

/// A `usize` that is never `usize::MAX`.
#[derive(Clone, Copy)]
pub struct NonMaxUsize {
    complement: usize,
}

impl NonMaxU16 {
    #[verifier::type_invariant]
    spec fn nonzero_complement(self) -> bool {
        self.complement != 0
    }

    /// The value this stands for.
    pub closed spec fn value(self) -> u16 {
        (u16::MAX - self.complement) as u16
    }

    /// Wraps `value`, unless it is the maximum.
    pub fn new(value: u16) -> (r: Option<Self>)
        ensures
            r is None <==> value == u16::MAX,
            r is Some ==> r->0.value() == value,
    {
        if value == u16::MAX {
            None
        } else {
            Some(NonMaxU16 { complement: u16::MAX - value })
        }
    }

    /// The wrapped value.
    pub fn get(&self) -> (r: u16)
        ensures
            r == self.value(),
            r < u16::MAX,
    {
        proof {
            use_type_invariant(self);
        }
        u16::MAX - self.complement
    }
}

impl NonMaxU32 {
    #[verifier::type_invariant]
    spec fn nonzero_complement(self) -> bool {
        self.complement != 0
    }

    /// The value this stands for.
    pub closed spec fn value(self) -> u32 {
        (u32::MAX - self.complement) as u32
    }

    /// Wraps `value`, unless it is the maximum.
    pub fn new(value: u32) -> (r: Option<Self>)
        ensures
            r is None <==> value == u32::MAX,
            r is Some ==> r->0.value() == value,
    {
        if value == u32::MAX {
            None
        } else {
            Some(NonMaxU32 { complement: u32::MAX - value })
        }
    }

    /// The wrapped value.
    pub fn get(&self) -> (r: u32)
        ensures
            r == self.value(),
            r < u32::MAX,
    {
        proof {
            use_type_invariant(self);
        }
        u32::MAX - self.complement
    }
}

impl NonMaxU64 {
    #[verifier::type_invariant]
    spec fn nonzero_complement(self) -> bool {
        self.complement != 0
    }

    /// The value this stands for.
    pub closed spec fn value(self) -> u64 {
        (u64::MAX - self.complement) as u64
    }

    /// Wraps `value`, unless it is the maximum.
    pub fn new(value: u64) -> (r: Option<Self>)
        ensures
            r is None <==> value == u64::MAX,
            r is Some ==> r->0.value() == value,
    {
        if value == u64::MAX {
            None
        } else {
            Some(NonMaxU64 { complement: u64::MAX - value })
        }
    }

    /// The wrapped value.
    pub fn get(&self) -> (r: u64)
        ensures
            r == self.value(),
            r < u64::MAX,
    {
        proof {
            use_type_invariant(self);
        }
        u64::MAX - self.complement
    }
}

impl NonMaxUsize {
    #[verifier::type_invariant]
    spec fn nonzero_complement(self) -> bool {
        self.complement != 0
    }

    /// The value this stands for.
    pub closed spec fn value(self) -> usize {
        (usize::MAX - self.complement) as usize
    }

    /// Wraps `value`, unless it is the maximum.
    pub fn new(value: usize) -> (r: Option<Self>)
        ensures
            r is None <==> value == usize::MAX,
            r is Some ==> r->0.value() == value,
    {
        if value == usize::MAX {
            None
        } else {
            Some(NonMaxUsize { complement: usize::MAX - value })
        }
    }

    /// The wrapped value.
    pub fn get(&self) -> (r: usize)
        ensures
            r == self.value(),
            r < usize::MAX,
    {
        proof {
            use_type_invariant(self);
        }
        usize::MAX - self.complement
    }
}

} // verus!
