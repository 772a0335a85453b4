//! Index types.
//!
//! Every table of the allocator is addressed by an index type of its own: a 32-bit number whose
//! all-ones value stands for "no entry".
use vstd::prelude::*;

verus! {

/// A basic block. The all-ones number stands for none.
#[derive(Clone, Copy, Debug, PartialEq, Eq, PartialOrd, Ord, Hash, Structural)]
pub struct Block(pub u32);

impl Block {
    /// The position of this entry in its table.
    pub open spec fn ix(self) -> int {
        self.0 as int
    }

    /// The index of the `i`-th entry.
    pub fn new(i: usize) -> (r: Self)
        requires
            i < u32::MAX,
        ensures
            r.0 == i,
            r.is_valid(),
    {
        Block(i as u32)
    }

    /// The position of this entry in its table.
    pub fn index(self) -> (i: usize)
        requires
            self.is_valid(),
        ensures
            i == self.0,
    {
        self.0 as usize
    }

    /// The index of no entry.
    #[verifier::allow_in_spec]
    pub fn invalid() -> Self
        returns
            Block(u32::MAX),
    {
        Block(u32::MAX)
    }

    /// Is this the index of no entry?
    #[verifier::allow_in_spec]
    pub fn is_invalid(self) -> bool
        returns
            self.0 == u32::MAX,
    {
        self.0 == u32::MAX
    }

    /// Is this the index of an entry?
    #[verifier::allow_in_spec]
    pub fn is_valid(self) -> bool
        returns
            self.0 != u32::MAX,
    {
        self.0 != u32::MAX
    }

    /// The entry that follows this one.
    pub fn next(self) -> (r: Self)
        requires
            self.0 < u32::MAX - 1,
        ensures
            r.0 == self.0 + 1,
    {
        Block(self.0 + 1)
    }
}

/// An instruction. The all-ones number stands for none.
#[derive(Clone, Copy, Debug, PartialEq, Eq, PartialOrd, Ord, Hash, Structural)]
pub struct Inst(pub u32);

impl Inst {
    /// The position of this entry in its table.
    pub open spec fn ix(self) -> int {
        self.0 as int
    }

    /// The index of the `i`-th entry.
    pub fn new(i: usize) -> (r: Self)
        requires
            i < u32::MAX,
        ensures
            r.0 == i,
            r.is_valid(),
    {
        Inst(i as u32)
    }

    /// The position of this entry in its table.
    pub fn index(self) -> (i: usize)
        requires
            self.is_valid(),
        ensures
            i == self.0,
    {
        self.0 as usize
    }

    /// The index of no entry.
    #[verifier::allow_in_spec]
    pub fn invalid() -> Self
        returns
            Inst(u32::MAX),
    {
        Inst(u32::MAX)
    }

    /// Is this the index of no entry?
    #[verifier::allow_in_spec]
    pub fn is_invalid(self) -> bool
        returns
            self.0 == u32::MAX,
    {
        self.0 == u32::MAX
    }

    /// Is this the index of an entry?
    #[verifier::allow_in_spec]
    pub fn is_valid(self) -> bool
        returns
            self.0 != u32::MAX,
    {
        self.0 != u32::MAX
    }

    /// The entry that follows this one.
    pub fn next(self) -> (r: Self)
        requires
            self.0 < u32::MAX - 1,
        ensures
            r.0 == self.0 + 1,
    {
        Inst(self.0 + 1)
    }

    /// The entry that precedes this one.
    pub fn prev(self) -> (r: Self)
        requires
            self.is_valid(),
            self.0 > 0,
        ensures
            r.0 == self.0 - 1,
    {
        Inst(self.0 - 1)
    }
}

/// A live bundle. The all-ones number stands for none.
#[derive(Clone, Copy, Debug, PartialEq, Eq, PartialOrd, Ord, Hash, Structural)]
pub struct LiveBundleIndex(pub u32);

impl LiveBundleIndex {
    /// The position of this entry in its table.
    pub open spec fn ix(self) -> int {
        self.0 as int
    }

    /// The index of the `i`-th entry.
    pub fn new(i: usize) -> (r: Self)
        requires
            i < u32::MAX,
        ensures
            r.0 == i,
            r.is_valid(),
    {
        LiveBundleIndex(i as u32)
    }

    /// The position of this entry in its table.
    pub fn index(self) -> (i: usize)
        requires
            self.is_valid(),
        ensures
            i == self.0,
    {
        self.0 as usize
    }

    /// The index of no entry.
    #[verifier::allow_in_spec]
    pub fn invalid() -> Self
        returns
            LiveBundleIndex(u32::MAX),
    {
        LiveBundleIndex(u32::MAX)
    }

    /// Is this the index of no entry?
    #[verifier::allow_in_spec]
    pub fn is_invalid(self) -> bool
        returns
            self.0 == u32::MAX,
    {
        self.0 == u32::MAX
    }

    /// Is this the index of an entry?
    #[verifier::allow_in_spec]
    pub fn is_valid(self) -> bool
        returns
            self.0 != u32::MAX,
    {
        self.0 != u32::MAX
    }
}

/// A live range. The all-ones number stands for none.
#[derive(Clone, Copy, Debug, PartialEq, Eq, PartialOrd, Ord, Hash, Structural)]
pub struct LiveRangeIndex(pub u32);

impl LiveRangeIndex {
    /// The position of this entry in its table.
    pub open spec fn ix(self) -> int {
        self.0 as int
    }

    /// The index of the `i`-th entry.
    pub fn new(i: usize) -> (r: Self)
        requires
            i < u32::MAX,
        ensures
            r.0 == i,
            r.is_valid(),
    {
        LiveRangeIndex(i as u32)
    }

    /// The position of this entry in its table.
    pub fn index(self) -> (i: usize)
        requires
            self.is_valid(),
        ensures
            i == self.0,
    {
        self.0 as usize
    }

    /// The index of no entry.
    #[verifier::allow_in_spec]
    pub fn invalid() -> Self
        returns
            LiveRangeIndex(u32::MAX),
    {
        LiveRangeIndex(u32::MAX)
    }

    /// Is this the index of no entry?
    #[verifier::allow_in_spec]
    pub fn is_invalid(self) -> bool
        returns
            self.0 == u32::MAX,
    {
        self.0 == u32::MAX
    }

    /// Is this the index of an entry?
    #[verifier::allow_in_spec]
    pub fn is_valid(self) -> bool
        returns
            self.0 != u32::MAX,
    {
        self.0 != u32::MAX
    }
}

/// A spill set. The all-ones number stands for none.
#[derive(Clone, Copy, Debug, PartialEq, Eq, PartialOrd, Ord, Hash, Structural)]
pub struct SpillSetIndex(pub u32);

impl SpillSetIndex {
    /// The position of this entry in its table.
    pub open spec fn ix(self) -> int {
        self.0 as int
    }

    /// The index of the `i`-th entry.
    pub fn new(i: usize) -> (r: Self)
        requires
            i < u32::MAX,
        ensures
            r.0 == i,
            r.is_valid(),
    {
        SpillSetIndex(i as u32)
    }

    /// The position of this entry in its table.
    pub fn index(self) -> (i: usize)
        requires
            self.is_valid(),
        ensures
            i == self.0,
    {
        self.0 as usize
    }

    /// The index of no entry.
    #[verifier::allow_in_spec]
    pub fn invalid() -> Self
        returns
            SpillSetIndex(u32::MAX),
    {
        SpillSetIndex(u32::MAX)
    }

    /// Is this the index of no entry?
    #[verifier::allow_in_spec]
    pub fn is_invalid(self) -> bool
        returns
            self.0 == u32::MAX,
    {
        self.0 == u32::MAX
    }

    /// Is this the index of an entry?
    #[verifier::allow_in_spec]
    pub fn is_valid(self) -> bool
        returns
            self.0 != u32::MAX,
    {
        self.0 != u32::MAX
    }
}

/// A use of a virtual register. The all-ones number stands for none.
#[derive(Clone, Copy, Debug, PartialEq, Eq, PartialOrd, Ord, Hash, Structural)]
pub struct UseIndex(pub u32);

impl UseIndex {
    /// The position of this entry in its table.
    pub open spec fn ix(self) -> int {
        self.0 as int
    }

    /// The index of the `i`-th entry.
    pub fn new(i: usize) -> (r: Self)
        requires
            i < u32::MAX,
        ensures
            r.0 == i,
            r.is_valid(),
    {
        UseIndex(i as u32)
    }

    /// The position of this entry in its table.
    pub fn index(self) -> (i: usize)
        requires
            self.is_valid(),
        ensures
            i == self.0,
    {
        self.0 as usize
    }

    /// The index of no entry.
    #[verifier::allow_in_spec]
    pub fn invalid() -> Self
        returns
            UseIndex(u32::MAX),
    {
        UseIndex(u32::MAX)
    }

    /// Is this the index of no entry?
    #[verifier::allow_in_spec]
    pub fn is_invalid(self) -> bool
        returns
            self.0 == u32::MAX,
    {
        self.0 == u32::MAX
    }

    /// Is this the index of an entry?
    #[verifier::allow_in_spec]
    pub fn is_valid(self) -> bool
        returns
            self.0 != u32::MAX,
    {
        self.0 != u32::MAX
    }
}

/// A definition of a virtual register. The all-ones number stands for none.
#[derive(Clone, Copy, Debug, PartialEq, Eq, PartialOrd, Ord, Hash, Structural)]
pub struct DefIndex(pub u32);

impl DefIndex {
    /// The position of this entry in its table.
    pub open spec fn ix(self) -> int {
        self.0 as int
    }

    /// The index of the `i`-th entry.
    pub fn new(i: usize) -> (r: Self)
        requires
            i < u32::MAX,
        ensures
            r.0 == i,
            r.is_valid(),
    {
        DefIndex(i as u32)
    }

    /// The position of this entry in its table.
    pub fn index(self) -> (i: usize)
        requires
            self.is_valid(),
        ensures
            i == self.0,
    {
        self.0 as usize
    }

    /// The index of no entry.
    #[verifier::allow_in_spec]
    pub fn invalid() -> Self
        returns
            DefIndex(u32::MAX),
    {
        DefIndex(u32::MAX)
    }

    /// Is this the index of no entry?
    #[verifier::allow_in_spec]
    pub fn is_invalid(self) -> bool
        returns
            self.0 == u32::MAX,
    {
        self.0 == u32::MAX
    }

    /// Is this the index of an entry?
    #[verifier::allow_in_spec]
    pub fn is_valid(self) -> bool
        returns
            self.0 != u32::MAX,
    {
        self.0 != u32::MAX
    }
}

/// A virtual register. The all-ones number stands for none.
#[derive(Clone, Copy, Debug, PartialEq, Eq, PartialOrd, Ord, Hash, Structural)]
pub struct VRegIndex(pub u32);

impl VRegIndex {
    /// The position of this entry in its table.
    pub open spec fn ix(self) -> int {
        self.0 as int
    }

    /// The index of the `i`-th entry.
    pub fn new(i: usize) -> (r: Self)
        requires
            i < u32::MAX,
        ensures
            r.0 == i,
            r.is_valid(),
    {
        VRegIndex(i as u32)
    }

    /// The position of this entry in its table.
    pub fn index(self) -> (i: usize)
        requires
            self.is_valid(),
        ensures
            i == self.0,
    {
        self.0 as usize
    }

    /// The index of no entry.
    #[verifier::allow_in_spec]
    pub fn invalid() -> Self
        returns
            VRegIndex(u32::MAX),
    {
        VRegIndex(u32::MAX)
    }

    /// Is this the index of no entry?
    #[verifier::allow_in_spec]
    pub fn is_invalid(self) -> bool
        returns
            self.0 == u32::MAX,
    {
        self.0 == u32::MAX
    }

    /// Is this the index of an entry?
    #[verifier::allow_in_spec]
    pub fn is_valid(self) -> bool
        returns
            self.0 != u32::MAX,
    {
        self.0 != u32::MAX
    }
}

/// A physical register. The all-ones number stands for none.
#[derive(Clone, Copy, Debug, PartialEq, Eq, PartialOrd, Ord, Hash, Structural)]
pub struct PRegIndex(pub u32);

impl PRegIndex {
    /// The position of this entry in its table.
    pub open spec fn ix(self) -> int {
        self.0 as int
    }

    /// The index of the `i`-th entry.
    pub fn new(i: usize) -> (r: Self)
        requires
            i < u32::MAX,
        ensures
            r.0 == i,
            r.is_valid(),
    {
        PRegIndex(i as u32)
    }

    /// The position of this entry in its table.
    pub fn index(self) -> (i: usize)
        requires
            self.is_valid(),
        ensures
            i == self.0,
    {
        self.0 as usize
    }

    /// The index of no entry.
    #[verifier::allow_in_spec]
    pub fn invalid() -> Self
        returns
            PRegIndex(u32::MAX),
    {
        PRegIndex(u32::MAX)
    }

    /// Is this the index of no entry?
    #[verifier::allow_in_spec]
    pub fn is_invalid(self) -> bool
        returns
            self.0 == u32::MAX,
    {
        self.0 == u32::MAX
    }

    /// Is this the index of an entry?
    #[verifier::allow_in_spec]
    pub fn is_valid(self) -> bool
        returns
            self.0 != u32::MAX,
    {
        self.0 != u32::MAX
    }
}

/// A spill slot. The all-ones number stands for none.
#[derive(Clone, Copy, Debug, PartialEq, Eq, PartialOrd, Ord, Hash, Structural)]
pub struct SpillSlotIndex(pub u32);

impl SpillSlotIndex {
    /// The position of this entry in its table.
    pub open spec fn ix(self) -> int {
        self.0 as int
    }

    /// The index of the `i`-th entry.
    pub fn new(i: usize) -> (r: Self)
        requires
            i < u32::MAX,
        ensures
            r.0 == i,
            r.is_valid(),
    {
        SpillSlotIndex(i as u32)
    }

    /// The position of this entry in its table.
    pub fn index(self) -> (i: usize)
        requires
            self.is_valid(),
        ensures
            i == self.0,
    {
        self.0 as usize
    }

    /// The index of no entry.
    #[verifier::allow_in_spec]
    pub fn invalid() -> Self
        returns
            SpillSlotIndex(u32::MAX),
    {
        SpillSlotIndex(u32::MAX)
    }

    /// Is this the index of no entry?
    #[verifier::allow_in_spec]
    pub fn is_invalid(self) -> bool
        returns
            self.0 == u32::MAX,
    {
        self.0 == u32::MAX
    }

    /// Is this the index of an entry?
    #[verifier::allow_in_spec]
    pub fn is_valid(self) -> bool
        returns
            self.0 != u32::MAX,
    {
        self.0 != u32::MAX
    }
}

} // verus!
