//! Moves on edges between blocks, in halves.
//!
//! A scan over the live ranges of one register meets the two ends of a move on an edge at
//! different times. Each end is noted as a half-move, under a key made of the two blocks, the
//! register and the end. Sorting by key brings together the half-moves of one edge, then those of
//! one register, and there the sources before the destinations.
use crate::index::{Block, VRegIndex};
use crate::reg::{Allocation, RegAllocError};
use crate::sort::{HasKey, Keyed};
use vstd::prelude::*;

verus! {

/// One more than the largest number of a block or register in a key.
pub const KEY_LIMIT: u32 = 0x20_0000;

/// Which end of a move?
#[derive(Clone, Copy, Debug, PartialEq, Eq, Structural)]
pub enum HalfMoveKind {
    Source,
    Dest,
}

/// One end of a move on an edge.
#[derive(Clone, Copy, Debug, PartialEq, Eq, Structural)]
pub struct HalfMove {
    pub key: u64,
    pub alloc: Allocation,
}

/// The number of the kind.
pub open spec fn kind_rank(kind: HalfMoveKind) -> int {
    match kind {
        HalfMoveKind::Source => 0,
        HalfMoveKind::Dest => 1,
    }
}

/// The key of a half-move.
pub open spec fn key_value(from: int, to: int, vreg: int, kind: HalfMoveKind) -> int {
    ((from * KEY_LIMIT + to) * KEY_LIMIT + vreg) * 2 + kind_rank(kind)
}

/// Can the numbers be put into a key?
pub open spec fn key_fits(from: u32, to: u32, vreg: u32) -> bool {
    from < KEY_LIMIT && to < KEY_LIMIT && vreg < KEY_LIMIT
}

/// Make the key of a half-move.
pub fn half_move_key(
    from_block: Block,
    to_block: Block,
    to_vreg: VRegIndex,
    kind: HalfMoveKind,
) -> (r: Result<u64, RegAllocError>)
    ensures
        match r {
            Ok(k) => key_fits(from_block.0, to_block.0, to_vreg.0) && k == key_value(
                from_block.ix(),
                to_block.ix(),
                to_vreg.ix(),
                kind,
            ),
            Err(e) => !key_fits(from_block.0, to_block.0, to_vreg.0) && e == RegAllocError::TooLarge,
        },
{
    if from_block.0 >= KEY_LIMIT || to_block.0 >= KEY_LIMIT || to_vreg.0 >= KEY_LIMIT {
        return Err(RegAllocError::TooLarge);
    }
    let from: u64 = from_block.0 as u64;
    let to: u64 = to_block.0 as u64;
    let vreg: u64 = to_vreg.0 as u64;
    let bit: u64 = match kind {
        HalfMoveKind::Source => 0,
        HalfMoveKind::Dest => 1,
    };
    let key: u64 = (from << 43) | (to << 22) | (vreg << 1) | bit;
    assert(key == ((from * 0x20_0000 + to) * 0x20_0000 + vreg) * 2 + bit) by (bit_vector)
        requires
            key == (from << 43) | (to << 22) | (vreg << 1) | bit,
            from < 0x20_0000,
            to < 0x20_0000,
            vreg < 0x20_0000,
            bit <= 1,
    ;
    Ok(key)
}

impl HalfMove {
    /// The block that the edge leaves.
    pub open spec fn from_ix(self) -> int {
        ((self.key >> 43) & 0x1f_ffff) as int
    }

    /// The block that the edge enters.
    pub open spec fn to_ix(self) -> int {
        ((self.key >> 22) & 0x1f_ffff) as int
    }

    /// The register.
    pub open spec fn vreg_ix(self) -> int {
        ((self.key >> 1) & 0x1f_ffff) as int
    }

    /// Is it the end that is read?
    pub open spec fn is_source(self) -> bool {
        self.key & 1 != 1
    }

    /// The block that the edge leaves.
    pub fn from_block(&self) -> (r: Block)
        ensures
            r.0 == self.from_ix(),
            r.is_valid(),
    {
        let key = self.key;
        assert((key >> 43) & 0x1f_ffff <= 0x1f_ffff) by (bit_vector);
        Block::new(((self.key >> 43) & 0x1f_ffff) as usize)
    }

    /// The block that the edge enters.
    pub fn to_block(&self) -> (r: Block)
        ensures
            r.0 == self.to_ix(),
            r.is_valid(),
    {
        let key = self.key;
        assert((key >> 22) & 0x1f_ffff <= 0x1f_ffff) by (bit_vector);
        Block::new(((self.key >> 22) & 0x1f_ffff) as usize)
    }

    /// The register.
    pub fn to_vreg(&self) -> (r: VRegIndex)
        ensures
            r.0 == self.vreg_ix(),
            r.is_valid(),
    {
        let key = self.key;
        assert((key >> 1) & 0x1f_ffff <= 0x1f_ffff) by (bit_vector);
        VRegIndex::new(((self.key >> 1) & 0x1f_ffff) as usize)
    }

    /// Which end of the move.
    pub fn kind(&self) -> (r: HalfMoveKind)
        ensures
            (r == HalfMoveKind::Source) == self.is_source(),
    {
        if self.key & 1 == 1 {
            HalfMoveKind::Dest
        } else {
            HalfMoveKind::Source
        }
    }
}

impl HasKey for HalfMove {
    open spec fn key(&self) -> int {
        self.key as int
    }
}

impl Keyed for HalfMove {
    fn sort_key(&self) -> (k: u128) {
        self.key as u128
    }
}

/// Blocks, register and end can be read back from a key.
pub proof fn law_key_roundtrip(from: u32, to: u32, vreg: u32, kind: HalfMoveKind, h: HalfMove)
    requires
        key_fits(from, to, vreg),
        h.key == key_value(from as int, to as int, vreg as int, kind),
    ensures
        h.from_ix() == from,
        h.to_ix() == to,
        h.vreg_ix() == vreg,
        h.is_source() == (kind == HalfMoveKind::Source),
{
    let key = h.key;
    let a = from as u64;
    let b = to as u64;
    let c = vreg as u64;
    let bit: u64 = if kind == HalfMoveKind::Source {
        0
    } else {
        1
    };
    assert((key >> 43) & 0x1f_ffff == a && (key >> 22) & 0x1f_ffff == b && (key >> 1) & 0x1f_ffff
        == c && key & 1 == bit) by (bit_vector)
        requires
            key == ((a * 0x20_0000 + b) * 0x20_0000 + c) * 2 + bit,
            a < 0x20_0000,
            b < 0x20_0000,
            c < 0x20_0000,
            bit <= 1,
    ;
}

/// Keys are ordered by the block that the edge leaves, then by the block that it enters, then by
/// the register, and sources come before destinations.
pub proof fn law_key_order(
    from1: u32,
    to1: u32,
    vreg1: u32,
    kind1: HalfMoveKind,
    from2: u32,
    to2: u32,
    vreg2: u32,
    kind2: HalfMoveKind,
)
    requires
        key_fits(from1, to1, vreg1),
        key_fits(from2, to2, vreg2),
    ensures
        key_value(from1 as int, to1 as int, vreg1 as int, kind1) < key_value(
            from2 as int,
            to2 as int,
            vreg2 as int,
            kind2,
        ) <==> from1 < from2 || (from1 == from2 && (to1 < to2 || (to1 == to2 && (vreg1 < vreg2 || (
        vreg1 == vreg2 && kind_rank(kind1) < kind_rank(kind2)))))),
{
}

} // verus!
