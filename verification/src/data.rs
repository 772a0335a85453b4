//! The entries of the allocator's tables.
use crate::code_range::{CodeRange, LiveRangeSet};
use crate::index::{Block, DefIndex, LiveBundleIndex, SpillSetIndex, SpillSlotIndex, VRegIndex};
use crate::reg::{Allocation, Operand, OperandPolicy, PReg, ProgPoint, RegClass, VReg};
use crate::small::IndexVec;
use vstd::prelude::*;

verus! {

/// The bits that count the fixed-register uses of a live range.
pub const FIXED_USES_MASK: u32 = 0xff_ffff;

/// The bits of a bundle that hold its spill weight.
pub const SPILL_WEIGHT_MASK: u32 = 0x3fff_ffff;

/// A stretch of code over which a virtual register is live, with its mentions there.
#[derive(Clone, Copy, Debug)]
pub struct LiveRange {
    pub range: CodeRange,
    pub vreg: VRegIndex,
    pub bundle: LiveBundleIndex,
    pub uses_spill_weight: u32,
    pub num_fixed_uses_and_flags: u32,
    pub def: DefIndex,
}

/// What can be marked on a live range.
#[derive(Clone, Copy, Debug, PartialEq, Eq, Structural)]
pub enum LiveRangeFlag {
    Minimal,
    Fixed,
}

impl LiveRangeFlag {
    /// The bit of this flag.
    #[verifier::allow_in_spec]
    pub fn bit(self) -> u32
        returns
            (match self {
                LiveRangeFlag::Minimal => 0x100_0000u32,
                LiveRangeFlag::Fixed => 0x200_0000u32,
            }),
    {
        match self {
            LiveRangeFlag::Minimal => 0x100_0000u32,
            LiveRangeFlag::Fixed => 0x200_0000u32,
        }
    }
}

impl LiveRange {
    /// The number of fixed-register uses.
    pub open spec fn fixed_uses(self) -> u32 {
        self.num_fixed_uses_and_flags & FIXED_USES_MASK
    }

    /// Is the flag set?
    pub open spec fn flagged(self, flag: LiveRangeFlag) -> bool {
        self.num_fixed_uses_and_flags & flag.bit() != 0
    }

    /// Both flags are as in `other`.
    pub open spec fn same_flags(self, other: LiveRange) -> bool {
        &&& self.flagged(LiveRangeFlag::Minimal) == other.flagged(LiveRangeFlag::Minimal)
        &&& self.flagged(LiveRangeFlag::Fixed) == other.flagged(LiveRangeFlag::Fixed)
    }

    /// The number of fixed-register uses.
    pub fn num_fixed_uses(&self) -> (n: u32)
        ensures
            n == self.fixed_uses(),
            n <= FIXED_USES_MASK,
            self.num_fixed_uses_and_flags <= FIXED_USES_MASK ==> n
                == self.num_fixed_uses_and_flags,
    {
        let x = self.num_fixed_uses_and_flags;
        assert(x & 0xff_ffff <= 0xff_ffff && (x <= 0xff_ffff ==> x & 0xff_ffff == x))
            by (bit_vector);
        self.num_fixed_uses_and_flags & FIXED_USES_MASK
    }

    /// Set the number of fixed-register uses; the flags stay.
    pub fn set_num_fixed_uses(&mut self, count: u32)
        requires
            count <= FIXED_USES_MASK,
        ensures
            *final(self) == (LiveRange {
                num_fixed_uses_and_flags: final(self).num_fixed_uses_and_flags,
                ..*old(self)
            }),
            final(self).num_fixed_uses_and_flags == (old(self).num_fixed_uses_and_flags
                & !FIXED_USES_MASK) | count,
            final(self).fixed_uses() == count,
            final(self).same_flags(*old(self)),
            old(self).num_fixed_uses_and_flags <= FIXED_USES_MASK
                ==> final(self).num_fixed_uses_and_flags == count,
    {
        let x = self.num_fixed_uses_and_flags;
        assert(((x & !0xff_ffffu32) | count) & 0xff_ffff == count && ((x & !0xff_ffffu32) | count)
            & 0x100_0000u32 == x & 0x100_0000u32 && ((x & !0xff_ffffu32) | count) & 0x200_0000u32
            == x & 0x200_0000u32 && (x <= 0xff_ffff ==> (x & !0xff_ffffu32) | count == count))
            by (bit_vector)
            requires
                count <= 0xff_ffff,
        ;
        self.num_fixed_uses_and_flags =
        (self.num_fixed_uses_and_flags & !FIXED_USES_MASK) | count;
    }

    /// Count one more fixed-register use; the flags stay.
    pub fn inc_num_fixed_uses(&mut self)
        requires
            old(self).fixed_uses() < FIXED_USES_MASK,
        ensures
            *final(self) == (LiveRange {
                num_fixed_uses_and_flags: final(self).num_fixed_uses_and_flags,
                ..*old(self)
            }),
            final(self).num_fixed_uses_and_flags == old(self).num_fixed_uses_and_flags + 1,
            final(self).fixed_uses() == old(self).fixed_uses() + 1,
            final(self).same_flags(*old(self)),
    {
        let x = self.num_fixed_uses_and_flags;
        assert(x < 0xffff_ffff) by (bit_vector)
            requires
                x & 0xff_ffff < 0xff_ffff,
        ;
        let y: u32 = x + 1;
        assert(y & 0xff_ffff == (x & 0xff_ffff) + 1 && y & 0x100_0000u32 == x & 0x100_0000u32 && y
            & 0x200_0000u32 == x & 0x200_0000u32) by (bit_vector)
            requires
                x & 0xff_ffff < 0xff_ffff,
                y == x + 1,
        ;
        self.num_fixed_uses_and_flags = y;
    }

    /// Count one less fixed-register use; the flags stay.
    pub fn dec_num_fixed_uses(&mut self)
        requires
            old(self).fixed_uses() > 0,
        ensures
            *final(self) == (LiveRange {
                num_fixed_uses_and_flags: final(self).num_fixed_uses_and_flags,
                ..*old(self)
            }),
            final(self).num_fixed_uses_and_flags == old(self).num_fixed_uses_and_flags - 1,
            final(self).fixed_uses() == old(self).fixed_uses() - 1,
            final(self).same_flags(*old(self)),
    {
        let x = self.num_fixed_uses_and_flags;
        assert(x > 0) by (bit_vector)
            requires
                x & 0xff_ffff > 0,
        ;
        let y: u32 = x - 1;
        assert(y & 0xff_ffff == (x & 0xff_ffff) - 1 && y & 0x100_0000u32 == x & 0x100_0000u32 && y
            & 0x200_0000u32 == x & 0x200_0000u32) by (bit_vector)
            requires
                x & 0xff_ffff > 0,
                y == x - 1,
        ;
        self.num_fixed_uses_and_flags = y;
    }

    /// Set a flag; the other flag and the number of fixed-register uses stay.
    pub fn set_flag(&mut self, flag: LiveRangeFlag)
        ensures
            *final(self) == (LiveRange {
                num_fixed_uses_and_flags: final(self).num_fixed_uses_and_flags,
                ..*old(self)
            }),
            final(self).num_fixed_uses_and_flags == old(self).num_fixed_uses_and_flags | flag.bit(),
            final(self).flagged(flag),
            forall|f: LiveRangeFlag|
                f != flag ==> #[trigger] final(self).flagged(f) == old(self).flagged(f),
            final(self).fixed_uses() == old(self).fixed_uses(),
    {
        let x = self.num_fixed_uses_and_flags;
        assert((x | 0x100_0000) & 0xff_ffff == x & 0xff_ffff && (x | 0x200_0000) & 0xff_ffff == x
            & 0xff_ffff && (x | 0x100_0000) & 0x100_0000 != 0 && (x | 0x200_0000) & 0x200_0000 != 0
            && (x | 0x100_0000) & 0x200_0000 == x & 0x200_0000 && (x | 0x200_0000) & 0x100_0000 == x
            & 0x100_0000) by (bit_vector);
        self.num_fixed_uses_and_flags = self.num_fixed_uses_and_flags | flag.bit();
    }

    /// Clear a flag; the other flag and the number of fixed-register uses stay.
    pub fn clear_flag(&mut self, flag: LiveRangeFlag)
        ensures
            *final(self) == (LiveRange {
                num_fixed_uses_and_flags: final(self).num_fixed_uses_and_flags,
                ..*old(self)
            }),
            final(self).num_fixed_uses_and_flags == old(self).num_fixed_uses_and_flags & !flag.bit(),
            !final(self).flagged(flag),
            forall|f: LiveRangeFlag|
                f != flag ==> #[trigger] final(self).flagged(f) == old(self).flagged(f),
            final(self).fixed_uses() == old(self).fixed_uses(),
    {
        let x = self.num_fixed_uses_and_flags;
        assert((x & !0x100_0000u32) & 0xff_ffff == x & 0xff_ffff && (x & !0x200_0000u32) & 0xff_ffff
            == x & 0xff_ffff && (x & !0x100_0000u32) & 0x100_0000 == 0 && (x & !0x200_0000u32)
            & 0x200_0000 == 0 && (x & !0x100_0000u32) & 0x200_0000 == x & 0x200_0000 && (x
            & !0x200_0000u32) & 0x100_0000 == x & 0x100_0000) by (bit_vector);
        self.num_fixed_uses_and_flags = self.num_fixed_uses_and_flags & !flag.bit();
    }

    /// Is the flag set?
    pub fn has_flag(&self, flag: LiveRangeFlag) -> (r: bool)
        ensures
            r == self.flagged(flag),
    {
        self.num_fixed_uses_and_flags & flag.bit() != 0
    }
}

/// A use of a virtual register.
#[derive(Clone, Copy, Debug, PartialEq, Eq, Structural)]
pub struct Use {
    pub operand: Operand,
    pub pos: ProgPoint,
    pub slot: usize,
}

/// A definition of a virtual register.
#[derive(Clone, Copy, Debug, PartialEq, Eq, Structural)]
pub struct Def {
    pub operand: Operand,
    pub pos: ProgPoint,
    pub slot: usize,
}

/// Live ranges that are to share one location.
#[derive(Clone, Copy, Debug)]
pub struct LiveBundle {
    pub spillset: SpillSetIndex,
    pub allocation: Allocation,
    pub prio: u32,
    pub spill_weight_and_props: u32,
}

/// A spill weight with the two properties of a bundle in the bits above it.
pub open spec fn pack_props(spill_weight: u32, minimal: bool, fixed: bool) -> u32 {
    spill_weight | (if minimal {
        0x8000_0000u32
    } else {
        0
    }) | (if fixed {
        0x4000_0000u32
    } else {
        0
    })
}

/// The property bits of a bundle, at their places.
pub open spec fn props_rank(props: u32) -> u32 {
    props & !SPILL_WEIGHT_MASK
}

/// The spill weight that was noted for a bundle.
pub open spec fn props_weight(props: u32) -> u32 {
    props & SPILL_WEIGHT_MASK
}

/// Is the bundle minimal?
pub open spec fn props_minimal(props: u32) -> bool {
    props & 0x8000_0000 != 0
}

/// Has the bundle a fixed-register mention?
pub open spec fn props_fixed(props: u32) -> bool {
    props & 0x4000_0000 != 0
}

/// What was packed can be read back: the weight, both properties, and as the rank the minimal property
/// before the fixed one, whatever the weight.
pub proof fn law_pack_props(spill_weight: u32, minimal: bool, fixed: bool)
    requires
        spill_weight < SPILL_WEIGHT_MASK,
    ensures
        props_minimal(pack_props(spill_weight, minimal, fixed)) == minimal,
        props_fixed(pack_props(spill_weight, minimal, fixed)) == fixed,
        props_weight(pack_props(spill_weight, minimal, fixed)) == spill_weight,
        props_rank(pack_props(spill_weight, minimal, fixed)) == (if minimal {
            0x8000_0000int
        } else {
            0
        }) + (if fixed {
            0x4000_0000int
        } else {
            0
        }),
{
    let w = spill_weight;
    assert((w | 0x8000_0000u32 | 0x4000_0000u32) & !0x3fff_ffffu32 == 0xc000_0000u32 && (w
        | 0x8000_0000u32 | 0u32) & !0x3fff_ffffu32 == 0x8000_0000u32 && (w | 0u32 | 0x4000_0000u32)
        & !0x3fff_ffffu32 == 0x4000_0000u32 && (w | 0u32 | 0u32) & !0x3fff_ffffu32 == 0u32)
        by (bit_vector)
        requires
            w < 0x3fff_ffffu32,
    ;
    assert((w | 0x8000_0000u32 | 0x4000_0000u32) & 0x3fff_ffffu32 == w && (w | 0x8000_0000u32
        | 0u32) & 0x3fff_ffffu32 == w && (w | 0u32 | 0x4000_0000u32) & 0x3fff_ffffu32 == w && (w
        | 0u32 | 0u32) & 0x3fff_ffffu32 == w) by (bit_vector)
        requires
            w < 0x3fff_ffffu32,
    ;
    assert((w | 0x8000_0000u32 | 0x4000_0000u32) & 0x8000_0000 != 0 && (w | 0x8000_0000u32 | 0u32)
        & 0x8000_0000 != 0 && (w | 0u32 | 0x4000_0000u32) & 0x8000_0000 == 0 && (w | 0u32 | 0u32)
        & 0x8000_0000 == 0 && (w | 0x8000_0000u32 | 0x4000_0000u32) & 0x4000_0000 != 0 && (w
        | 0x8000_0000u32 | 0u32) & 0x4000_0000 == 0 && (w | 0u32 | 0x4000_0000u32) & 0x4000_0000
        != 0 && (w | 0u32 | 0u32) & 0x4000_0000 == 0) by (bit_vector)
        requires
            w < 0x3fff_ffffu32,
    ;
}

impl LiveBundle {
    /// Note the spill weight and the two properties.
    pub fn set_cached_spill_weight_and_props(
        &mut self,
        spill_weight: u32,
        minimal: bool,
        fixed: bool,
    )
        requires
            spill_weight < SPILL_WEIGHT_MASK,
        ensures
            *final(self) == (LiveBundle {
                spill_weight_and_props: pack_props(spill_weight, minimal, fixed),
                ..*old(self)
            }),
            props_minimal(final(self).spill_weight_and_props) == minimal,
            props_fixed(final(self).spill_weight_and_props) == fixed,
    {
        proof {
            law_pack_props(spill_weight, minimal, fixed);
        }
        self.spill_weight_and_props =
        spill_weight | (if minimal {
            0x8000_0000u32
        } else {
            0
        }) | (if fixed {
            0x4000_0000u32
        } else {
            0
        });
    }

    /// Was the bundle noted as minimal?
    pub fn cached_minimal(&self) -> (r: bool)
        ensures
            r == props_minimal(self.spill_weight_and_props),
    {
        self.spill_weight_and_props & 0x8000_0000 != 0
    }

    /// Was the bundle noted as fixed?
    pub fn cached_fixed(&self) -> (r: bool)
        ensures
            r == props_fixed(self.spill_weight_and_props),
    {
        self.spill_weight_and_props & 0x4000_0000 != 0
    }

    /// The property bits, without the noted spill weight below them.
    pub fn cached_spill_weight(&self) -> (r: u32)
        ensures
            r == props_rank(self.spill_weight_and_props),
    {
        self.spill_weight_and_props & !SPILL_WEIGHT_MASK
    }
}

/// The bundles that share a spill slot.
pub struct SpillSet {
    pub bundles: IndexVec,
    pub size: u32,
    pub class: RegClass,
    pub slot: SpillSlotIndex,
    pub reg_hint: Option<PReg>,
}

/// A virtual register.
#[derive(Clone, Copy, Debug)]
pub struct VRegData {
    pub reg: VReg,
    pub def: DefIndex,
    pub blockparam: Block,
}

/// A physical register.
#[derive(Debug)]
pub struct PRegData {
    pub reg: PReg,
    pub allocations: LiveRangeSet,
}

/// A spill slot.
#[derive(Debug)]
pub struct SpillSlotData {
    pub ranges: LiveRangeSet,
    pub class: RegClass,
    pub size: u32,
    pub alloc: Allocation,
}

/// The weight of a mention with this policy.
#[verifier::allow_in_spec]
pub fn spill_weight_from_policy(policy: OperandPolicy) -> u32
    returns
        (match policy {
            OperandPolicy::Any => 1000u32,
            OperandPolicy::Reg => 2000u32,
            OperandPolicy::FixedReg(_) => 2000u32,
            OperandPolicy::Reuse(_) => 0u32,
        }),
{
    match policy {
        OperandPolicy::Any => 1000,
        OperandPolicy::Reg | OperandPolicy::FixedReg(_) => 2000,
        _ => 0,
    }
}

/// A move that is to be inserted.
#[derive(Clone, Copy, Debug, PartialEq, Eq, Structural)]
pub struct InsertedMove {
    pub pos: ProgPoint,
    pub prio: InsertMovePrio,
    pub from_alloc: Allocation,
    pub to_alloc: Allocation,
}

/// The order of the moves at one program point.
#[derive(Clone, Copy, Debug, PartialEq, Eq, Structural)]
pub enum InsertMovePrio {
    InEdgeMoves,
    BlockParam,
    Regular,
    MultiFixedReg,
    ReusedInput,
    OutEdgeMoves,
}

impl InsertMovePrio {
    /// The place of this priority in the order.
    #[verifier::allow_in_spec]
    pub fn rank(self) -> u32
        returns
            (match self {
                InsertMovePrio::InEdgeMoves => 0u32,
                InsertMovePrio::BlockParam => 1u32,
                InsertMovePrio::Regular => 2u32,
                InsertMovePrio::MultiFixedReg => 3u32,
                InsertMovePrio::ReusedInput => 4u32,
                InsertMovePrio::OutEdgeMoves => 5u32,
            }),
    {
        match self {
            InsertMovePrio::InEdgeMoves => 0,
            InsertMovePrio::BlockParam => 1,
            InsertMovePrio::Regular => 2,
            InsertMovePrio::MultiFixedReg => 3,
            InsertMovePrio::ReusedInput => 4,
            InsertMovePrio::OutEdgeMoves => 5,
        }
    }
}

/// What the allocator did, in numbers.
#[derive(Clone, Copy, Debug, PartialEq, Eq, Structural)]
pub struct Stats {
    pub initial_liverange_count: usize,
    pub merged_bundle_count: usize,
    pub process_bundle_count: usize,
    pub process_bundle_reg_probes_fixed: usize,
    pub process_bundle_reg_success_fixed: usize,
    pub process_bundle_reg_probes_any: usize,
    pub process_bundle_reg_success_any: usize,
    pub evict_bundle_event: usize,
    pub evict_bundle_count: usize,
    pub splits: usize,
    pub splits_clobbers: usize,
    pub splits_hot: usize,
    pub splits_conflicts: usize,
    pub splits_all: usize,
    pub final_liverange_count: usize,
    pub final_bundle_count: usize,
    pub spill_bundle_count: usize,
    pub spill_bundle_reg_probes: usize,
    pub spill_bundle_reg_success: usize,
    pub blockparam_ins_count: usize,
    pub blockparam_outs_count: usize,
    pub blockparam_allocs_count: usize,
    pub halfmoves_count: usize,
    pub edits_count: usize,
}

impl Stats {
    /// All counts at zero.
    pub open spec fn zero() -> Stats {
        Stats {
            initial_liverange_count: 0,
            merged_bundle_count: 0,
            process_bundle_count: 0,
            process_bundle_reg_probes_fixed: 0,
            process_bundle_reg_success_fixed: 0,
            process_bundle_reg_probes_any: 0,
            process_bundle_reg_success_any: 0,
            evict_bundle_event: 0,
            evict_bundle_count: 0,
            splits: 0,
            splits_clobbers: 0,
            splits_hot: 0,
            splits_conflicts: 0,
            splits_all: 0,
            final_liverange_count: 0,
            final_bundle_count: 0,
            spill_bundle_count: 0,
            spill_bundle_reg_probes: 0,
            spill_bundle_reg_success: 0,
            blockparam_ins_count: 0,
            blockparam_outs_count: 0,
            blockparam_allocs_count: 0,
            halfmoves_count: 0,
            edits_count: 0,
        }
    }
}

impl Default for Stats {
    fn default() -> (r: Self)
        ensures
            r == Stats::zero(),
    {
        Stats {
            initial_liverange_count: 0,
            merged_bundle_count: 0,
            process_bundle_count: 0,
            process_bundle_reg_probes_fixed: 0,
            process_bundle_reg_success_fixed: 0,
            process_bundle_reg_probes_any: 0,
            process_bundle_reg_success_any: 0,
            evict_bundle_event: 0,
            evict_bundle_count: 0,
            splits: 0,
            splits_clobbers: 0,
            splits_hot: 0,
            splits_conflicts: 0,
            splits_all: 0,
            final_liverange_count: 0,
            final_bundle_count: 0,
            spill_bundle_count: 0,
            spill_bundle_reg_probes: 0,
            spill_bundle_reg_success: 0,
            blockparam_ins_count: 0,
            blockparam_outs_count: 0,
            blockparam_allocs_count: 0,
            halfmoves_count: 0,
            edits_count: 0,
        }
    }
}

} // verus!
