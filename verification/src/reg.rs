//! Registers, operands, allocations and program points: the vocabulary shared by the allocator
//! and its clients.
use crate::index::{Block, Inst, LiveRangeIndex, VRegIndex};
use vstd::prelude::*;

verus! {

/// The class of a register. A value lives in registers of one class only.
#[derive(Clone, Copy, Debug, PartialEq, Eq, PartialOrd, Ord, Hash, Structural)]
pub enum RegClass {
    Int,
    Float,
}

impl RegClass {
    /// The number of this class.
    pub open spec fn ix(self) -> int {
        match self {
            RegClass::Int => 0,
            RegClass::Float => 1,
        }
    }

    /// The number of this class.
    pub fn index(self) -> (i: usize)
        ensures
            i == self.ix(),
    {
        match self {
            RegClass::Int => 0,
            RegClass::Float => 1,
        }
    }
}

/// A physical register: a hardware encoding and a class.
#[derive(Clone, Copy, Debug, PartialEq, Eq, PartialOrd, Ord, Hash, Structural)]
pub struct PReg {
    pub hw_enc: u8,
    pub class: RegClass,
}

/// The number of hardware encodings of one class.
pub const PREG_ENCODINGS: u8 = 32;

impl PReg {
    /// The place of this register among all physical registers.
    pub open spec fn ix(self) -> int {
        self.class.ix() * PREG_ENCODINGS + self.hw_enc
    }

    /// The encoding is one of its class.
    pub open spec fn encoded(self) -> bool {
        self.hw_enc < PREG_ENCODINGS
    }

    /// The register of class `class` with encoding `hw_enc`.
    pub fn new(hw_enc: usize, class: RegClass) -> (r: Self)
        requires
            hw_enc < PREG_ENCODINGS,
        ensures
            r.hw_enc == hw_enc,
            r.class == class,
            r.encoded(),
    {
        PReg { hw_enc: hw_enc as u8, class }
    }

    /// The class of this register.
    #[verifier::allow_in_spec]
    pub fn class(self) -> RegClass
        returns
            self.class,
    {
        self.class
    }

    /// The place of this register among all physical registers.
    pub fn index(self) -> (i: usize)
        ensures
            i == self.ix(),
            i < 288,
    {
        self.class.index() * (PREG_ENCODINGS as usize) + self.hw_enc as usize
    }
}

/// A virtual register: a number and a class.
#[derive(Clone, Copy, Debug, PartialEq, Eq, PartialOrd, Ord, Hash, Structural)]
pub struct VReg {
    pub vreg: u32,
    pub class: RegClass,
}

impl VReg {
    /// The number of this virtual register.
    pub open spec fn ix(self) -> int {
        self.vreg as int
    }

    /// The virtual register of class `class` with number `virt_reg`.
    pub fn new(virt_reg: usize, class: RegClass) -> (r: Self)
        requires
            virt_reg <= u32::MAX,
        ensures
            r.vreg == virt_reg,
            r.class == class,
    {
        VReg { vreg: virt_reg as u32, class }
    }

    /// The number of this virtual register.
    pub fn vreg(self) -> (i: usize)
        ensures
            i == self.vreg,
    {
        self.vreg as usize
    }

    /// The class of this virtual register.
    #[verifier::allow_in_spec]
    pub fn class(self) -> RegClass
        returns
            self.class,
    {
        self.class
    }
}

/// A spill slot in the stack frame.
#[derive(Clone, Copy, Debug, PartialEq, Eq, PartialOrd, Ord, Hash, Structural)]
pub struct SpillSlot {
    pub index: u32,
    pub class: RegClass,
}

/// The number of spill slots a stack frame can have.
pub const MAX_SPILLSLOTS: u32 = 0x100_0000;

impl SpillSlot {
    /// The slot number `slot`, holding values of class `class`.
    pub fn new(slot: usize, class: RegClass) -> (r: Self)
        requires
            slot < MAX_SPILLSLOTS,
        ensures
            r.index == slot,
            r.class == class,
    {
        SpillSlot { index: slot as u32, class }
    }
}

/// What an operand demands of the location of its value.
#[derive(Clone, Copy, Debug, PartialEq, Eq, Structural)]
pub enum OperandPolicy {
    /// Any location.
    Any,
    /// Any register.
    Reg,
    /// One given register.
    FixedReg(PReg),
    /// The location of the input operand with this position.
    Reuse(usize),
}

/// Does the operand write or read its virtual register?
#[derive(Clone, Copy, Debug, PartialEq, Eq, Structural)]
pub enum OperandKind {
    Def,
    Use,
}

/// The part of the instruction in which the operand's location is taken.
#[derive(Clone, Copy, Debug, PartialEq, Eq, Structural)]
pub enum OperandPos {
    Before,
    After,
    Both,
}

/// A mention of a virtual register in an instruction.
#[derive(Clone, Copy, Debug, PartialEq, Eq, Structural)]
pub struct Operand {
    pub vreg: VReg,
    pub policy: OperandPolicy,
    pub kind: OperandKind,
    pub pos: OperandPos,
}

impl Operand {
    /// An operand with the given parts.
    #[verifier::allow_in_spec]
    pub fn new(vreg: VReg, policy: OperandPolicy, kind: OperandKind, pos: OperandPos) -> Self
        returns
            (Operand { vreg, policy, kind, pos }),
    {
        Operand { vreg, policy, kind, pos }
    }

    /// The virtual register.
    #[verifier::allow_in_spec]
    pub fn vreg(self) -> VReg
        returns
            self.vreg,
    {
        self.vreg
    }

    /// The class of the virtual register.
    #[verifier::allow_in_spec]
    pub fn class(self) -> RegClass
        returns
            self.vreg.class,
    {
        self.vreg.class
    }

    /// What is demanded of the location.
    #[verifier::allow_in_spec]
    pub fn policy(self) -> OperandPolicy
        returns
            self.policy,
    {
        self.policy
    }

    /// Definition or use.
    #[verifier::allow_in_spec]
    pub fn kind(self) -> OperandKind
        returns
            self.kind,
    {
        self.kind
    }

    /// Where in the instruction.
    #[verifier::allow_in_spec]
    pub fn pos(self) -> OperandPos
        returns
            self.pos,
    {
        self.pos
    }
}

/// Where a value lives.
#[derive(Clone, Copy, Debug, PartialEq, Eq, Structural)]
pub enum Allocation {
    /// Nowhere yet.
    Nowhere,
    /// In a physical register.
    Reg(PReg),
    /// In a spill slot.
    Stack(SpillSlot),
}

impl Allocation {
    /// No location.
    #[verifier::allow_in_spec]
    pub fn none() -> Self
        returns
            Allocation::Nowhere,
    {
        Allocation::Nowhere
    }

    /// The location `preg`.
    #[verifier::allow_in_spec]
    pub fn reg(preg: PReg) -> Self
        returns
            Allocation::Reg(preg),
    {
        Allocation::Reg(preg)
    }

    /// The location `slot`.
    #[verifier::allow_in_spec]
    pub fn stack(slot: SpillSlot) -> Self
        returns
            Allocation::Stack(slot),
    {
        Allocation::Stack(slot)
    }

    /// The register of the location, if it is one.
    #[verifier::allow_in_spec]
    pub fn as_reg(self) -> Option<PReg>
        returns
            (match self {
                Allocation::Reg(preg) => Some(preg),
                _ => None,
            }),
    {
        match self {
            Allocation::Reg(preg) => Some(preg),
            _ => None,
        }
    }

    /// The class of the register or slot of the location, if there is one.
    #[verifier::allow_in_spec]
    pub fn class(self) -> Option<RegClass>
        returns
            (match self {
                Allocation::Nowhere => None,
                Allocation::Reg(preg) => Some(preg.class),
                Allocation::Stack(slot) => Some(slot.class),
            }),
    {
        match self {
            Allocation::Nowhere => None,
            Allocation::Reg(preg) => Some(preg.class),
            Allocation::Stack(slot) => Some(slot.class),
        }
    }
}

/// Before or after an instruction.
#[derive(Clone, Copy, Debug, PartialEq, Eq, Hash, Structural)]
pub enum InstPosition {
    Before,
    After,
}

/// The largest number of instructions of a function: a program point must fit in 32 bits.
pub const MAX_INSTS: u32 = 0x7fff_fff0;

/// A point of the program: just before or just after an instruction.
#[derive(Clone, Copy, Debug, PartialEq, Eq, Hash, Structural)]
pub struct ProgPoint {
    pub inst: Inst,
    pub pos: InstPosition,
}

impl ProgPoint {
    /// The place of this point in program order.
    pub open spec fn ix(self) -> int {
        self.inst.0 * 2 + if self.pos is Before {
            0int
        } else {
            1int
        }
    }

    /// The point with place `i` in program order.
    pub open spec fn at(i: int) -> ProgPoint {
        ProgPoint {
            inst: Inst((i / 2) as u32),
            pos: if i % 2 == 0 {
                InstPosition::Before
            } else {
                InstPosition::After
            },
        }
    }

    /// The point before `inst`.
    #[verifier::allow_in_spec]
    pub fn before(inst: Inst) -> Self
        returns
            (ProgPoint { inst, pos: InstPosition::Before }),
    {
        ProgPoint { inst, pos: InstPosition::Before }
    }

    /// The point after `inst`.
    #[verifier::allow_in_spec]
    pub fn after(inst: Inst) -> Self
        returns
            (ProgPoint { inst, pos: InstPosition::After }),
    {
        ProgPoint { inst, pos: InstPosition::After }
    }

    /// The point after this one.
    pub open spec fn succ(self) -> ProgPoint {
        match self.pos {
            InstPosition::Before => ProgPoint { inst: self.inst, pos: InstPosition::After },
            InstPosition::After => ProgPoint {
                inst: Inst((self.inst.0 + 1) as u32),
                pos: InstPosition::Before,
            },
        }
    }

    /// The point after this one.
    pub fn next(self) -> (r: Self)
        requires
            self.inst.0 <= MAX_INSTS,
        ensures
            r == self.succ(),
            r.ix() == self.ix() + 1,
    {
        match self.pos {
            InstPosition::Before => ProgPoint { inst: self.inst, pos: InstPosition::After },
            InstPosition::After => ProgPoint { inst: self.inst.next(), pos: InstPosition::Before },
        }
    }

    /// The point before this one.
    pub open spec fn pred(self) -> ProgPoint {
        match self.pos {
            InstPosition::Before => ProgPoint {
                inst: Inst((self.inst.0 - 1) as u32),
                pos: InstPosition::After,
            },
            InstPosition::After => ProgPoint { inst: self.inst, pos: InstPosition::Before },
        }
    }

    /// The point before this one.
    pub fn prev(self) -> (r: Self)
        requires
            self.inst.is_valid(),
            self.ix() > 0,
        ensures
            r == self.pred(),
            r.ix() == self.ix() - 1,
    {
        match self.pos {
            InstPosition::Before => ProgPoint { inst: self.inst.prev(), pos: InstPosition::After },
            InstPosition::After => ProgPoint { inst: self.inst, pos: InstPosition::Before },
        }
    }

    /// The place of this point in program order.
    pub fn to_index(self) -> (i: u32)
        requires
            self.inst.0 <= MAX_INSTS,
        ensures
            i == self.ix(),
    {
        match self.pos {
            InstPosition::Before => self.inst.0 * 2,
            InstPosition::After => self.inst.0 * 2 + 1,
        }
    }

    /// The point with place `index` in program order.
    pub fn from_index(index: u32) -> (r: Self)
        ensures
            r == Self::at(index as int),
            r.ix() == index,
    {
        ProgPoint {
            inst: Inst(index / 2),
            pos: if index % 2 == 0 {
                InstPosition::Before
            } else {
                InstPosition::After
            },
        }
    }

    /// A point is determined by its place in program order.
    pub proof fn law_ix_injective(self, other: ProgPoint)
        ensures
            self.ix() == other.ix() ==> self == other,
    {
    }

    /// `at` undoes `ix`.
    pub proof fn law_at_undoes_ix(self)
        ensures
            Self::at(self.ix()) == self,
    {
    }
}

impl PartialOrd for ProgPoint {
    fn partial_cmp(&self, other: &Self) -> (r: Option<core::cmp::Ordering>) {
        if self.inst.0 < other.inst.0 {
            Some(core::cmp::Ordering::Less)
        } else if self.inst.0 > other.inst.0 {
            Some(core::cmp::Ordering::Greater)
        } else {
            match (self.pos, other.pos) {
                (InstPosition::Before, InstPosition::After) => Some(core::cmp::Ordering::Less),
                (InstPosition::After, InstPosition::Before) => Some(core::cmp::Ordering::Greater),
                _ => Some(core::cmp::Ordering::Equal),
            }
        }
    }
}

impl vstd::std_specs::cmp::PartialOrdSpecImpl for ProgPoint {
    open spec fn obeys_partial_cmp_spec() -> bool {
        true
    }

    open spec fn partial_cmp_spec(&self, other: &Self) -> Option<core::cmp::Ordering> {
        if self.ix() < other.ix() {
            Some(core::cmp::Ordering::Less)
        } else if self.ix() > other.ix() {
            Some(core::cmp::Ordering::Greater)
        } else {
            Some(core::cmp::Ordering::Equal)
        }
    }
}

/// A change that the client makes to the code.
#[derive(Debug)]
pub enum Edit {
    /// Copy a value.
    Move { from: Allocation, to: Allocation },
    /// State where the block parameters live on entry of a block.
    BlockParams { vregs: Vec<VReg>, allocs: Vec<Allocation> },
}

/// The mathematical value of an `Edit`.
#[verifier::ext_equal]
pub enum EditModel {
    Move { from: Allocation, to: Allocation },
    BlockParams { vregs: Seq<VReg>, allocs: Seq<Allocation> },
}

impl View for Edit {
    type V = EditModel;

    open spec fn view(&self) -> EditModel {
        match self {
            Edit::Move { from, to } => EditModel::Move { from: *from, to: *to },
            Edit::BlockParams { vregs, allocs } => EditModel::BlockParams {
                vregs: vregs@,
                allocs: allocs@,
            },
        }
    }
}

/// Why no allocation was found.
#[derive(Clone, Copy, Debug, PartialEq, Eq, Structural)]
pub enum RegAllocError {
    /// An index, a count or a weight outgrows the bits it is kept in.
    TooLarge,
    /// A value takes a number of spill slots that is not a power of two.
    SlotSize(u32),
    /// The register is defined where its live range ends or later.
    SSA(VReg, Inst),
    /// A register that is to share a location has no live range or no definition.
    NoLiveRange(VRegIndex),
    /// The live range was given neither a register nor a spill slot.
    NoAllocation(LiveRangeIndex),
    /// A move would have to be placed in the middle of an instruction.
    SplitInst(ProgPoint),
    /// No move can be placed on the edge between these blocks.
    CritEdge(Block, Block),
    /// Not every parameter of the block has a location.
    BlockParams(Block),
    /// The search for an allocation does not end.
    NoConvergence,
}

} // verus!
