//! The function to be allocated and the machine to allocate for.
use crate::index::{Block, Inst};
use crate::reg::{Operand, OperandKind, OperandPolicy, OperandPos, PReg, RegClass, VReg, MAX_INSTS};
use vstd::prelude::*;

verus! {

/// Consecutive instructions, from `from` (inclusive) to `to` (exclusive).
#[derive(Clone, Copy, Debug, PartialEq, Eq, Structural)]
pub struct InstRange {
    pub from: Inst,
    pub to: Inst,
}

impl InstRange {
    /// Is the instruction one of them?
    pub open spec fn has(self, i: int) -> bool {
        self.from.0 <= i < self.to.0
    }

    /// The first instruction.
    pub fn first(self) -> (r: Inst)
        requires
            self.from.0 < self.to.0,
        ensures
            r == self.from,
    {
        self.from
    }

    /// The last instruction.
    pub fn last(self) -> (r: Inst)
        requires
            self.from.0 < self.to.0,
        ensures
            r.0 == self.to.0 - 1,
    {
        Inst(self.to.0 - 1)
    }
}

/// The mathematical value of a function.
pub struct FuncModel {
    /// The number of instructions.
    pub insts: nat,
    /// The number of blocks.
    pub blocks: nat,
    /// The block in which the function begins.
    pub entry: Block,
    /// The instructions of each block.
    pub insns: Seq<InstRange>,
    /// The successors of each block.
    pub succs: Seq<Seq<Block>>,
    /// The predecessors of each block.
    pub preds: Seq<Seq<Block>>,
    /// The parameters of each block.
    pub params: Seq<Seq<VReg>>,
    /// Which instructions are calls.
    pub calls: Seq<bool>,
    /// Which instructions return.
    pub rets: Seq<bool>,
    /// Which instructions branch.
    pub branches: Seq<bool>,
    /// Which instructions copy a register, and which one to which one.
    pub moves: Seq<Option<(VReg, VReg)>>,
    /// The operands of each instruction.
    pub operands: Seq<Seq<Operand>>,
    /// The registers that each instruction overwrites.
    pub clobbers: Seq<Seq<PReg>>,
    /// The number of virtual registers.
    pub num_vregs: nat,
    /// How many spill slots a value takes.
    pub slot_size: spec_fn(RegClass, VReg) -> nat,
    /// Is a spill slot of several words named by its last word?
    pub named_by_last: bool,
}

/// The number of operands of the first `n` instructions.
pub open spec fn operands_before(operands: Seq<Seq<Operand>>, n: int) -> int
    decreases n,
{
    if n <= 0 {
        0
    } else {
        operands_before(operands, n - 1) + operands[n - 1].len()
    }
}

/// The number of parameters of the first `n` of these blocks.
pub open spec fn params_before(f: FuncModel, succs: Seq<Block>, n: int) -> int
    decreases n,
{
    if n <= 0 {
        0
    } else {
        params_before(f, succs, n - 1) + f.params[succs[n - 1].ix()].len()
    }
}

/// The block ends in a branch only if the branch has an operand for each parameter of each
/// successor.
pub open spec fn branch_args_ok(f: FuncModel, b: int) -> bool {
    let last = f.insns[b].to.0 - 1;
    f.branches[last] ==> params_before(f, f.succs[b], f.succs[b].len() as int)
        <= f.operands[last].len()
}

/// A block holds instructions, branches at its end only, and names only blocks and registers that
/// exist.
pub open spec fn block_ok(f: FuncModel, b: int) -> bool {
    &&& f.insns[b].from.0 < f.insns[b].to.0 <= f.insts
    &&& forall|k: int| 0 <= k < f.succs[b].len() ==> (#[trigger] f.succs[b][k]).0 < f.blocks
    &&& forall|k: int| 0 <= k < f.preds[b].len() ==> (#[trigger] f.preds[b][k]).0 < f.blocks
    &&& f.params[b].len() < u32::MAX
    &&& forall|k: int| 0 <= k < f.params[b].len() ==> (#[trigger] f.params[b][k]).vreg < f.num_vregs
    &&& branch_args_ok(f, b)
    &&& forall|i: int|
        f.insns[b].has(i) && #[trigger] f.branches[i] ==> i == f.insns[b].to.0 - 1
}

/// An operand names a register that exists; one that reuses an input defines its register after
/// the instruction and names an operand that exists.
pub open spec fn operand_ok(f: FuncModel, i: int, op: Operand) -> bool {
    &&& op.vreg.vreg < f.num_vregs
    &&& op.policy matches OperandPolicy::Reuse(k) ==> {
        &&& k < f.operands[i].len()
        &&& op.kind == OperandKind::Def
        &&& op.pos == OperandPos::After
    }
}

/// An instruction belongs to a block and names only registers that exist.
pub open spec fn inst_ok(f: FuncModel, i: int) -> bool {
    &&& exists|b: int| 0 <= b < f.blocks && (#[trigger] f.insns[b]).has(i)
    &&& forall|k: int|
        0 <= k < f.operands[i].len() ==> operand_ok(f, i, #[trigger] f.operands[i][k])
    &&& f.moves[i] matches Some((a, b)) ==> a.vreg < f.num_vregs && b.vreg < f.num_vregs
}

/// What the allocator asks of a function: it fits in the index types, its blocks follow each other
/// in program order, and blocks, registers and operands that are named exist.
pub open spec fn func_ok(f: FuncModel) -> bool {
    &&& f.insts <= MAX_INSTS
    &&& f.blocks <= 0x1fff_ffff
    &&& f.num_vregs < u32::MAX
    &&& f.entry.0 < f.blocks
    &&& f.insns.len() == f.blocks
    &&& f.succs.len() == f.blocks
    &&& f.preds.len() == f.blocks
    &&& f.params.len() == f.blocks
    &&& f.calls.len() == f.insts
    &&& f.rets.len() == f.insts
    &&& f.branches.len() == f.insts
    &&& f.moves.len() == f.insts
    &&& f.operands.len() == f.insts
    &&& f.clobbers.len() == f.insts
    &&& operands_before(f.operands, f.insts as int) < u32::MAX
    &&& forall|b: int| 0 <= b < f.blocks ==> #[trigger] block_ok(f, b)
    &&& forall|a: int, b: int|
        #![trigger f.insns[a], f.insns[b]]
        0 <= a < b < f.blocks ==> f.insns[a].to.0 <= f.insns[b].from.0
    &&& forall|i: int| 0 <= i < f.insts ==> #[trigger] inst_ok(f, i)
}

/// A function in static single assignment form, as the allocator reads it.
pub trait Function {
    /// The mathematical value.
    spec fn model(&self) -> FuncModel;

    /// The number of instructions.
    fn insts(&self) -> (n: usize)
        ensures
            n == self.model().insts,
    ;

    /// The number of blocks.
    fn blocks(&self) -> (n: usize)
        ensures
            n == self.model().blocks,
    ;

    /// The block in which the function begins.
    fn entry_block(&self) -> (b: Block)
        ensures
            b == self.model().entry,
    ;

    /// The instructions of a block.
    fn block_insns(&self, block: Block) -> (r: InstRange)
        requires
            block.0 < self.model().insns.len(),
        ensures
            r == self.model().insns[block.ix()],
    ;

    /// The successors of a block.
    fn block_succs(&self, block: Block) -> (r: &[Block])
        requires
            block.0 < self.model().succs.len(),
        ensures
            r@ == self.model().succs[block.ix()],
    ;

    /// The predecessors of a block.
    fn block_preds(&self, block: Block) -> (r: &[Block])
        requires
            block.0 < self.model().preds.len(),
        ensures
            r@ == self.model().preds[block.ix()],
    ;

    /// The parameters of a block.
    fn block_params(&self, block: Block) -> (r: &[VReg])
        requires
            block.0 < self.model().params.len(),
        ensures
            r@ == self.model().params[block.ix()],
    ;

    /// Is the instruction a call?
    fn is_call(&self, insn: Inst) -> (r: bool)
        requires
            insn.0 < self.model().calls.len(),
        ensures
            r == self.model().calls[insn.ix()],
    ;

    /// Does the instruction return?
    fn is_ret(&self, insn: Inst) -> (r: bool)
        requires
            insn.0 < self.model().rets.len(),
        ensures
            r == self.model().rets[insn.ix()],
    ;

    /// Does the instruction branch?
    fn is_branch(&self, insn: Inst) -> (r: bool)
        requires
            insn.0 < self.model().branches.len(),
        ensures
            r == self.model().branches[insn.ix()],
    ;

    /// Source and destination, if the instruction copies a register.
    fn is_move(&self, insn: Inst) -> (r: Option<(VReg, VReg)>)
        requires
            insn.0 < self.model().moves.len(),
        ensures
            r == self.model().moves[insn.ix()],
    ;

    /// The operands of an instruction.
    fn inst_operands(&self, insn: Inst) -> (r: &[Operand])
        requires
            insn.0 < self.model().operands.len(),
        ensures
            r@ == self.model().operands[insn.ix()],
    ;

    /// The registers that an instruction overwrites.
    fn inst_clobbers(&self, insn: Inst) -> (r: &[PReg])
        requires
            insn.0 < self.model().clobbers.len(),
        ensures
            r@ == self.model().clobbers[insn.ix()],
    ;

    /// The number of virtual registers.
    fn num_vregs(&self) -> (n: usize)
        ensures
            n == self.model().num_vregs,
    ;

    /// How many spill slots a value takes.
    fn spillslot_size(&self, regclass: RegClass, for_vreg: VReg) -> (n: usize)
        ensures
            n == (self.model().slot_size)(regclass, for_vreg),
    ;

    /// Is a spill slot of several words named by its last word?
    fn multi_spillslot_named_by_last_slot(&self) -> (r: bool)
        ensures
            r == self.model().named_by_last,
    ;
}

/// The registers of a machine.
#[derive(Debug)]
pub struct MachineEnv {
    /// All physical registers, each at its place.
    pub regs: Vec<PReg>,
    /// The registers of each class that may be allocated.
    pub regs_by_class: Vec<Vec<PReg>>,
    /// For each class a register that is free for moves.
    pub scratch_by_class: Vec<PReg>,
}

/// The mathematical value of a `MachineEnv`.
pub struct MachModel {
    pub regs: Seq<PReg>,
    pub regs_by_class: Seq<Seq<PReg>>,
    pub scratch_by_class: Seq<PReg>,
}

impl View for MachineEnv {
    type V = MachModel;

    open spec fn view(&self) -> MachModel {
        MachModel {
            regs: self.regs@,
            regs_by_class: Seq::new(
                self.regs_by_class@.len(),
                |i: int| self.regs_by_class@[i]@,
            ),
            scratch_by_class: self.scratch_by_class@,
        }
    }
}

/// Every register is at its place in the list of all registers, and both classes have their
/// lists.
pub open spec fn mach_ok(m: MachModel) -> bool {
    &&& forall|i: int| 0 <= i < m.regs.len() ==> (#[trigger] m.regs[i]).ix() == i && m.regs[i].encoded()
    &&& m.regs_by_class.len() >= 2
    &&& forall|c: int|
        0 <= c < m.regs_by_class.len() ==> (#[trigger] m.regs_by_class[c]).len() < u32::MAX
    &&& forall|c: int, i: int|
        0 <= c < m.regs_by_class.len() && 0 <= i < m.regs_by_class[c].len() ==> (
        #[trigger] m.regs_by_class[c][i]).ix() < m.regs.len() && m.regs_by_class[c][i].encoded()
    &&& m.scratch_by_class.len() >= 2
}

/// The physical registers that the instruction names are registers of the machine.
pub open spec fn inst_regs_ok(f: FuncModel, m: MachModel, i: int) -> bool {
    &&& forall|k: int|
        0 <= k < f.operands[i].len() ==> ((#[trigger] f.operands[i][k]).policy matches
        OperandPolicy::FixedReg(p) ==> p.ix() < m.regs.len() && p.encoded())
    &&& forall|k: int|
        0 <= k < f.clobbers[i].len() ==> (#[trigger] f.clobbers[i][k]).ix() < m.regs.len()
}

/// The physical registers that the function names are registers of the machine.
pub open spec fn regs_ok(f: FuncModel, m: MachModel) -> bool {
    forall|i: int| 0 <= i < f.insts ==> #[trigger] inst_regs_ok(f, m, i)
}

pub proof fn lemma_operands_before(operands: Seq<Seq<Operand>>, i: int, n: int)
    requires
        0 <= i <= n <= operands.len(),
    ensures
        0 <= operands_before(operands, i) <= operands_before(operands, n),
        i < n ==> operands_before(operands, i) + operands[i].len() <= operands_before(operands, n),
    decreases n,
{
    if i < n {
        lemma_operands_before(operands, i, n - 1);
    } else if i > 0 {
        lemma_operands_before(operands, i - 1, i - 1);
    }
}

pub proof fn lemma_params_before(f: FuncModel, succs: Seq<Block>, i: int, n: int)
    requires
        0 <= i <= n <= succs.len(),
    ensures
        0 <= params_before(f, succs, i) <= params_before(f, succs, n),
        i < n ==> params_before(f, succs, i) + f.params[succs[i].ix()].len() <= params_before(
            f,
            succs,
            n,
        ),
    decreases n,
{
    if i < n {
        lemma_params_before(f, succs, i, n - 1);
    } else if i > 0 {
        lemma_params_before(f, succs, i - 1, i - 1);
    }
}

} // verus!
