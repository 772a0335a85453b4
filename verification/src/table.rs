//! A function held in tables.
use crate::func::{
    block_ok, branch_args_ok, func_ok, inst_ok, inst_regs_ok, lemma_operands_before,
    lemma_params_before, mach_ok, operand_ok, operands_before, params_before, regs_ok, FuncModel,
    Function, InstRange, MachineEnv,
};
use crate::index::{Block, Inst};
use crate::reg::{
    Operand, OperandKind, OperandPolicy, OperandPos, PReg, RegClass, VReg, MAX_INSTS,
    PREG_ENCODINGS,
};
use vstd::prelude::*;

verus! {

/// An instruction.
#[derive(Debug)]
pub struct InstData {
    pub is_call: bool,
    pub is_ret: bool,
    pub is_branch: bool,
    pub is_move: Option<(VReg, VReg)>,
    pub operands: Vec<Operand>,
    pub clobbers: Vec<PReg>,
}

/// A block.
#[derive(Debug)]
pub struct BlockData {
    pub insns: InstRange,
    pub succs: Vec<Block>,
    pub preds: Vec<Block>,
    pub params: Vec<VReg>,
}

/// A function held in tables.
#[derive(Debug)]
pub struct TableFunction {
    pub inst_table: Vec<InstData>,
    pub block_table: Vec<BlockData>,
    pub entry: Block,
    pub vreg_count: usize,
    /// How many spill slots a value of class `Int` takes.
    pub int_slots: usize,
    /// How many spill slots a value of class `Float` takes.
    pub float_slots: usize,
    pub named_by_last: bool,
}

impl Function for TableFunction {
    open spec fn model(&self) -> FuncModel {
        let insts = self.inst_table@;
        let blocks = self.block_table@;
        FuncModel {
            insts: insts.len(),
            blocks: blocks.len(),
            entry: self.entry,
            insns: Seq::new(blocks.len(), |b: int| blocks[b].insns),
            succs: Seq::new(blocks.len(), |b: int| blocks[b].succs@),
            preds: Seq::new(blocks.len(), |b: int| blocks[b].preds@),
            params: Seq::new(blocks.len(), |b: int| blocks[b].params@),
            calls: Seq::new(insts.len(), |i: int| insts[i].is_call),
            rets: Seq::new(insts.len(), |i: int| insts[i].is_ret),
            branches: Seq::new(insts.len(), |i: int| insts[i].is_branch),
            moves: Seq::new(insts.len(), |i: int| insts[i].is_move),
            operands: Seq::new(insts.len(), |i: int| insts[i].operands@),
            clobbers: Seq::new(insts.len(), |i: int| insts[i].clobbers@),
            num_vregs: self.vreg_count as nat,
            slot_size: |class: RegClass, vreg: VReg|
                match class {
                    RegClass::Int => self.int_slots as nat,
                    RegClass::Float => self.float_slots as nat,
                },
            named_by_last: self.named_by_last,
        }
    }

    fn insts(&self) -> (n: usize) {
        self.inst_table.len()
    }

    fn blocks(&self) -> (n: usize) {
        self.block_table.len()
    }

    fn entry_block(&self) -> (b: Block) {
        self.entry
    }

    fn block_insns(&self, block: Block) -> (r: InstRange) {
        self.block_table[block.0 as usize].insns
    }

    fn block_succs(&self, block: Block) -> (r: &[Block]) {
        self.block_table[block.0 as usize].succs.as_slice()
    }

    fn block_preds(&self, block: Block) -> (r: &[Block]) {
        self.block_table[block.0 as usize].preds.as_slice()
    }

    fn block_params(&self, block: Block) -> (r: &[VReg]) {
        self.block_table[block.0 as usize].params.as_slice()
    }

    fn is_call(&self, insn: Inst) -> (r: bool) {
        self.inst_table[insn.0 as usize].is_call
    }

    fn is_ret(&self, insn: Inst) -> (r: bool) {
        self.inst_table[insn.0 as usize].is_ret
    }

    fn is_branch(&self, insn: Inst) -> (r: bool) {
        self.inst_table[insn.0 as usize].is_branch
    }

    fn is_move(&self, insn: Inst) -> (r: Option<(VReg, VReg)>) {
        self.inst_table[insn.0 as usize].is_move
    }

    fn inst_operands(&self, insn: Inst) -> (r: &[Operand]) {
        self.inst_table[insn.0 as usize].operands.as_slice()
    }

    fn inst_clobbers(&self, insn: Inst) -> (r: &[PReg]) {
        self.inst_table[insn.0 as usize].clobbers.as_slice()
    }

    fn num_vregs(&self) -> (n: usize) {
        self.vreg_count
    }

    fn spillslot_size(&self, regclass: RegClass, for_vreg: VReg) -> (n: usize) {
        match regclass {
            RegClass::Int => self.int_slots,
            RegClass::Float => self.float_slots,
        }
    }

    fn multi_spillslot_named_by_last_slot(&self) -> (r: bool) {
        self.named_by_last
    }
}

/// The blocks are those of a function with `n` blocks.
spec fn all_below(list: Seq<Block>, n: int) -> bool {
    forall|k: int| 0 <= k < list.len() ==> (#[trigger] list[k]).0 < n
}

fn check_below(list: &Vec<Block>, n: usize) -> (r: bool)
    ensures
        r == all_below(list@, n as int),
{
    let mut k: usize = 0;
    while k < list.len()
        invariant
            k <= list@.len(),
            forall|j: int| 0 <= j < k ==> (#[trigger] list@[j]).0 < n,
        decreases list@.len() - k,
    {
        if list[k].0 as usize >= n {
            assert(!(list@[k as int].0 < n));
            return false;
        }
        k += 1;
    }
    true
}

/// The instructions of the first `n` blocks follow each other without a gap, from the first one on.
spec fn tiled(f: FuncModel, n: int) -> bool
    decreases n,
{
    if n <= 0 {
        true
    } else {
        tiled(f, n - 1) && f.insns[n - 1].from.0 == tiled_upto(f, n - 1)
    }
}

/// The number of instructions in the first `n` blocks if they follow each other without a gap.
spec fn tiled_upto(f: FuncModel, n: int) -> int {
    if n <= 0 {
        0
    } else {
        f.insns[n - 1].to.0 as int
    }
}

/// The instruction belongs to one of the first `n` blocks.
spec fn in_block(f: FuncModel, i: int, n: int) -> bool {
    exists|b: int| 0 <= b < n && (#[trigger] f.insns[b]).has(i)
}

/// Every instruction belongs to a block, and the blocks follow each other in program order.
spec fn covered(f: FuncModel) -> bool {
    &&& forall|a: int, b: int|
        #![trigger f.insns[a], f.insns[b]]
        0 <= a < b < f.blocks ==> f.insns[a].to.0 <= f.insns[b].from.0
    &&& forall|i: int| 0 <= i < f.insts ==> #[trigger] in_block(f, i, f.blocks as int)
}

/// Every block holds instructions.
spec fn nonempty(f: FuncModel) -> bool {
    forall|b: int|
        0 <= b < f.blocks ==> (#[trigger] f.insns[b]).from.0 < f.insns[b].to.0 <= f.insts
}

proof fn lemma_tiled_order(f: FuncModel, n: int)
    requires
        nonempty(f),
        0 <= n <= f.blocks,
        tiled(f, n),
    ensures
        forall|a: int| 0 <= a < n ==> (#[trigger] f.insns[a]).to.0 <= tiled_upto(f, n),
        forall|a: int, b: int|
            #![trigger f.insns[a], f.insns[b]]
            0 <= a < b < n ==> f.insns[a].to.0 <= f.insns[b].from.0,
        forall|i: int| 0 <= i < tiled_upto(f, n) ==> #[trigger] in_block(f, i, n),
    decreases n,
{
    if n > 0 {
        lemma_tiled_order(f, n - 1);
        assert(f.insns[n - 1].from.0 < f.insns[n - 1].to.0);
        assert forall|i: int| 0 <= i < tiled_upto(f, n) implies #[trigger] in_block(f, i, n) by {
            if i < tiled_upto(f, n - 1) {
                assert(in_block(f, i, n - 1));
                let b = choose|b: int| 0 <= b < n - 1 && (#[trigger] f.insns[b]).has(i);
                assert(f.insns[b].has(i));
            } else {
                assert(f.insns[n - 1].has(i));
            }
        }
    }
}

proof fn lemma_covered_tiled(f: FuncModel, n: int)
    requires
        nonempty(f),
        covered(f),
        0 <= n <= f.blocks,
    ensures
        tiled(f, n),
    decreases n,
{
    if n > 0 {
        lemma_covered_tiled(f, n - 1);
        lemma_tiled_order(f, n - 1);
        let t = tiled_upto(f, n - 1);
        if n - 1 > 0 {
            assert(f.insns[n - 2].to.0 <= f.insns[n - 1].from.0);
        }
        if f.insns[n - 1].from.0 > t {
            assert(f.insns[n - 1].from.0 < f.insts);
            assert(in_block(f, t, f.blocks as int));
            let b = choose|b: int| 0 <= b < f.blocks && (#[trigger] f.insns[b]).has(t);
            if b < n - 1 {
                assert(f.insns[b].to.0 <= t);
            } else if b > n - 1 {
                assert(f.insns[n - 1].to.0 <= f.insns[b].from.0);
            }
        }
    }
}

proof fn lemma_covered(f: FuncModel)
    requires
        nonempty(f),
    ensures
        covered(f) <==> tiled(f, f.blocks as int) && tiled_upto(f, f.blocks as int) == f.insts,
{
    let n = f.blocks as int;
    if covered(f) {
        lemma_covered_tiled(f, n);
        lemma_tiled_order(f, n);
        let t = tiled_upto(f, n);
        if n > 0 {
            assert(f.insns[n - 1].to.0 <= f.insts);
        }
        if t < f.insts {
            assert(in_block(f, t, f.blocks as int));
            let b = choose|b: int| 0 <= b < f.blocks && (#[trigger] f.insns[b]).has(t);
            assert(f.insns[b].to.0 <= t);
        }
    }
    if tiled(f, n) && tiled_upto(f, n) == f.insts {
        lemma_tiled_order(f, n);
    }
}

impl TableFunction {
    /// Does the block hold instructions, branch at its end only, and name only blocks and registers
    /// that exist?
    fn check_block(&self, b: usize) -> (r: bool)
        requires
            b < self.block_table@.len(),
        ensures
            r == block_ok(self.model(), b as int),
    {
        let ghost f = self.model();
        let block = &self.block_table[b];
        let from = block.insns.from.0;
        let to = block.insns.to.0;
        assert(f.insns[b as int] == block.insns);
        assert(f.succs[b as int] == block.succs@);
        assert(f.preds[b as int] == block.preds@);
        assert(f.params[b as int] == block.params@);
        if from >= to || to as usize > self.inst_table.len() {
            return false;
        }
        let n = self.block_table.len();
        if !check_below(&block.succs, n) || !check_below(&block.preds, n) {
            return false;
        }
        if block.params.len() >= u32::MAX as usize {
            return false;
        }
        let mut k: usize = 0;
        while k < block.params.len()
            invariant
                f == self.model(),
                f.params[b as int] == block.params@,
                k <= block.params@.len(),
                forall|j: int| 0 <= j < k ==> (#[trigger] f.params[b as int][j]).vreg < f.num_vregs,
            decreases block.params@.len() - k,
        {
            if block.params[k].vreg as usize >= self.vreg_count {
                assert(!(f.params[b as int][k as int].vreg < f.num_vregs));
                return false;
            }
            k += 1;
        }
        let last = to - 1;
        let mut i: u32 = from;
        while i < last
            invariant
                f == self.model(),
                b < f.blocks,
                f.insns[b as int].from.0 == from,
                f.insns[b as int].to.0 == to,
                from <= i <= last,
                last == to - 1,
                to <= f.insts,
                forall|j: int|
                    f.insns[b as int].has(j) && j < i ==> !(#[trigger] f.branches[j]),
            decreases last - i,
        {
            if self.inst_table[i as usize].is_branch {
                assert(f.insns[b as int].has(i as int) && f.branches[i as int]);
                return false;
            }
            i += 1;
        }
        if self.inst_table[last as usize].is_branch {
            let limit = self.inst_table[last as usize].operands.len();
            let mut sum: usize = 0;
            let mut s: usize = 0;
            while s < block.succs.len()
                invariant
                    f == self.model(),
                    b < f.blocks,
                    f.insns[b as int].to.0 - 1 == last,
                    f.branches[last as int],
                    f.succs[b as int] == block.succs@,
                    all_below(block.succs@, f.blocks as int),
                    limit == f.operands[last as int].len(),
                    s <= block.succs@.len(),
                    sum <= limit,
                    sum == params_before(f, block.succs@, s as int),
                decreases block.succs@.len() - s,
            {
                assert(block.succs@[s as int].0 < f.blocks);
                let succ = block.succs[s].0 as usize;
                let count = self.block_table[succ].params.len();
                assert(count == f.params[succ as int].len());
                proof {
                    lemma_params_before(f, block.succs@, s as int, block.succs@.len() as int);
                }
                if count > limit - sum {
                    return false;
                }
                sum += count;
                s += 1;
            }
        }
        assert(branch_args_ok(f, b as int));
        true
    }

    /// Does the instruction name only registers that exist?
    fn check_inst(&self, i: usize) -> (r: bool)
        requires
            i < self.inst_table@.len(),
        ensures
            r == ((forall|k: int|
                0 <= k < self.model().operands[i as int].len() ==> operand_ok(
                    self.model(),
                    i as int,
                    #[trigger] self.model().operands[i as int][k],
                )) && (self.model().moves[i as int] matches Some((a, b)) ==> a.vreg
                < self.model().num_vregs && b.vreg < self.model().num_vregs)),
    {
        let ghost f = self.model();
        let inst = &self.inst_table[i];
        assert(f.operands[i as int] == inst.operands@);
        let mut k: usize = 0;
        while k < inst.operands.len()
            invariant
                f == self.model(),
                f.operands[i as int] == inst.operands@,
                k <= inst.operands@.len(),
                forall|j: int|
                    0 <= j < k ==> operand_ok(f, i as int, #[trigger] f.operands[i as int][j]),
            decreases inst.operands@.len() - k,
        {
            let op = inst.operands[k];
            let reuse_ok = match op.policy {
                OperandPolicy::Reuse(j) => {
                    j < inst.operands.len() && matches!(op.kind, OperandKind::Def) && matches!(
                        op.pos,
                        OperandPos::After
                    )
                },
                _ => true,
            };
            if op.vreg.vreg as usize >= self.vreg_count || !reuse_ok {
                assert(!operand_ok(f, i as int, f.operands[i as int][k as int]));
                return false;
            }
            k += 1;
        }
        match inst.is_move {
            Some((a, b)) => (a.vreg as usize) < self.vreg_count && (b.vreg as usize)
                < self.vreg_count,
            None => true,
        }
    }

    /// Do the instructions have fewer operands than can be numbered?
    fn check_operand_count(&self) -> (r: bool)
        ensures
            r == (operands_before(self.model().operands, self.model().insts as int) < u32::MAX),
    {
        let ghost ops = self.model().operands;
        let n = self.inst_table.len();
        let limit = u32::MAX as usize - 1;
        let mut sum: usize = 0;
        let mut i: usize = 0;
        while i < n
            invariant
                ops == self.model().operands,
                n == ops.len(),
                n == self.inst_table@.len(),
                i <= n,
                limit == u32::MAX - 1,
                sum <= limit,
                sum == operands_before(ops, i as int),
            decreases n - i,
        {
            let count = self.inst_table[i].operands.len();
            assert(count == ops[i as int].len());
            proof {
                lemma_operands_before(ops, i as int, n as int);
            }
            if count > limit - sum {
                return false;
            }
            sum += count;
            i += 1;
        }
        true
    }

    /// Do the blocks cover the instructions in program order?
    fn check_order(&self) -> (r: bool)
        requires
            nonempty(self.model()),
        ensures
            r == covered(self.model()),
    {
        let ghost f = self.model();
        proof {
            lemma_covered(f);
        }
        let n = self.block_table.len();
        let mut upto: usize = 0;
        let mut b: usize = 0;
        while b < n
            invariant
                f == self.model(),
                n == f.blocks,
                b <= n,
                upto == tiled_upto(f, b as int),
                tiled(f, b as int),
                covered(f) <==> tiled(f, n as int) && tiled_upto(f, n as int) == f.insts,
                nonempty(f),
            decreases n - b,
        {
            assert(f.insns[b as int] == self.block_table@[b as int].insns);
            if self.block_table[b].insns.from.0 as usize != upto {
                proof {
                    if tiled(f, n as int) {
                        lemma_tiled_prefix(f, b + 1, n as int);
                    }
                }
                return false;
            }
            upto = self.block_table[b].insns.to.0 as usize;
            b += 1;
        }
        upto == self.inst_table.len()
    }

    /// Can registers be allocated for the function: does it fit in the index types, do its blocks
    /// follow each other in program order, and do the blocks, registers and operands that it names
    /// exist?
    pub fn check_function(&self) -> (r: bool)
        ensures
            r == func_ok(self.model()),
    {
        let ghost f = self.model();
        let insts = self.inst_table.len();
        let blocks = self.block_table.len();
        if insts > MAX_INSTS as usize || blocks > 0x1fff_ffff || self.vreg_count
            >= u32::MAX as usize || self.entry.0 as usize >= blocks
            || !self.check_operand_count() {
            return false;
        }
        let mut b: usize = 0;
        while b < blocks
            invariant
                f == self.model(),
                blocks == f.blocks,
                b <= blocks,
                forall|k: int| 0 <= k < b ==> #[trigger] block_ok(f, k),
            decreases blocks - b,
        {
            if !self.check_block(b) {
                assert(!block_ok(f, b as int));
                return false;
            }
            b += 1;
        }
        assert(nonempty(f)) by {
            assert forall|b: int| 0 <= b < f.blocks implies (#[trigger] f.insns[b]).from.0
                < f.insns[b].to.0 <= f.insts by {
                assert(block_ok(f, b));
            }
        }
        if !self.check_order() {
            assert(func_ok(f) ==> covered(f)) by {
                assert forall|i: int| func_ok(f) && 0 <= i < f.insts implies #[trigger] in_block(
                    f,
                    i,
                    f.blocks as int,
                ) by {
                    assert(inst_ok(f, i));
                }
            }
            return false;
        }
        let mut i: usize = 0;
        while i < insts
            invariant
                f == self.model(),
                insts == f.insts,
                i <= insts,
                covered(f),
                forall|k: int| 0 <= k < i ==> #[trigger] inst_ok(f, k),
            decreases insts - i,
        {
            if !self.check_inst(i) {
                assert(!inst_ok(f, i as int));
                return false;
            }
            assert(in_block(f, i as int, f.blocks as int));
            assert(inst_ok(f, i as int));
            i += 1;
        }
        assert(func_ok(f));
        true
    }

    /// Does the instruction name only physical registers of the machine?
    fn check_inst_regs(&self, env: &MachineEnv, i: usize) -> (r: bool)
        requires
            i < self.inst_table@.len(),
        ensures
            r == inst_regs_ok(self.model(), env@, i as int),
    {
        let ghost f = self.model();
        let ghost m = env@;
        let inst = &self.inst_table[i];
        assert(f.operands[i as int] == inst.operands@);
        assert(f.clobbers[i as int] == inst.clobbers@);
        let n = env.regs.len();
        let mut k: usize = 0;
        while k < inst.operands.len()
            invariant
                f == self.model(),
                f.operands[i as int] == inst.operands@,
                m == env@,
                n == m.regs.len(),
                i < f.insts,
                f.clobbers[i as int] == inst.clobbers@,
                k <= inst.operands@.len(),
                forall|j: int|
                    0 <= j < k ==> ((#[trigger] f.operands[i as int][j]).policy matches
                    OperandPolicy::FixedReg(p) ==> p.ix() < m.regs.len() && p.encoded()),
            decreases inst.operands@.len() - k,
        {
            if let OperandPolicy::FixedReg(p) = inst.operands[k].policy {
                if p.index() >= n || p.hw_enc >= PREG_ENCODINGS {
                    assert(f.operands[i as int][k as int].policy == OperandPolicy::FixedReg(p));
                    return false;
                }
            }
            k += 1;
        }
        let mut c: usize = 0;
        while c < inst.clobbers.len()
            invariant
                f == self.model(),
                f.clobbers[i as int] == inst.clobbers@,
                m == env@,
                n == m.regs.len(),
                i < f.insts,
                c <= inst.clobbers@.len(),
                forall|j: int|
                    0 <= j < c ==> (#[trigger] f.clobbers[i as int][j]).ix() < m.regs.len(),
            decreases inst.clobbers@.len() - c,
        {
            if inst.clobbers[c].index() >= n {
                assert(!(f.clobbers[i as int][c as int].ix() < m.regs.len()));
                return false;
            }
            c += 1;
        }
        true
    }

    /// Does the function name only physical registers of the machine?
    pub fn check_registers(&self, env: &MachineEnv) -> (r: bool)
        ensures
            r == regs_ok(self.model(), env@),
    {
        let mut i: usize = 0;
        while i < self.inst_table.len()
            invariant
                i <= self.inst_table@.len(),
                forall|k: int| 0 <= k < i ==> #[trigger] inst_regs_ok(self.model(), env@, k),
            decreases self.inst_table@.len() - i,
        {
            if !self.check_inst_regs(env, i) {
                return false;
            }
            i += 1;
        }
        true
    }
}

proof fn lemma_tiled_prefix(f: FuncModel, k: int, n: int)
    requires
        k <= n,
        tiled(f, n),
    ensures
        tiled(f, k),
    decreases n,
{
    if k < n && n > 0 {
        lemma_tiled_prefix(f, k, n - 1);
    }
}

impl MachineEnv {
    /// Is every register at its place in the list of all registers, and do both classes have their
    /// lists?
    pub fn check_machine(&self) -> (r: bool)
        ensures
            r == mach_ok(self@),
    {
        let ghost m = self@;
        let n = self.regs.len();
        let mut i: usize = 0;
        while i < n
            invariant
                m == self@,
                n == m.regs.len(),
                i <= n,
                forall|k: int| 0 <= k < i ==> (#[trigger] m.regs[k]).ix() == k && m.regs[k].encoded(),
            decreases n - i,
        {
            if self.regs[i].index() != i || self.regs[i].hw_enc >= PREG_ENCODINGS {
                assert(!(m.regs[i as int].ix() == i && m.regs[i as int].encoded()));
                return false;
            }
            i += 1;
        }
        if self.regs_by_class.len() < 2 || self.scratch_by_class.len() < 2 {
            return false;
        }
        let mut c: usize = 0;
        while c < self.regs_by_class.len()
            invariant
                m == self@,
                n == m.regs.len(),
                c <= self.regs_by_class@.len(),
                forall|k: int| 0 <= k < c ==> (#[trigger] m.regs_by_class[k]).len() < u32::MAX,
                forall|k: int, j: int|
                    0 <= k < c && 0 <= j < m.regs_by_class[k].len() ==> (
                    #[trigger] m.regs_by_class[k][j]).ix() < m.regs.len()
                        && m.regs_by_class[k][j].encoded(),
            decreases self.regs_by_class@.len() - c,
        {
            let list = &self.regs_by_class[c];
            assert(m.regs_by_class[c as int] == list@);
            if list.len() >= u32::MAX as usize {
                return false;
            }
            let mut j: usize = 0;
            while j < list.len()
                invariant
                    m == self@,
                    m.regs_by_class[c as int] == list@,
                    c < m.regs_by_class.len(),
                    n == m.regs.len(),
                    j <= list@.len(),
                    forall|k: int|
                        0 <= k < j ==> (#[trigger] m.regs_by_class[c as int][k]).ix() < m.regs.len()
                            && m.regs_by_class[c as int][k].encoded(),
                decreases list@.len() - j,
            {
                if list[j].index() >= n || list[j].hw_enc >= PREG_ENCODINGS {
                    assert(!(m.regs_by_class[c as int][j as int].ix() < m.regs.len()
                        && m.regs_by_class[c as int][j as int].encoded()));
                    return false;
                }
                j += 1;
            }
            c += 1;
        }
        true
    }
}

} // verus!
