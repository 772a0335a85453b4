//! What operands demand, and what comes out for them.
use crate::apply::{edge_place, operand_place, range_alloc};
use crate::carried::found;
use crate::copied::{in_reach, range_of};
use crate::dom::ssa_form;
use crate::fixed::law_clobbers_respected;
use crate::func::{block_ok, func_ok, inst_ok, operand_ok, FuncModel, MachModel};
use crate::index::{Block, Inst};
use crate::liveness::{branch_arg, inst_range, reused_input, Ctx};
use crate::meets::{law_defs_met, law_uses_met, lemma_places_apart, operand_met};
use crate::needed::{alloc_of, early, late, lemma_alloc_of, lemma_fits, read_place, sits, succeeds};
use crate::operands::not_reused;
use crate::reg::{Allocation, Operand, OperandPolicy, PReg, ProgPoint, RegClass};
use crate::run::{allocated, located};
use crate::settle::classes_ok;
use crate::spans::joined;
use crate::uses::{defined_first, use_named};
use vstd::prelude::*;

verus! {

/// Is the location a register of the class, where the lists of the machine are by class?
pub open spec fn in_class(m: MachModel, loc: Allocation, class: RegClass) -> bool {
    loc matches Allocation::Reg(p) && (classes_ok(m) ==> p.class == class)
}

/// Is the location one that the operand takes? A register of its class for one that wants a register
/// or reuses an input, the given register for one that names it, and otherwise also the stack.
pub open spec fn suits(m: MachModel, op: Operand, loc: Allocation) -> bool {
    match op.policy {
        OperandPolicy::Any => loc is Stack || in_class(m, loc, op.vreg.class),
        OperandPolicy::Reg => in_class(m, loc, op.vreg.class),
        OperandPolicy::Reuse(_) => in_class(m, loc, op.vreg.class),
        OperandPolicy::FixedReg(p) => loc == Allocation::Reg(p),
    }
}

/// Does another operand of instruction `i` name a given register for the register of operand `k`?
pub open spec fn named_twice(f: FuncModel, i: int, k: int) -> bool {
    exists|l: int|
        0 <= l < f.operands[i].len() && l != k && (#[trigger] f.operands[i][l]).policy is FixedReg
            && f.operands[i][l].vreg == f.operands[i][k].vreg
}

/// No output of instruction `i` reuses operand `k`.
pub open spec fn read_alone(f: FuncModel, i: int, k: int) -> bool {
    forall|l: int|
        0 <= l < f.operands[i].len() ==> ((#[trigger] f.operands[i][l]).policy
            matches OperandPolicy::Reuse(input) ==> input != k)
}

proof fn lemma_read_alone(f: FuncModel, i: int, k: int)
    requires
        func_ok(f),
        0 <= i < f.insts,
        0 <= k < f.operands[i].len(),
        read_alone(f, i, k),
    ensures
        not_reused(f, operand_place(f, Inst(i as u32), k)),
{
    assert forall|j: int, l: int|
        0 <= j < f.insts && 0 <= l < f.operands[j].len() implies ((
        #[trigger] f.operands[j][l]).policy matches OperandPolicy::Reuse(input) ==> operand_place(
        f,
        Inst(j as u32),
        input as int,
    ) != operand_place(f, Inst(i as u32), k)) by {
        if let OperandPolicy::Reuse(input) = f.operands[j][l].policy {
            assert(inst_ok(f, j));
            assert(operand_ok(f, j, f.operands[j][l]));
            if operand_place(f, Inst(j as u32), input as int) == operand_place(
                f,
                Inst(i as u32),
                k,
            ) {
                lemma_places_apart(f, j, input as int, i, k);
            }
        }
    }
}

/// Every operand that can be reached comes out in a location that it takes. Where two operands of an
/// instruction name given registers for one register, any register of the class will do, and copies
/// fill the given ones.
pub proof fn law_operands_suited(c: Ctx, b: Block, i: int, k: int)
    requires
        succeeds(c),
        ssa_form(c.f),
        in_reach(c, b, i),
        0 <= k < c.f.operands[i].len(),
        read_alone(c.f, i, k),
    ensures
        suits(c.m, c.f.operands[i][k], alloc_of(c, i, k)) || c.f.operands[i][k].policy is FixedReg
            && named_twice(c.f, i, k) && in_class(
            c.m,
            alloc_of(c, i, k),
            c.f.operands[i][k].vreg.class,
        ),
{
    lemma_fits(c);
    lemma_alloc_of(c, i, k);
    lemma_read_alone(c.f, i, k);
    lemma_operand_met(c, b, i, k);
}

proof fn lemma_operand_met(c: Ctx, b: Block, i: int, k: int)
    requires
        succeeds(c),
        ssa_form(c.f),
        in_reach(c, b, i),
        0 <= k < c.f.operands[i].len(),
        not_reused(c.f, operand_place(c.f, Inst(i as u32), k)),
    ensures
        operand_met(
            c,
            i,
            k,
            allocated(c)->Ok_0.allocs[operand_place(c.f, Inst(i as u32), k)],
        ),
{
    reveal(succeeds);
    if c.f.operands[i][k].kind is Use {
        assert(defined_first(c.f)) by {
            reveal(ssa_form);
        }
        law_uses_met(c, b, i, k);
    } else {
        law_defs_met(c, b, i, k);
    }
}

/// No register is in a physical register that the instruction overwrites, neither before the
/// instruction nor after it.
pub proof fn law_overwritten_empty(c: Ctx, b: Block, i: int, j: int, v: int, p: int, q: PReg)
    requires
        succeeds(c),
        in_reach(c, b, i),
        0 <= j < c.f.clobbers[i].len(),
        p == early(i) || p == late(i),
        sits(c, v, p, Allocation::Reg(q)),
    ensures
        q.ix() != c.f.clobbers[i][j].ix(),
{
    let y = choose|y: int|
        0 <= y < found(c).g.in_vreg[v].len() && #[trigger] range_of(c, v, y).from.ix() <= p
            < range_of(c, v, y).to.ix() && range_alloc(found(c), found(c).g.in_vreg[v][y]) == Some(
            Allocation::Reg(q),
        );
    lemma_fits(c);
    assert(range_of(c, v, y).meets(inst_range(Inst(i as u32))));
    reveal(succeeds);
    law_clobbers_respected(c, b, i, j, v, y);
}

/// Does the edge between two blocks pass the point: at the end of the one or at the start of the
/// other?
pub open spec fn passed(f: FuncModel, from: Block, to: Block, pos: ProgPoint) -> bool {
    ||| pos.ix() == late(f.insns[from.ix()].to.0 - 1)
    ||| pos.ix() == early(f.insns[to.ix()].from.0 as int)
}

/// Moves on an edge are placed where the edge passes and no other one does, where the function does
/// not begin and where it does not end.
pub proof fn law_edge_alone(f: FuncModel, from: Block, to: Block, a: Block, b: Block)
    requires
        func_ok(f),
        from.0 < f.blocks,
        to.0 < f.blocks,
        joined(f, from, to),
        a.0 < f.blocks,
        b.0 < f.blocks,
        joined(f, a, b),
        edge_place(f, from.ix(), to.ix()) is Some,
    ensures
        ({
            let pos = edge_place(f, from.ix(), to.ix())->Some_0.0;
            &&& passed(f, from, to, pos)
            &&& passed(f, a, b, pos) ==> a == from && b == to
            &&& pos.ix() != early(f.insns[f.entry.ix()].from.0 as int)
            &&& f.rets[f.insns[from.ix()].to.0 - 1] ==> pos.ix() != late(
                f.insns[from.ix()].to.0 - 1,
            )
        }),
{
    let pos = edge_place(f, from.ix(), to.ix())->Some_0.0;
    assert(block_ok(f, from.ix()) && block_ok(f, to.ix()) && block_ok(f, a.ix()) && block_ok(
        f,
        b.ix(),
    ) && block_ok(f, f.entry.ix()));
    let _ = (
        f.insns[from.ix()],
        f.insns[to.ix()],
        f.insns[a.ix()],
        f.insns[b.ix()],
        f.insns[f.entry.ix()],
    );
    let k = choose|k: int| 0 <= k < f.succs[from.ix()].len() && f.succs[from.ix()][k] == to;
    let l = choose|l: int| 0 <= l < f.preds[to.ix()].len() && f.preds[to.ix()][l] == from;
    if passed(f, a, b, pos) {
        if pos.ix() == late(f.insns[from.ix()].to.0 - 1) {
            assert(a == from);
            assert(f.succs[from.ix()].len() == 1);
        } else {
            assert(b == to);
            assert(f.preds[to.ix()].len() == 1);
        }
    }
}

/// An edge without a place for moves is one that leaves a block with another way out and comes into
/// one with another way in.
pub proof fn law_edge_has_place(f: FuncModel, from: Block, to: Block)
    requires
        func_ok(f),
        from.0 < f.blocks,
        to.0 < f.blocks,
        edge_place(f, from.ix(), to.ix()) is None,
    ensures
        f.succs[from.ix()].len() > 1 || f.rets[f.insns[from.ix()].to.0 - 1],
        f.preds[to.ix()].len() > 1 || f.entry == to,
{
    assert(block_ok(f, from.ix()));
}

/// The arguments that a branch hands on are its first operands: those for the parameters of its first
/// successor in order, and behind those for one successor the ones for the next.
pub proof fn law_args_in_order(f: FuncModel, b: Block, k: int, j: int)
    requires
        0 <= k,
    ensures
        branch_arg(f, b, 0, j) == f.operands[f.insns[b.ix()].to.0 - 1][j],
        branch_arg(f, b, k + 1, j) == branch_arg(
            f,
            b,
            k,
            f.params[f.succs[b.ix()][k].ix()].len() + j,
        ),
{
}

pub proof fn lemma_none_reused(ops: Seq<Operand>, i: int)
    requires
        forall|p: int| 0 <= p < ops.len() ==> !((#[trigger] ops[p]).policy is Reuse),
    ensures
        reused_input(ops, i) is None,
    decreases ops.len() - i,
{
    if 0 <= i < ops.len() {
        lemma_none_reused(ops, i + 1);
    }
}

/// A use is noted where its operand reads the register: after a branch, and otherwise, where no input
/// is reused, before the instruction if it is an early one and after it if not.
pub proof fn law_use_point(c: Ctx, n: int)
    requires
        succeeds(c),
        0 <= n < found(c).g.uses.len(),
    ensures
        ({
            let u = found(c).g.uses[n];
            let i = u.pos.inst.0 as int;
            let ops = c.f.operands[i];
            &&& ops[u.slot as int].kind is Use
            &&& c.f.branches[i] ==> u.pos.ix() == late(i)
            &&& !c.f.branches[i] && (forall|p: int|
                0 <= p < ops.len() ==> !((#[trigger] ops[p]).policy is Reuse)) ==> u.pos.ix()
                == read_place(ops[u.slot as int], i)
        }),
{
    reveal(succeeds);
    let (u, a, t) = located(c)->Ok_0;
    let e = a.g.uses[n];
    assert(u.g.uses[n] == e);
    assert(use_named(c.f, u.g.uses[n]));
    let ops = c.f.operands[e.pos.inst.ix()];
    if forall|p: int| 0 <= p < ops.len() ==> !((#[trigger] ops[p]).policy is Reuse) {
        lemma_none_reused(ops, 0);
    }
}

} // verus!
