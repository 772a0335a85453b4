//! Which register an entry of the table of registers stands for.
use crate::cfg::reachable;
use crate::code_range::CodeRange;
use crate::data::{Def, LiveRange, VRegData};
use crate::dom::def_in;
use crate::fixup::{
    fix_def, fix_start, fix_uses, pass_extra, pass_fix_all, pass_fix_list, pass_fix_range,
};
use crate::func::{block_ok, func_ok, inst_ok, operand_ok, FuncModel};
use crate::graph::{
    graph_add_def, graph_insert_use, graph_remove_use, graph_set_range, graph_set_vreg, GraphState,
    COALESCE_LIMIT,
};
use crate::index::{Block, DefIndex, Inst, LiveRangeIndex, VRegIndex};
use crate::lists::NIL;
use crate::live::{graph_join, graph_move_uses, graph_scan, hull};
use crate::liveness::{
    blocks_begin, blocks_end, ctx_ok, def_pos, inst_range, live_out, loop_liveins, loop_start,
    pass_block, pass_blocks, pass_clobbers, pass_def, pass_inst, pass_insts, pass_live,
    pass_live_all, pass_loop, pass_operands, pass_outs, pass_param_data, pass_params,
    pass_take_preg, pass_use, reused_input, takes_param, use_pos, Ctx, PassState,
};
use crate::reg::{OperandKind, RegAllocError, VReg};
use crate::setup::{pass_all, pass_start};
use vstd::prelude::*;

verus! {

proof fn lemma_move_uses_vregs(g: GraphState, from: u32, into: u32, range: CodeRange, j: int)
    ensures
        graph_move_uses(g, from, into, range, j) matches Ok(h) ==> h.vregs == g.vregs,
    decreases g.in_range[from as int].len() - j,
{
    let list = g.in_range[from as int];
    if !(j < 0 || j >= list.len() || from == into || from >= g.in_range.len() || into
        >= g.in_range.len()) {
        let pos = g.uses[list[j] as int].pos;
        if pos.ix() < range.to.ix() {
            if range.has(pos) {
                if let Ok(h) = graph_insert_use(graph_remove_use(g, from, j), into, list[j]) {
                    lemma_move_uses_vregs(h, from, into, range, j);
                }
            } else {
                lemma_move_uses_vregs(g, from, into, range, j + 1);
            }
        }
    }
}

proof fn lemma_join_vregs(g: GraphState, v: u32, i: int, merged: u32)
    ensures
        graph_join(g, v, i, merged) matches Ok(h) ==> h.vregs == g.vregs,
{
    let r = g.in_vreg[v as int][i];
    let lr = g.ranges[r as int];
    let m = g.ranges[merged as int];
    let g1 = graph_set_range(
        g,
        merged,
        LiveRange {
            range: CodeRange {
                from: m.range.from,
                to: if lr.range.to.ix() > m.range.to.ix() {
                    lr.range.to
                } else {
                    m.range.to
                },
            },
            def: if lr.def.is_valid() {
                lr.def
            } else {
                m.def
            },
            ..m
        },
    );
    lemma_move_uses_vregs(g1, r, merged, g1.ranges[merged as int].range, 0);
}

proof fn lemma_scan_vregs(g: GraphState, v: u32, range: CodeRange, pass: bool, i: int, merged: u32)
    ensures
        graph_scan(g, v, range, pass, i, merged) matches Ok(s) ==> s.g.vregs == g.vregs,
    decreases g.in_vreg[v as int].len() - i,
{
    let list = g.in_vreg[v as int];
    if !(i < 0 || i >= list.len() || v >= g.in_vreg.len()) {
        let r = list[i];
        let lr = g.ranges[r as int];
        if range.from.ix() >= lr.range.to.ix() && pass {
            lemma_scan_vregs(g, v, range, pass, i + 1, merged);
        } else if range.to.ix() <= lr.range.from.ix() {
        } else if merged == NIL {
            let h = graph_set_range(g, r, LiveRange { range: hull(lr.range, range), ..lr });
            lemma_scan_vregs(h, v, range, pass, i + 1, r);
        } else {
            lemma_join_vregs(g, v, i, merged);
            if let Ok(h) = graph_join(g, v, i, merged) {
                if h.in_vreg[v as int].len() == list.len() - 1 {
                    lemma_scan_vregs(h, v, range, pass, i, merged);
                }
            }
        }
    }
}

proof fn lemma_live_vregs(s: PassState, v: int, range: CodeRange)
    ensures
        pass_live(s, v, range) matches Ok((t, lr)) ==> t.g.vregs == s.g.vregs,
{
    lemma_scan_vregs(s.g, v as u32, range, s.num_ranges < COALESCE_LIMIT, 0, NIL);
}

proof fn lemma_live_all_vregs(s: PassState, range: CodeRange, note: bool, v: int, n: int)
    ensures
        pass_live_all(s, range, note, v, n) matches Ok(t) ==> t.g.vregs == s.g.vregs,
    decreases n - v,
{
    if v < n {
        if s.live.contains(v) {
            lemma_live_vregs(s, v, range);
            if let Ok((t, lr)) = pass_live(s, v, range) {
                let u = if note {
                    PassState { vreg_ranges: t.vreg_ranges.update(v, LiveRangeIndex(lr)), ..t }
                } else {
                    t
                };
                lemma_live_all_vregs(u, range, note, v + 1, n);
            }
        } else {
            lemma_live_all_vregs(s, range, note, v + 1, n);
        }
    }
}

/// Wherever the function defines register number `v`, or takes it as a parameter, it is `reg`.
pub open spec fn named_alike(f: FuncModel, v: int, reg: VReg) -> bool {
    &&& forall|i: int, k: int|
        0 <= i < f.insts && 0 <= k < f.operands[i].len() && (
        #[trigger] f.operands[i][k]).kind is Def && f.operands[i][k].vreg.vreg == v
            ==> f.operands[i][k].vreg == reg
    &&& forall|b: int, k: int|
        0 <= b < f.blocks && 0 <= k < f.params[b].len() && (#[trigger] f.params[b][k]).vreg == v
            ==> f.params[b][k] == reg
}

/// The entry of register number `v` is as it was or stands for `reg`.
pub open spec fn entry_kept(s: PassState, t: PassState, v: int, reg: VReg) -> bool {
    &&& t.g.vregs.len() == s.g.vregs.len()
    &&& t.g.vregs[v].reg == s.g.vregs[v].reg || t.g.vregs[v].reg == reg
}

proof fn lemma_param_data_names(f: FuncModel, s: PassState, b: Block, i: int, v: int, reg: VReg)
    requires
        named_alike(f, v, reg),
        func_ok(f),
        b.0 < f.blocks,
        0 <= v < s.g.vregs.len(),
        s.g.vregs.len() == f.num_vregs,
        0 <= i,
    ensures
        entry_kept(s, pass_param_data(f, s, b, i), v, reg),
        (exists|k: int|
            i <= k < f.params[b.ix()].len() && (#[trigger] f.params[b.ix()][k]).vreg == v)
            ==> pass_param_data(f, s, b, i).g.vregs[v].reg == reg,
    decreases f.params[b.ix()].len() - i,
{
    if i < f.params[b.ix()].len() {
        assert(block_ok(f, b.ix()));
        let p = f.params[b.ix()][i];
        let t = PassState {
            g: graph_set_vreg(
                s.g,
                p.ix(),
                VRegData { reg: p, blockparam: b, ..s.g.vregs[p.ix()] },
            ),
            ..s
        };
        lemma_param_data_names(f, t, b, i + 1, v, reg);
        assert(t.g.vregs[v].reg == s.g.vregs[v].reg || t.g.vregs[v].reg == reg);
        if exists|k: int|
            i <= k < f.params[b.ix()].len() && (#[trigger] f.params[b.ix()][k]).vreg == v {
            let k = choose|k: int|
                i <= k < f.params[b.ix()].len() && (#[trigger] f.params[b.ix()][k]).vreg == v;
            if k > i {
                assert(f.params[b.ix()][k].vreg == v);
            }
        }
    }
}

proof fn lemma_clobbers_vregs(f: FuncModel, s: PassState, inst: Inst, i: int)
    ensures
        pass_clobbers(f, s, inst, i) matches Ok(t) ==> t.g.vregs == s.g.vregs,
    decreases f.clobbers[inst.ix()].len() - i,
{
    if 0 <= i < f.clobbers[inst.ix()].len() {
        if let Ok(t) = pass_take_preg(s, inst_range(inst), f.clobbers[inst.ix()][i].ix()) {
            lemma_clobbers_vregs(f, t, inst, i + 1);
        }
    }
}

proof fn lemma_def_names(c: Ctx, s: PassState, b: Block, inst: Inst, i: int, v: int, reg: VReg)
    requires
        named_alike(c.f, v, reg),
        0 <= inst.ix() < c.f.insts,
        0 <= i < c.f.operands[inst.ix()].len(),
        c.f.operands[inst.ix()][i].kind is Def,
        c.f.operands[inst.ix()][i].vreg.vreg < s.g.vregs.len(),
        0 <= v < s.g.vregs.len(),
    ensures
        pass_def(c, s, b, inst, i) matches Ok(t) ==> entry_kept(s, t, v, reg) && (
        c.f.operands[inst.ix()][i].vreg.vreg == v ==> t.g.vregs[v].reg == reg),
{
    let op = c.f.operands[inst.ix()][i];
    let pos = def_pos(op, inst);
    let w = op.vreg.ix();
    let d = DefIndex(s.g.defs.len() as u32);
    let g1 = graph_add_def(s.g, Def { operand: op, pos, slot: i as usize });
    let g2 = graph_set_vreg(g1, w, VRegData { reg: op.vreg, def: d, ..g1.vregs[w] });
    let t = PassState { g: g2, ..s };
    lemma_live_vregs(t, w, CodeRange { from: pos, to: pos.succ() });
}

proof fn lemma_use_vregs(
    c: Ctx,
    s: PassState,
    b: Block,
    inst: Inst,
    reused: Option<usize>,
    i: int,
)
    ensures
        pass_use(c, s, b, inst, reused, i) matches Ok(t) ==> t.g.vregs == s.g.vregs,
{
    let op = c.f.operands[inst.ix()][i];
    let pos = use_pos(c, b, inst, reused, i);
    lemma_live_vregs(
        s,
        op.vreg.ix(),
        CodeRange { from: c.cfg.block_entry[b.ix()], to: pos.succ() },
    );
}

proof fn lemma_operands_names(
    c: Ctx,
    s: PassState,
    b: Block,
    inst: Inst,
    reused: Option<usize>,
    i: int,
    v: int,
    reg: VReg,
)
    requires
        named_alike(c.f, v, reg),
        func_ok(c.f),
        inst.ix() < c.f.insts,
        0 <= i,
        0 <= v < s.g.vregs.len(),
        s.g.vregs.len() == c.f.num_vregs,
    ensures
        pass_operands(c, s, b, inst, reused, i) matches Ok(t) ==> entry_kept(s, t, v, reg) && ((
        exists|k: int|
            i <= k < c.f.operands[inst.ix()].len() && (
            #[trigger] c.f.operands[inst.ix()][k]).kind is Def
                && c.f.operands[inst.ix()][k].vreg.vreg == v) ==> t.g.vregs[v].reg == reg),
    decreases c.f.operands[inst.ix()].len() - i,
{
    let ops = c.f.operands[inst.ix()];
    if i < ops.len() {
        assert(inst_ok(c.f, inst.ix()));
        assert(operand_ok(c.f, inst.ix(), c.f.operands[inst.ix()][i]));
        let r = match ops[i].kind {
            OperandKind::Def => pass_def(c, s, b, inst, i),
            OperandKind::Use => pass_use(c, s, b, inst, reused, i),
        };
        if ops[i].kind is Def {
            lemma_def_names(c, s, b, inst, i, v, reg);
        } else {
            lemma_use_vregs(c, s, b, inst, reused, i);
        }
        if let Ok(t) = r {
            lemma_operands_names(c, t, b, inst, reused, i + 1, v, reg);
            if exists|k: int|
                i <= k < ops.len() && (#[trigger] c.f.operands[inst.ix()][k]).kind is Def
                    && c.f.operands[inst.ix()][k].vreg.vreg == v {
                let k = choose|k: int|
                    i <= k < ops.len() && (#[trigger] c.f.operands[inst.ix()][k]).kind is Def
                        && c.f.operands[inst.ix()][k].vreg.vreg == v;
                if k > i {
                    assert(c.f.operands[inst.ix()][k].kind is Def);
                }
            }
        }
    }
}

proof fn lemma_insts_names(c: Ctx, s: PassState, b: Block, end: int, v: int, reg: VReg)
    requires
        named_alike(c.f, v, reg),
        func_ok(c.f),
        b.0 < c.f.blocks,
        end <= c.f.insns[b.ix()].to.0,
        0 <= v < s.g.vregs.len(),
        s.g.vregs.len() == c.f.num_vregs,
    ensures
        pass_insts(c, s, b, end) matches Ok(t) ==> entry_kept(s, t, v, reg) && ((
        exists|i: int, k: int|
            c.f.insns[b.ix()].has(i) && i < end && 0 <= k < c.f.operands[i].len() && (
            #[trigger] c.f.operands[i][k]).kind is Def && c.f.operands[i][k].vreg.vreg == v)
            ==> t.g.vregs[v].reg == reg),
    decreases end - c.f.insns[b.ix()].from.0,
{
    if end > c.f.insns[b.ix()].from.0 {
        assert(block_ok(c.f, b.ix()));
        let inst = Inst((end - 1) as u32);
        let t = if c.f.clobbers[inst.ix()].len() > 0 {
            PassState { clobbers: s.clobbers.push(inst), ..s }
        } else {
            s
        };
        lemma_clobbers_vregs(c.f, t, inst, 0);
        if let Ok(u) = pass_clobbers(c.f, t, inst, 0) {
            lemma_operands_names(
                c,
                u,
                b,
                inst,
                reused_input(c.f.operands[inst.ix()], 0),
                0,
                v,
                reg,
            );
        }
        if let Ok(u) = pass_inst(c, s, b, inst) {
            lemma_insts_names(c, u, b, end - 1, v, reg);
            if exists|i: int, k: int|
                c.f.insns[b.ix()].has(i) && i < end && 0 <= k < c.f.operands[i].len() && (
                #[trigger] c.f.operands[i][k]).kind is Def && c.f.operands[i][k].vreg.vreg == v {
                let (i, k) = choose|i: int, k: int|
                    c.f.insns[b.ix()].has(i) && i < end && 0 <= k < c.f.operands[i].len() && (
                    #[trigger] c.f.operands[i][k]).kind is Def && c.f.operands[i][k].vreg.vreg == v;
                if i < end - 1 {
                    assert(c.f.operands[i][k].kind is Def);
                } else {
                    assert(c.f.operands[inst.ix()][k].kind is Def);
                }
            }
        }
    }
}

proof fn lemma_params_vregs(c: Ctx, s: PassState, b: Block, i: int)
    ensures
        pass_params(c, s, b, i) matches Ok(t) ==> t.g.vregs == s.g.vregs,
    decreases c.f.params[b.ix()].len() - i,
{
    let params = c.f.params[b.ix()];
    if 0 <= i < params.len() {
        let v = params[i].ix();
        let start = c.cfg.block_entry[b.ix()];
        let r: Result<PassState, RegAllocError> = if s.live.contains(v) {
            Ok(PassState { live: s.live.remove(v), ..s })
        } else {
            match pass_live(s, v, CodeRange { from: start, to: start.succ() }) {
                Ok((t, _)) => Ok(t),
                Err(e) => Err(e),
            }
        };
        lemma_live_vregs(s, v, CodeRange { from: start, to: start.succ() });
        if let Ok(t) = r {
            let preds = c.f.preds[b.ix()];
            let more = Seq::new(preds.len(), |k: int| (VRegIndex(params[i].vreg), b, preds[k]));
            lemma_params_vregs(c, PassState { ins: t.ins + more, ..t }, b, i + 1);
        }
    }
}

/// Does block `b` define register number `v`, or take it as a parameter?
pub open spec fn names_in(f: FuncModel, v: int, b: Block) -> bool {
    def_in(f, v, b) || takes_param(f, b, v as u32)
}

proof fn lemma_block_names(c: Ctx, s: PassState, at: int, v: int, reg: VReg)
    requires
        named_alike(c.f, v, reg),
        func_ok(c.f),
        0 <= at < c.cfg.postorder.len(),
        c.cfg.postorder[at].0 < c.f.blocks,
        0 <= v < s.g.vregs.len(),
        s.g.vregs.len() == c.f.num_vregs,
    ensures
        pass_block(c, s, at) matches Ok(t) ==> entry_kept(s, t, v, reg) && (names_in(
            c.f,
            v,
            c.cfg.postorder[at],
        ) ==> t.g.vregs[v].reg == reg),
{
    let b = c.cfg.postorder[at];
    let succs = c.f.succs[b.ix()];
    let s1 = PassState { live: live_out(s.liveins, succs, succs.len() as int), ..s };
    let range = CodeRange { from: c.cfg.block_entry[b.ix()], to: c.cfg.block_exit[b.ix()].succ() };
    lemma_live_all_vregs(s1, range, true, 0, c.f.num_vregs as int);
    if let Ok(s2) = pass_live_all(s1, range, true, 0, c.f.num_vregs as int) {
        lemma_param_data_names(c.f, s2, b, 0, v, reg);
        let s3 = pass_outs(c.f, pass_param_data(c.f, s2, b, 0), b);
        let to = c.f.insns[b.ix()].to.0 as int;
        lemma_insts_names(c, s3, b, to, v, reg);
        if let Ok(s4) = pass_insts(c, s3, b, to) {
            if names_in(c.f, v, b) {
                if def_in(c.f, v, b) {
                    let (i, k) = choose|i: int, k: int|
                        c.f.insns[b.ix()].has(i) && 0 <= k < c.f.operands[i].len() && (
                        #[trigger] c.f.operands[i][k]).kind is Def && c.f.operands[i][k].vreg.vreg
                            == v;
                    assert(i < to);
                    assert(c.f.operands[i][k].kind is Def);
                } else {
                    let k = choose|k: int|
                        0 <= k < c.f.params[b.ix()].len() && (
                        #[trigger] c.f.params[b.ix()][k]).vreg == v as u32;
                    assert(c.f.params[b.ix()][k].vreg == v);
                }
                assert(s4.g.vregs[v].reg == reg);
            }
            lemma_params_vregs(c, s4, b, 0);
            if let Ok(s5) = pass_params(c, s4, b, 0) {
                let min = loop_start(c, at, at);
                let t = PassState {
                    liveins: loop_liveins(c.cfg.postorder, s5.liveins, s5.live, min, at + 1),
                    ..s5
                };
                lemma_live_all_vregs(
                    t,
                    CodeRange {
                        from: blocks_begin(c.cfg, min, at),
                        to: blocks_end(c.cfg, min, at).succ(),
                    },
                    false,
                    0,
                    c.f.num_vregs as int,
                );
                if let Ok(s6) = pass_loop(c, s5, at) {
                    assert(s6.g.vregs == s4.g.vregs);
                }
            }
        }
    }
}

proof fn lemma_blocks_names(c: Ctx, s: PassState, at: int, v: int, reg: VReg, n: int)
    requires
        named_alike(c.f, v, reg),
        func_ok(c.f),
        0 <= at <= c.cfg.postorder.len(),
        forall|j: int| 0 <= j < c.cfg.postorder.len() ==> (#[trigger] c.cfg.postorder[j]).0 < c.f.blocks,
        0 <= v < s.g.vregs.len(),
        s.g.vregs.len() == c.f.num_vregs,
        0 <= n < c.cfg.postorder.len(),
        names_in(c.f, v, c.cfg.postorder[n]),
        n < at ==> s.g.vregs[v].reg == reg,
    ensures
        pass_blocks(c, s, at) matches Ok(t) ==> t.g.vregs.len() == s.g.vregs.len()
            && t.g.vregs[v].reg == reg,
    decreases c.cfg.postorder.len() - at,
{
    if at < c.cfg.postorder.len() {
        lemma_block_names(c, s, at, v, reg);
        if let Ok(t) = pass_block(c, s, at) {
            lemma_blocks_names(c, t, at + 1, v, reg, n);
        }
    }
}

proof fn lemma_extra_vregs(s: PassState, pregs: Seq<u32>, insts: Seq<u32>, i: int)
    ensures
        pass_extra(s, pregs, insts, i) matches Ok(t) ==> t.g.vregs == s.g.vregs,
    decreases pregs.len() - i,
{
    if 0 <= i < pregs.len() {
        if let Ok(t) = pass_take_preg(s, inst_range(Inst(insts[i])), pregs[i] as int) {
            lemma_extra_vregs(t, pregs, insts, i + 1);
        }
    }
}

proof fn lemma_fix_range_vregs(s: PassState, v: int, r: u32)
    ensures
        pass_fix_range(s, v, r) matches Ok(t) ==> t.g.vregs == s.g.vregs,
{
    let (st, defs) = fix_def(fix_start(s.fixups), s.g, v, r);
    let (t, uses) = fix_uses(st, s.g.uses, s.g.in_range[r as int], 0);
    let u = PassState { g: GraphState { uses, defs, ..s.g }, fixups: t.fixups, ..s };
    lemma_extra_vregs(u, t.extra_pregs, t.extra_insts, 0);
}

proof fn lemma_fix_list_vregs(s: PassState, v: int, list: Seq<u32>, i: int)
    ensures
        pass_fix_list(s, v, list, i) matches Ok(t) ==> t.g.vregs == s.g.vregs,
    decreases list.len() - i,
{
    if 0 <= i < list.len() {
        lemma_fix_range_vregs(s, v, list[i]);
        if let Ok(t) = pass_fix_range(s, v, list[i]) {
            lemma_fix_list_vregs(t, v, list, i + 1);
        }
    }
}

proof fn lemma_fix_all_vregs(s: PassState, v: int, n: int)
    ensures
        pass_fix_all(s, v, n) matches Ok(t) ==> t.g.vregs == s.g.vregs,
    decreases n - v,
{
    if v < n {
        lemma_fix_list_vregs(s, v, s.g.in_vreg[v], 0);
        if let Ok(t) = pass_fix_list(s, v, s.g.in_vreg[v], 0) {
            lemma_fix_all_vregs(t, v + 1, n);
        }
    }
}

/// The entry of a register that is named in one way stands for it, where a block that can be reached
/// names it.
pub proof fn law_entry_names(c: Ctx, b: Block, v: int, reg: VReg)
    requires
        ctx_ok(c),
        named_alike(c.f, v, reg),
        0 <= v < c.f.num_vregs,
        b.0 < c.f.blocks,
        reachable(c.f, b),
        names_in(c.f, v, b),
    ensures
        pass_all(c, pass_start(c)) matches Ok(u) ==> u.g.vregs.len() == c.f.num_vregs
            && u.g.vregs[v].reg == reg,
{
    let s = pass_start(c);
    assert(c.cfg.postorder.contains(b));
    let n = choose|n: int| 0 <= n < c.cfg.postorder.len() && c.cfg.postorder[n] == b;
    lemma_blocks_names(c, s, 0, v, reg, n);
    if let Ok(t) = pass_blocks(c, s, 0) {
        lemma_fix_all_vregs(t, 0, c.f.num_vregs as int);
    }
}

} // verus!
