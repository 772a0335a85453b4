//! What branches hand to the parameters of blocks is noted.
use crate::code_range::CodeRange;
use crate::data::VRegData;
use crate::fixup::{
    fix_def, fix_start, fix_uses, pass_extra, pass_fix_all, pass_fix_list, pass_fix_range,
};
use crate::func::FuncModel;
use crate::graph::{graph_set_vreg, GraphState};
use crate::index::{Block, Inst, LiveRangeIndex, VRegIndex};
use crate::liveness::{
    block_outs, blocks_begin, blocks_end, branch_arg, inst_range, is_arg, live_out, loop_liveins,
    loop_start, pass_block, pass_blocks, pass_clobbers, pass_def, pass_inst, pass_insts, pass_live,
    pass_live_all, pass_loop, pass_operands, pass_outs, pass_param_data, pass_params,
    pass_take_preg, pass_use, reused_input, BlockparamOut, Ctx, PassState,
};
use crate::reg::{OperandKind, RegAllocError};
use crate::setup::pass_all;
use crate::sort::lemma_sorted_has;
use vstd::prelude::*;

verus! {

/// What is handed over between blocks, and the parameters of blocks, are noted alike, and no copies
/// to given registers are noted.
pub open spec fn same_notes(s: PassState, t: PassState) -> bool {
    t.outs == s.outs && t.ins == s.ins && t.fixups == s.fixups
}

proof fn lemma_live_all_notes(s: PassState, range: CodeRange, note: bool, v: int, n: int)
    ensures
        pass_live_all(s, range, note, v, n) matches Ok(t) ==> same_notes(s, t),
    decreases n - v,
{
    if v < n {
        if s.live.contains(v) {
            if let Ok((t, lr)) = pass_live(s, v, range) {
                let u = if note {
                    PassState {
                        vreg_ranges: t.vreg_ranges.update(v, LiveRangeIndex(lr)),
                        ..t
                    }
                } else {
                    t
                };
                lemma_live_all_notes(u, range, note, v + 1, n);
            }
        } else {
            lemma_live_all_notes(s, range, note, v + 1, n);
        }
    }
}

proof fn lemma_param_data_notes(f: FuncModel, s: PassState, b: Block, i: int)
    ensures
        same_notes(s, pass_param_data(f, s, b, i)),
    decreases f.params[b.ix()].len() - i,
{
    reveal_with_fuel(pass_param_data, 2);
    if 0 <= i < f.params[b.ix()].len() {
        let p = f.params[b.ix()][i];
        let t = PassState {
            g: graph_set_vreg(
                s.g,
                p.ix(),
                VRegData { reg: p, blockparam: b, ..s.g.vregs[p.ix()] },
            ),
            ..s
        };
        lemma_param_data_notes(f, t, b, i + 1);
    }
}

proof fn lemma_clobbers_notes(f: FuncModel, s: PassState, inst: Inst, i: int)
    ensures
        pass_clobbers(f, s, inst, i) matches Ok(t) ==> same_notes(s, t),
    decreases f.clobbers[inst.ix()].len() - i,
{
    if 0 <= i < f.clobbers[inst.ix()].len() {
        if let Ok(t) = pass_take_preg(
            s,
            inst_range(inst),
            f.clobbers[inst.ix()][i].ix(),
        ) {
            lemma_clobbers_notes(f, t, inst, i + 1);
        }
    }
}

proof fn lemma_operands_notes(
    c: Ctx,
    s: PassState,
    b: Block,
    inst: Inst,
    reused: Option<usize>,
    i: int,
)
    ensures
        pass_operands(c, s, b, inst, reused, i) matches Ok(t) ==> same_notes(s, t),
    decreases c.f.operands[inst.ix()].len() - i,
{
    let ops = c.f.operands[inst.ix()];
    if 0 <= i < ops.len() {
        let r = match ops[i].kind {
            OperandKind::Def => pass_def(c, s, b, inst, i),
            OperandKind::Use => pass_use(c, s, b, inst, reused, i),
        };
        if let Ok(t) = r {
            lemma_operands_notes(c, t, b, inst, reused, i + 1);
        }
    }
}

proof fn lemma_insts_notes(c: Ctx, s: PassState, b: Block, end: int)
    ensures
        pass_insts(c, s, b, end) matches Ok(t) ==> same_notes(s, t),
    decreases end - c.f.insns[b.ix()].from.0,
{
    if end > c.f.insns[b.ix()].from.0 {
        let inst = Inst((end - 1) as u32);
        let t = if c.f.clobbers[inst.ix()].len() > 0 {
            PassState { clobbers: s.clobbers.push(inst), ..s }
        } else {
            s
        };
        lemma_clobbers_notes(c.f, t, inst, 0);
        if let Ok(u) = pass_clobbers(c.f, t, inst, 0) {
            lemma_operands_notes(c, u, b, inst, reused_input(c.f.operands[inst.ix()], 0), 0);
        }
        if let Ok(u) = pass_inst(c, s, b, inst) {
            lemma_insts_notes(c, u, b, end - 1);
        }
    }
}

/// Nothing that is noted is lost.
pub open spec fn notes_stay(s: PassState, t: PassState) -> bool {
    &&& forall|i: int| 0 <= i < s.outs.len() ==> t.outs.contains(#[trigger] s.outs[i])
    &&& forall|i: int| 0 <= i < s.ins.len() ==> t.ins.contains(#[trigger] s.ins[i])
}

/// The parameters of block `b` from position `i` on are noted with each block before it.
pub open spec fn params_noted(c: Ctx, s: PassState, b: Block, i: int) -> bool {
    forall|j: int, q: int|
        #![trigger c.f.params[b.ix()][j], c.f.preds[b.ix()][q]]
        i <= j < c.f.params[b.ix()].len() && 0 <= q < c.f.preds[b.ix()].len() ==> s.ins.contains(
            (VRegIndex(c.f.params[b.ix()][j].vreg), b, c.f.preds[b.ix()][q]),
        )
}

/// What the branch at the end of block `b` hands to the parameters of its successors is noted.
pub open spec fn args_noted(f: FuncModel, outs: Seq<BlockparamOut>, b: Block) -> bool {
    forall|to: Block, param: u32, k: int, j: int|
        f.branches[f.insns[b.ix()].to.0 - 1] && #[trigger] is_arg(f, b, to, param, k, j)
            ==> outs.contains(
            (VRegIndex(branch_arg(f, b, k, j).vreg.vreg), b, to, VRegIndex(param)),
        )
}

proof fn lemma_params_notes(c: Ctx, s: PassState, b: Block, i: int)
    requires
        0 <= i,
    ensures
        pass_params(c, s, b, i) matches Ok(t) ==> notes_stay(s, t) && t.outs == s.outs && t.fixups
            == s.fixups && params_noted(c, t, b, i),
    decreases c.f.params[b.ix()].len() - i,
{
    let params = c.f.params[b.ix()];
    if i < params.len() {
        let v = params[i].ix();
        let start = c.cfg.block_entry[b.ix()];
        let r: Result<PassState, RegAllocError> = if s.live.contains(v) {
            Ok(PassState { live: s.live.remove(v), ..s })
        } else {
            match pass_live(s, v, CodeRange { from: start, to: start.succ() }) {
                Ok((t, _)) => Ok(t),
                Err(e) => Err(e),
            }
        };
        if let Ok(t) = r {
            let preds = c.f.preds[b.ix()];
            let more = Seq::new(preds.len(), |k: int| (VRegIndex(params[i].vreg), b, preds[k]));
            let u = PassState { ins: t.ins + more, ..t };
            lemma_params_notes(c, u, b, i + 1);
            if let Ok(w) = pass_params(c, u, b, i + 1) {
                assert(pass_params(c, s, b, i) == Ok::<PassState, RegAllocError>(w));
                assert forall|x: int| 0 <= x < s.ins.len() implies w.ins.contains(
                    #[trigger] s.ins[x],
                ) by {
                    assert(u.ins[x] == s.ins[x]);
                }
                assert forall|j: int, q: int|
                    #![trigger c.f.params[b.ix()][j], c.f.preds[b.ix()][q]]
                    i <= j < c.f.params[b.ix()].len() && 0 <= q
                        < c.f.preds[b.ix()].len() implies w.ins.contains(
                    (VRegIndex(c.f.params[b.ix()][j].vreg), b, c.f.preds[b.ix()][q]),
                ) by {
                    if j == i {
                        assert(u.ins[s.ins.len() + q] == more[q]);
                    }
                }
            }
        }
    }
}

/// What a branch hands over is among the values that its block hands on.
proof fn lemma_block_outs(f: FuncModel, b: Block, n: int, k: int, j: int)
    requires
        0 <= k < n <= f.succs[b.ix()].len(),
        0 <= j < f.params[f.succs[b.ix()][k].ix()].len(),
    ensures
        block_outs(f, b, n).contains(
            (
                VRegIndex(branch_arg(f, b, k, j).vreg.vreg),
                b,
                f.succs[b.ix()][k],
                VRegIndex(f.params[f.succs[b.ix()][k].ix()][j].vreg),
            ),
        ),
    decreases n,
{
    let rest = block_outs(f, b, n - 1);
    let all = block_outs(f, b, n);
    let o = (
        VRegIndex(branch_arg(f, b, k, j).vreg.vreg),
        b,
        f.succs[b.ix()][k],
        VRegIndex(f.params[f.succs[b.ix()][k].ix()][j].vreg),
    );
    if k < n - 1 {
        lemma_block_outs(f, b, n - 1, k, j);
        let i = choose|i: int| 0 <= i < rest.len() && rest[i] == o;
        assert(all[i] == o);
    } else {
        assert(all[rest.len() + j] == o);
    }
}

/// What is handed over in the blocks before position `at` of the order is noted.
pub open spec fn handed(c: Ctx, s: PassState, at: int) -> bool {
    forall|n: int|
        0 <= n < at ==> {
            &&& args_noted(c.f, s.outs, #[trigger] c.cfg.postorder[n])
            &&& params_noted(c, s, c.cfg.postorder[n], 0)
        }
}

proof fn lemma_handed_stay(c: Ctx, s: PassState, t: PassState, at: int)
    requires
        handed(c, s, at),
        notes_stay(s, t),
    ensures
        handed(c, t, at),
{
    assert forall|n: int| 0 <= n < at implies {
        &&& args_noted(c.f, t.outs, #[trigger] c.cfg.postorder[n])
        &&& params_noted(c, t, c.cfg.postorder[n], 0)
    } by {
        let b = c.cfg.postorder[n];
        assert(args_noted(c.f, s.outs, b));
        assert(params_noted(c, s, b, 0));
    }
}

proof fn lemma_block_notes(c: Ctx, s: PassState, at: int)
    requires
        handed(c, s, at),
        0 <= at < c.cfg.postorder.len(),
    ensures
        pass_block(c, s, at) matches Ok(t) ==> handed(c, t, at + 1) && t.fixups == s.fixups,
{
    let b = c.cfg.postorder[at];
    let succs = c.f.succs[b.ix()];
    let s1 = PassState {
        live: live_out(s.liveins, succs, succs.len() as int),
        ..s
    };
    let range = CodeRange { from: c.cfg.block_entry[b.ix()], to: c.cfg.block_exit[b.ix()].succ() };
    lemma_live_all_notes(s1, range, true, 0, c.f.num_vregs as int);
    if let Ok(s2) = pass_live_all(s1, range, true, 0, c.f.num_vregs as int) {
        lemma_param_data_notes(c.f, s2, b, 0);
        let s3 = pass_outs(c.f, pass_param_data(c.f, s2, b, 0), b);
        assert forall|i: int| 0 <= i < s.outs.len() implies s3.outs.contains(#[trigger] s.outs[i]) by {
            assert(s3.outs[i] == s.outs[i]);
        }
        lemma_handed_stay(c, s, s3, at);
        assert(args_noted(c.f, s3.outs, b)) by {
            assert forall|to: Block, param: u32, k: int, j: int|
                c.f.branches[c.f.insns[b.ix()].to.0 - 1] && #[trigger] is_arg(
                    c.f,
                    b,
                    to,
                    param,
                    k,
                    j,
                ) implies s3.outs.contains(
                (VRegIndex(branch_arg(c.f, b, k, j).vreg.vreg), b, to, VRegIndex(param)),
            ) by {
                let more = block_outs(c.f, b, succs.len() as int);
                let o = (VRegIndex(branch_arg(c.f, b, k, j).vreg.vreg), b, to, VRegIndex(param));
                lemma_block_outs(c.f, b, succs.len() as int, k, j);
                let i = choose|i: int| 0 <= i < more.len() && more[i] == o;
                assert(s3.outs[s.outs.len() + i] == o);
            }
        }
        lemma_insts_notes(c, s3, b, c.f.insns[b.ix()].to.0 as int);
        if let Ok(s4) = pass_insts(c, s3, b, c.f.insns[b.ix()].to.0 as int) {
            lemma_handed_stay(c, s3, s4, at);
            lemma_params_notes(c, s4, b, 0);
            if let Ok(s5) = pass_params(c, s4, b, 0) {
                lemma_handed_stay(c, s4, s5, at);
                let min = loop_start(c, at, at);
                let t = PassState {
                    liveins: loop_liveins(
                        c.cfg.postorder,
                        s5.liveins,
                        s5.live,
                        min,
                        at + 1,
                    ),
                    ..s5
                };
                lemma_live_all_notes(
                    t,
                    CodeRange {
                        from: blocks_begin(c.cfg, min, at),
                        to: blocks_end(c.cfg, min, at).succ(),
                    },
                    false,
                    0,
                    c.f.num_vregs as int,
                );
                if let Ok(s6) = pass_loop(c, s5, at) {
                    assert(same_notes(s5, s6));
                    lemma_handed_stay(c, s5, s6, at);
                }
            }
        }
    }
}

/// The scan over the blocks notes what they hand over, and no copies to given registers.
pub proof fn lemma_blocks_notes(c: Ctx, s: PassState, at: int)
    requires
        handed(c, s, at),
        0 <= at <= c.cfg.postorder.len(),
    ensures
        pass_blocks(c, s, at) matches Ok(t) ==> handed(c, t, c.cfg.postorder.len() as int)
            && t.fixups == s.fixups,
    decreases c.cfg.postorder.len() - at,
{
    if at < c.cfg.postorder.len() {
        lemma_block_notes(c, s, at);
        if let Ok(t) = pass_block(c, s, at) {
            lemma_blocks_notes(c, t, at + 1);
        }
    }
}

proof fn lemma_extra_notes(s: PassState, pregs: Seq<u32>, insts: Seq<u32>, i: int)
    ensures
        pass_extra(s, pregs, insts, i) matches Ok(t) ==> same_notes(s, t),
    decreases pregs.len() - i,
{
    if 0 <= i < pregs.len() {
        if let Ok(t) = pass_take_preg(
            s,
            inst_range(Inst(insts[i])),
            pregs[i] as int,
        ) {
            lemma_extra_notes(t, pregs, insts, i + 1);
        }
    }
}

proof fn lemma_fix_range_notes(s: PassState, v: int, r: u32)
    ensures
        pass_fix_range(s, v, r) matches Ok(t) ==> t.outs == s.outs && t.ins == s.ins,
{
    let (st, defs) = fix_def(fix_start(s.fixups), s.g, v, r);
    let (t, uses) = fix_uses(st, s.g.uses, s.g.in_range[r as int], 0);
    let u = PassState {
        g: GraphState { uses, defs, ..s.g },
        fixups: t.fixups,
        ..s
    };
    lemma_extra_notes(u, t.extra_pregs, t.extra_insts, 0);
}

proof fn lemma_fix_list_notes(s: PassState, v: int, list: Seq<u32>, i: int)
    ensures
        pass_fix_list(s, v, list, i) matches Ok(t) ==> t.outs == s.outs && t.ins == s.ins,
    decreases list.len() - i,
{
    if 0 <= i < list.len() {
        lemma_fix_range_notes(s, v, list[i]);
        if let Ok(t) = pass_fix_range(s, v, list[i]) {
            lemma_fix_list_notes(t, v, list, i + 1);
        }
    }
}

proof fn lemma_fix_all_notes(s: PassState, v: int, n: int)
    ensures
        pass_fix_all(s, v, n) matches Ok(t) ==> t.outs == s.outs && t.ins == s.ins,
    decreases n - v,
{
    if v < n {
        lemma_fix_list_notes(s, v, s.g.in_vreg[v], 0);
        if let Ok(t) = pass_fix_list(s, v, s.g.in_vreg[v], 0) {
            lemma_fix_all_notes(t, v + 1, n);
        }
    }
}

/// The scan over the blocks notes what every branch that can be reached hands to each parameter,
/// and every parameter of a block that can be reached with each block before it.
pub proof fn law_all_handed(c: Ctx, s: PassState)
    ensures
        pass_all(c, s) matches Ok(t) ==> handed(c, t, c.cfg.postorder.len() as int),
{
    lemma_blocks_notes(c, s, 0);
    if let Ok(t) = pass_blocks(c, s, 0) {
        lemma_fix_all_notes(t, 0, c.f.num_vregs as int);
        if let Ok(u) = pass_fix_all(t, 0, c.f.num_vregs as int) {
            let w = pass_all(c, s)->Ok_0;
            assert forall|i: int| 0 <= i < t.outs.len() implies w.outs.contains(#[trigger] t.outs[i]) by {
                lemma_sorted_has(u.outs, i);
            }
            assert forall|i: int| 0 <= i < t.ins.len() implies w.ins.contains(#[trigger] t.ins[i]) by {
                lemma_sorted_has(u.ins, i);
            }
            lemma_handed_stay(c, t, w, c.cfg.postorder.len() as int);
        }
    }
}

} // verus!
