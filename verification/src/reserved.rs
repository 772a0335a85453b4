//! The places that the scan over the blocks keeps free in physical registers: over instructions that
//! overwrite them, and over those that copies to them are for.
use crate::code_range::{
    entries_insert, find_overlap, lemma_first_overlap, CodeRange, LiveRangeKey, RangeEntry,
};
use crate::data::{Use, VRegData};
use crate::fixup::{
    fix_def, fix_mention, fix_start, fix_uses, pass_extra, pass_fix_all, pass_fix_list,
    pass_fix_range, FixState,
};
use crate::func::{inst_regs_ok, FuncModel};
use crate::graph::{graph_set_vreg, GraphState};
use crate::handed::lemma_blocks_notes;
use crate::index::{Block, Inst, LiveRangeIndex, VRegIndex};
use crate::liveness::{
    blocks_begin, blocks_end, ctx_ok, fixup_ok, inst_range, live_out, loop_liveins, loop_start,
    pass_block, pass_blocks, pass_clobbers, pass_def, pass_inst, pass_insts, pass_live,
    pass_live_all, pass_loop, pass_operands, pass_outs, pass_param_data, pass_params,
    pass_take_preg, pass_use, reused_input, Ctx, Fixup, PassState,
};
use crate::reg::{Operand, OperandKind, ProgPoint, RegAllocError, MAX_INSTS};
use crate::setup::{pass_all, pass_start};
use vstd::prelude::*;

verus! {

/// Is register number `p` kept free over the instruction?
pub open spec fn is_reserved(pregs: Seq<Seq<RangeEntry>>, p: int, inst: Inst) -> bool {
    exists|k: int|
        0 <= k < pregs[p].len() && (#[trigger] pregs[p][k]).0.from == 2 * inst.0
            && pregs[p][k].0.to == 2 * inst.0 + 2
}

/// Registers are kept free over whole instructions.
pub open spec fn whole(pregs: Seq<Seq<RangeEntry>>) -> bool {
    forall|p: int, k: int|
        0 <= p < pregs.len() && 0 <= k < pregs[p].len() ==> (#[trigger] pregs[p][k]).0.from % 2 == 0
            && pregs[p][k].0.to == pregs[p][k].0.from + 2
}

/// What is kept free stays so.
pub open spec fn reserved_stay(a: Seq<Seq<RangeEntry>>, b: Seq<Seq<RangeEntry>>) -> bool {
    &&& b.len() == a.len()
    &&& forall|p: int, inst: Inst|
        0 <= p < a.len() && is_reserved(a, p, inst) ==> #[trigger] is_reserved(b, p, inst)
}

/// A register is taken over an instruction.
proof fn lemma_take_reserved(s: PassState, inst: Inst, p: int)
    requires
        whole(s.pregs),
        inst.0 < MAX_INSTS,
        0 <= p < s.pregs.len(),
    ensures
        pass_take_preg(s, inst_range(inst), p) matches Ok(t) ==> {
            &&& whole(t.pregs)
            &&& reserved_stay(s.pregs, t.pregs)
            &&& is_reserved(t.pregs, p, inst)
        },
{
    if let Ok(t) = pass_take_preg(s, inst_range(inst), p) {
        let key = LiveRangeKey::of(inst_range(inst));
        let entries = s.pregs[p];
        let more = t.pregs[p];
        let lr = LiveRangeIndex(s.g.ranges.len() as u32);
        assert(more == entries_insert(entries, key, lr));
        assert(key.from == 2 * inst.0 && key.to == 2 * inst.0 + 2);
        let i = find_overlap(entries, key);
        lemma_first_overlap(entries, key, 0);
        crate::code_range::lemma_first_not_before(entries, key, 0);
        let j = crate::code_range::first_not_before(entries, key, 0);
        if i < entries.len() {
            assert(key.meets(entries[i].0));
            assert(s.pregs[p][i].0.from % 2 == 0);
            assert(entries[i].0.from == key.from);
            assert(more[i].0 == entries[i].0);
        } else {
            assert(more[j].0 == key);
        }
        assert forall|q: int, k: int| 0 <= q < t.pregs.len() && 0 <= k < t.pregs[q].len() implies (
        #[trigger] t.pregs[q][k]).0.from % 2 == 0 && t.pregs[q][k].0.to == t.pregs[q][k].0.from + 2 by {
            if q != p {
                assert(t.pregs[q][k] == s.pregs[q][k]);
            } else if i < entries.len() {
                assert(more[k].0 == s.pregs[p][k].0);
            } else if k < j {
                assert(more[k] == s.pregs[p][k]);
            } else if k > j {
                assert(more[k] == s.pregs[p][k - 1]);
            }
        }
        assert forall|q: int, other: Inst| 0 <= q < s.pregs.len() && is_reserved(
            s.pregs,
            q,
            other,
        ) implies #[trigger] is_reserved(t.pregs, q, other) by {
            let k = choose|k: int|
                0 <= k < s.pregs[q].len() && (#[trigger] s.pregs[q][k]).0.from == 2 * other.0
                    && s.pregs[q][k].0.to == 2 * other.0 + 2;
            if q != p || i < entries.len() || k < j {
                assert(t.pregs[q][k].0 == s.pregs[q][k].0);
            } else {
                assert(t.pregs[q][k + 1] == s.pregs[q][k]);
            }
        }
    }
}

proof fn lemma_live_all_pregs(s: PassState, range: CodeRange, note: bool, v: int, n: int)
    ensures
        pass_live_all(s, range, note, v, n) matches Ok(t) ==> t.pregs == s.pregs,
    decreases n - v,
{
    if v < n {
        if s.live.contains(v) {
            if let Ok((t, lr)) = pass_live(s, v, range) {
                let u = if note {
                    PassState { vreg_ranges: t.vreg_ranges.update(v, LiveRangeIndex(lr)), ..t }
                } else {
                    t
                };
                lemma_live_all_pregs(u, range, note, v + 1, n);
            }
        } else {
            lemma_live_all_pregs(s, range, note, v + 1, n);
        }
    }
}

proof fn lemma_param_data_pregs(f: FuncModel, s: PassState, b: Block, i: int)
    ensures
        pass_param_data(f, s, b, i).pregs == s.pregs,
    decreases f.params[b.ix()].len() - i,
{
    if 0 <= i < f.params[b.ix()].len() {
        let p = f.params[b.ix()][i];
        let t = PassState {
            g: graph_set_vreg(
                s.g,
                p.ix(),
                VRegData { reg: p, blockparam: b, ..s.g.vregs[p.ix()] },
            ),
            ..s
        };
        lemma_param_data_pregs(f, t, b, i + 1);
    }
}

proof fn lemma_operands_pregs(
    c: Ctx,
    s: PassState,
    b: Block,
    inst: Inst,
    reused: Option<usize>,
    i: int,
)
    ensures
        pass_operands(c, s, b, inst, reused, i) matches Ok(t) ==> t.pregs == s.pregs,
    decreases c.f.operands[inst.ix()].len() - i,
{
    let ops = c.f.operands[inst.ix()];
    if 0 <= i < ops.len() {
        let r = match ops[i].kind {
            OperandKind::Def => pass_def(c, s, b, inst, i),
            OperandKind::Use => pass_use(c, s, b, inst, reused, i),
        };
        if let Ok(t) = r {
            lemma_operands_pregs(c, t, b, inst, reused, i + 1);
        }
    }
}

proof fn lemma_params_pregs(c: Ctx, s: PassState, b: Block, i: int)
    ensures
        pass_params(c, s, b, i) matches Ok(t) ==> t.pregs == s.pregs,
    decreases c.f.params[b.ix()].len() - i,
{
    let params = c.f.params[b.ix()];
    if 0 <= i < params.len() {
        let v = params[i].ix();
        let start = c.cfg.block_entry[b.ix()];
        let r: Result<PassState, RegAllocError> = if s.live.contains(v) {
            Ok(PassState { live: s.live.remove(v), ..s })
        } else {
            match pass_live(s, v, CodeRange { from: start, to: start.succ() }) {
                Ok((t, _)) => Ok(t),
                Err(e) => Err(e),
            }
        };
        if let Ok(t) = r {
            let preds = c.f.preds[b.ix()];
            let more = Seq::new(preds.len(), |k: int| (VRegIndex(params[i].vreg), b, preds[k]));
            lemma_params_pregs(c, PassState { ins: t.ins + more, ..t }, b, i + 1);
        }
    }
}

/// The registers that the instruction overwrites, from position `i` on, are kept free over it.
pub open spec fn clobbers_reserved(
    f: FuncModel,
    pregs: Seq<Seq<RangeEntry>>,
    inst: Inst,
    i: int,
) -> bool {
    forall|j: int|
        i <= j < f.clobbers[inst.ix()].len() ==> is_reserved(
            pregs,
            (#[trigger] f.clobbers[inst.ix()][j]).ix(),
            inst,
        )
}

proof fn lemma_clobbers(c: Ctx, s: PassState, inst: Inst, i: int)
    requires
        ctx_ok(c),
        whole(s.pregs),
        s.pregs.len() == c.m.regs.len(),
        inst.0 < c.f.insts,
        0 <= i,
    ensures
        pass_clobbers(c.f, s, inst, i) matches Ok(t) ==> {
            &&& whole(t.pregs)
            &&& reserved_stay(s.pregs, t.pregs)
            &&& clobbers_reserved(c.f, t.pregs, inst, i)
        },
    decreases c.f.clobbers[inst.ix()].len() - i,
{
    if i < c.f.clobbers[inst.ix()].len() {
        assert(inst_regs_ok(c.f, c.m, inst.ix()));
        let p = c.f.clobbers[inst.ix()][i].ix();
        lemma_take_reserved(s, inst, p);
        if let Ok(t) = pass_take_preg(s, inst_range(inst), p) {
            lemma_clobbers(c, t, inst, i + 1);
            if let Ok(u) = pass_clobbers(c.f, t, inst, i + 1) {
                assert(is_reserved(u.pregs, p, inst));
            }
        }
    }
}

/// Everything that the instructions of block `b` from number `end` on overwrite is kept free.
pub open spec fn block_reserved(f: FuncModel, pregs: Seq<Seq<RangeEntry>>, b: Block, end: int) -> bool {
    forall|i: int|
        f.insns[b.ix()].has(i) && i >= end ==> #[trigger] clobbers_reserved(
            f,
            pregs,
            Inst(i as u32),
            0,
        )
}

proof fn lemma_clobbers_stay(
    c: Ctx,
    a: Seq<Seq<RangeEntry>>,
    b: Seq<Seq<RangeEntry>>,
    inst: Inst,
)
    requires
        ctx_ok(c),
        a.len() == c.m.regs.len(),
        inst.0 < c.f.insts,
        clobbers_reserved(c.f, a, inst, 0),
        reserved_stay(a, b),
    ensures
        clobbers_reserved(c.f, b, inst, 0),
{
    assert(inst_regs_ok(c.f, c.m, inst.ix()));
    assert forall|j: int| 0 <= j < c.f.clobbers[inst.ix()].len() implies is_reserved(
        b,
        (#[trigger] c.f.clobbers[inst.ix()][j]).ix(),
        inst,
    ) by {
        assert(is_reserved(a, c.f.clobbers[inst.ix()][j].ix(), inst));
    }
}

proof fn lemma_insts(c: Ctx, s: PassState, b: Block, end: int)
    requires
        ctx_ok(c),
        whole(s.pregs),
        s.pregs.len() == c.m.regs.len(),
        b.0 < c.f.blocks,
        end <= c.f.insns[b.ix()].to.0,
        block_reserved(c.f, s.pregs, b, end),
    ensures
        pass_insts(c, s, b, end) matches Ok(t) ==> {
            &&& whole(t.pregs)
            &&& reserved_stay(s.pregs, t.pregs)
            &&& block_reserved(c.f, t.pregs, b, 0)
        },
    decreases end - c.f.insns[b.ix()].from.0,
{
    assert(crate::func::block_ok(c.f, b.ix()));
    if end > c.f.insns[b.ix()].from.0 {
        let inst = Inst((end - 1) as u32);
        let t = if c.f.clobbers[inst.ix()].len() > 0 {
            PassState { clobbers: s.clobbers.push(inst), ..s }
        } else {
            s
        };
        lemma_clobbers(c, t, inst, 0);
        if let Ok(u) = pass_clobbers(c.f, t, inst, 0) {
            lemma_operands_pregs(c, u, b, inst, reused_input(c.f.operands[inst.ix()], 0), 0);
        }
        if let Ok(u) = pass_inst(c, s, b, inst) {
            assert(block_reserved(c.f, u.pregs, b, end - 1)) by {
                assert forall|i: int|
                    c.f.insns[b.ix()].has(i) && i >= end - 1 implies #[trigger] clobbers_reserved(
                    c.f,
                    u.pregs,
                    Inst(i as u32),
                    0,
                ) by {
                    if i >= end {
                        lemma_clobbers_stay(c, s.pregs, u.pregs, Inst(i as u32));
                    }
                }
            }
            lemma_insts(c, u, b, end - 1);
        }
    }
}

/// Everything that the blocks before position `at` of the order overwrite is kept free.
pub open spec fn blocks_reserved(c: Ctx, pregs: Seq<Seq<RangeEntry>>, at: int) -> bool {
    forall|n: int|
        0 <= n < at ==> block_reserved(c.f, pregs, #[trigger] c.cfg.postorder[n], 0)
}

proof fn lemma_blocks_stay(c: Ctx, a: Seq<Seq<RangeEntry>>, b: Seq<Seq<RangeEntry>>, at: int)
    requires
        ctx_ok(c),
        a.len() == c.m.regs.len(),
        0 <= at <= c.cfg.postorder.len(),
        blocks_reserved(c, a, at),
        reserved_stay(a, b),
    ensures
        blocks_reserved(c, b, at),
{
    assert forall|n: int| 0 <= n < at implies block_reserved(
        c.f,
        b,
        #[trigger] c.cfg.postorder[n],
        0,
    ) by {
        let block = c.cfg.postorder[n];
        assert(block.0 < c.f.blocks);
        assert(crate::func::block_ok(c.f, block.ix()));
        assert(block_reserved(c.f, a, block, 0));
        assert forall|i: int| c.f.insns[block.ix()].has(i) && i >= 0 implies #[trigger] clobbers_reserved(
            c.f,
            b,
            Inst(i as u32),
            0,
        ) by {
            lemma_clobbers_stay(c, a, b, Inst(i as u32));
        }
    }
}

proof fn lemma_block(c: Ctx, s: PassState, at: int)
    requires
        ctx_ok(c),
        whole(s.pregs),
        s.pregs.len() == c.m.regs.len(),
        0 <= at < c.cfg.postorder.len(),
        blocks_reserved(c, s.pregs, at),
    ensures
        pass_block(c, s, at) matches Ok(t) ==> {
            &&& whole(t.pregs)
            &&& t.pregs.len() == s.pregs.len()
            &&& blocks_reserved(c, t.pregs, at + 1)
        },
{
    let b = c.cfg.postorder[at];
    assert(b.0 < c.f.blocks);
    assert(crate::func::block_ok(c.f, b.ix()));
    let succs = c.f.succs[b.ix()];
    let s1 = PassState { live: live_out(s.liveins, succs, succs.len() as int), ..s };
    let range = CodeRange { from: c.cfg.block_entry[b.ix()], to: c.cfg.block_exit[b.ix()].succ() };
    lemma_live_all_pregs(s1, range, true, 0, c.f.num_vregs as int);
    if let Ok(s2) = pass_live_all(s1, range, true, 0, c.f.num_vregs as int) {
        lemma_param_data_pregs(c.f, s2, b, 0);
        let s3 = pass_outs(c.f, pass_param_data(c.f, s2, b, 0), b);
        lemma_insts(c, s3, b, c.f.insns[b.ix()].to.0 as int);
        if let Ok(s4) = pass_insts(c, s3, b, c.f.insns[b.ix()].to.0 as int) {
            lemma_blocks_stay(c, s.pregs, s4.pregs, at);
            assert(blocks_reserved(c, s4.pregs, at + 1));
            lemma_params_pregs(c, s4, b, 0);
            if let Ok(s5) = pass_params(c, s4, b, 0) {
                let min = loop_start(c, at, at);
                let t = PassState {
                    liveins: loop_liveins(c.cfg.postorder, s5.liveins, s5.live, min, at + 1),
                    ..s5
                };
                lemma_live_all_pregs(
                    t,
                    CodeRange {
                        from: blocks_begin(c.cfg, min, at),
                        to: blocks_end(c.cfg, min, at).succ(),
                    },
                    false,
                    0,
                    c.f.num_vregs as int,
                );
                if let Ok(s6) = pass_loop(c, s5, at) {
                    assert(s6.pregs == s4.pregs);
                }
            }
        }
    }
}

proof fn lemma_blocks(c: Ctx, s: PassState, at: int)
    requires
        ctx_ok(c),
        whole(s.pregs),
        s.pregs.len() == c.m.regs.len(),
        0 <= at <= c.cfg.postorder.len(),
        blocks_reserved(c, s.pregs, at),
    ensures
        pass_blocks(c, s, at) matches Ok(t) ==> {
            &&& whole(t.pregs)
            &&& t.pregs.len() == s.pregs.len()
            &&& blocks_reserved(c, t.pregs, c.cfg.postorder.len() as int)
        },
    decreases c.cfg.postorder.len() - at,
{
    if at < c.cfg.postorder.len() {
        lemma_block(c, s, at);
        if let Ok(t) = pass_block(c, s, at) {
            lemma_blocks(c, t, at + 1);
        }
    }
}

/// The copies noted after those in `base` are those that registers are to be kept free for.
pub open spec fn extras_match(base: Seq<Fixup>, st: FixState) -> bool {
    &&& st.extra_insts.len() == st.extra_pregs.len()
    &&& st.fixups.len() == base.len() + st.extra_pregs.len()
    &&& st.fixups.take(base.len() as int) == base
    &&& forall|j: int|
        0 <= j < st.extra_pregs.len() ==> st.fixups[base.len() + j].2.0
            == #[trigger] st.extra_pregs[j] && st.fixups[base.len() + j].0.inst.0
            == st.extra_insts[j]
}

proof fn lemma_extra_mention(base: Seq<Fixup>, st: FixState, pos: ProgPoint, op: Operand)
    requires
        extras_match(base, st),
    ensures
        extras_match(base, fix_mention(st, pos, op).0),
{
    let t = fix_mention(st, pos, op).0;
    assert(t.fixups.take(base.len() as int) =~= base) by {
        assert forall|n: int| 0 <= n < base.len() implies #[trigger] t.fixups.take(
            base.len() as int,
        )[n] == base[n] by {
            assert(st.fixups.take(base.len() as int)[n] == base[n]);
        }
    }
    assert forall|j: int| 0 <= j < t.extra_pregs.len() implies t.fixups[base.len() + j].2.0
        == #[trigger] t.extra_pregs[j] && t.fixups[base.len() + j].0.inst.0 == t.extra_insts[j] by {
        if j < st.extra_pregs.len() {
            assert(t.extra_pregs[j] == st.extra_pregs[j]);
            assert(t.fixups[base.len() + j] == st.fixups[base.len() + j]);
        }
    }
}

proof fn lemma_extra_uses(base: Seq<Fixup>, st: FixState, uses: Seq<Use>, list: Seq<u32>, j: int)
    requires
        extras_match(base, st),
        0 <= j,
    ensures
        extras_match(base, fix_uses(st, uses, list, j).0),
    decreases list.len() - j,
{
    if j < list.len() {
        let u = list[j] as int;
        let (t, op) = fix_mention(st, uses[u].pos, uses[u].operand);
        lemma_extra_mention(base, st, uses[u].pos, uses[u].operand);
        lemma_extra_uses(base, t, uses.update(u, Use { operand: op, ..uses[u] }), list, j + 1);
    }
}

/// Registers that exist are kept free over the instructions.
proof fn lemma_extra(s: PassState, pregs: Seq<u32>, insts: Seq<u32>, i: int)
    requires
        whole(s.pregs),
        0 <= i,
        pregs.len() == insts.len(),
        forall|j: int|
            0 <= j < pregs.len() ==> (#[trigger] pregs[j]) < s.pregs.len() && insts[j] < MAX_INSTS,
    ensures
        pass_extra(s, pregs, insts, i) matches Ok(t) ==> {
            &&& whole(t.pregs)
            &&& reserved_stay(s.pregs, t.pregs)
            &&& t.fixups == s.fixups
            &&& forall|j: int|
                i <= j < pregs.len() ==> is_reserved(
                    t.pregs,
                    (#[trigger] pregs[j]) as int,
                    Inst(insts[j]),
                )
        },
    decreases pregs.len() - i,
{
    if i < pregs.len() {
        lemma_take_reserved(s, Inst(insts[i]), pregs[i] as int);
        if let Ok(t) = pass_take_preg(s, inst_range(Inst(insts[i])), pregs[i] as int) {
            lemma_extra(t, pregs, insts, i + 1);
            if let Ok(u) = pass_extra(t, pregs, insts, i + 1) {
                assert(is_reserved(u.pregs, pregs[i] as int, Inst(insts[i])));
            }
        }
    }
}

/// The registers that copies go to are kept free over the instructions that the copies are for.
pub open spec fn fixups_reserved(pregs: Seq<Seq<RangeEntry>>, fixups: Seq<Fixup>) -> bool {
    forall|n: int|
        0 <= n < fixups.len() ==> is_reserved(
            pregs,
            (#[trigger] fixups[n]).2.ix(),
            fixups[n].0.inst,
        )
}

/// The first of the copies are those in `base`.
pub open spec fn goes_on(base: Seq<Fixup>, fixups: Seq<Fixup>) -> bool {
    base.len() <= fixups.len() && fixups.take(base.len() as int) == base
}

proof fn lemma_goes_on(a: Seq<Fixup>, b: Seq<Fixup>, d: Seq<Fixup>)
    requires
        goes_on(a, b),
        goes_on(b, d),
    ensures
        goes_on(a, d),
{
    assert(d.take(a.len() as int) =~= a) by {
        assert forall|n: int| 0 <= n < a.len() implies #[trigger] d.take(a.len() as int)[n] == a[n] by {
            assert(b.take(a.len() as int)[n] == a[n]);
            assert(d.take(b.len() as int)[n] == b[n]);
        }
    }
}

/// What is noted of a live range, before registers are taken.
pub open spec fn range_notes(s: PassState, v: int, r: u32) -> FixState {
    fix_uses(fix_def(fix_start(s.fixups), s.g, v, r).0, s.g.uses, s.g.in_range[r as int], 0).0
}

proof fn lemma_range_notes(s: PassState, v: int, r: u32)
    ensures
        extras_match(s.fixups, range_notes(s, v, r)),
{
    let st = fix_start(s.fixups);
    assert(st.fixups.take(s.fixups.len() as int) =~= s.fixups);
    let (t, defs) = fix_def(st, s.g, v, r);
    if s.g.ranges[r as int].def.is_valid() {
        let d = s.g.vregs[v].def.ix();
        lemma_extra_mention(s.fixups, st, s.g.defs[d].pos, s.g.defs[d].operand);
    }
    lemma_extra_uses(s.fixups, t, s.g.uses, s.g.in_range[r as int], 0);
}

proof fn lemma_extra_fixups(s: PassState, pregs: Seq<u32>, insts: Seq<u32>, i: int)
    ensures
        pass_extra(s, pregs, insts, i) matches Ok(t) ==> t.fixups == s.fixups,
    decreases pregs.len() - i,
{
    if 0 <= i < pregs.len() {
        if let Ok(t) = pass_take_preg(s, inst_range(Inst(insts[i])), pregs[i] as int) {
            lemma_extra_fixups(t, pregs, insts, i + 1);
        }
    }
}

proof fn lemma_range_goes_on(s: PassState, v: int, r: u32)
    ensures
        pass_fix_range(s, v, r) matches Ok(t) ==> goes_on(s.fixups, t.fixups) && t.fixups
            == range_notes(s, v, r).fixups,
{
    let (st, defs) = fix_def(fix_start(s.fixups), s.g, v, r);
    let (t, uses) = fix_uses(st, s.g.uses, s.g.in_range[r as int], 0);
    let u = PassState { g: GraphState { uses, defs, ..s.g }, fixups: t.fixups, ..s };
    lemma_range_notes(s, v, r);
    lemma_extra_fixups(u, t.extra_pregs, t.extra_insts, 0);
}

proof fn lemma_list_goes_on(s: PassState, v: int, list: Seq<u32>, i: int)
    ensures
        pass_fix_list(s, v, list, i) matches Ok(t) ==> goes_on(s.fixups, t.fixups),
    decreases list.len() - i,
{
    if 0 <= i < list.len() {
        lemma_range_goes_on(s, v, list[i]);
        if let Ok(t) = pass_fix_range(s, v, list[i]) {
            lemma_list_goes_on(t, v, list, i + 1);
            if let Ok(u) = pass_fix_list(t, v, list, i + 1) {
                lemma_goes_on(s.fixups, t.fixups, u.fixups);
            }
        }
    } else {
        assert(s.fixups.take(s.fixups.len() as int) =~= s.fixups);
    }
}

proof fn lemma_all_goes_on(s: PassState, v: int, n: int)
    ensures
        pass_fix_all(s, v, n) matches Ok(t) ==> goes_on(s.fixups, t.fixups),
    decreases n - v,
{
    if v < n {
        lemma_list_goes_on(s, v, s.g.in_vreg[v], 0);
        if let Ok(t) = pass_fix_list(s, v, s.g.in_vreg[v], 0) {
            lemma_all_goes_on(t, v + 1, n);
            if let Ok(u) = pass_fix_all(t, v + 1, n) {
                lemma_goes_on(s.fixups, t.fixups, u.fixups);
            }
        }
    } else {
        assert(s.fixups.take(s.fixups.len() as int) =~= s.fixups);
    }
}

/// The copies are for instructions and registers that exist.
pub open spec fn fixups_exist(c: Ctx, fixups: Seq<Fixup>) -> bool {
    forall|n: int| 0 <= n < fixups.len() ==> fixup_ok(c, #[trigger] fixups[n])
}

proof fn lemma_exist_before(c: Ctx, a: Seq<Fixup>, b: Seq<Fixup>)
    requires
        goes_on(a, b),
        fixups_exist(c, b),
    ensures
        fixups_exist(c, a),
{
    assert forall|n: int| 0 <= n < a.len() implies fixup_ok(c, #[trigger] a[n]) by {
        assert(b.take(a.len() as int)[n] == a[n]);
        assert(fixup_ok(c, b[n]));
    }
}

/// What is kept free after copies are noted.
pub open spec fn fix_kept(c: Ctx, s: PassState, t: PassState) -> bool {
    &&& whole(t.pregs)
    &&& reserved_stay(s.pregs, t.pregs)
    &&& fixups_reserved(t.pregs, t.fixups)
}

proof fn lemma_fix_range(c: Ctx, s: PassState, v: int, r: u32)
    requires
        ctx_ok(c),
        whole(s.pregs),
        s.pregs.len() == c.m.regs.len(),
        fixups_exist(c, s.fixups),
        fixups_reserved(s.pregs, s.fixups),
        pass_fix_range(s, v, r) matches Ok(t) ==> fixups_exist(c, t.fixups),
    ensures
        pass_fix_range(s, v, r) matches Ok(t) ==> fix_kept(c, s, t),
{
    let (st, defs) = fix_def(fix_start(s.fixups), s.g, v, r);
    let (n, uses) = fix_uses(st, s.g.uses, s.g.in_range[r as int], 0);
    let u = PassState { g: GraphState { uses, defs, ..s.g }, fixups: n.fixups, ..s };
    lemma_range_notes(s, v, r);
    lemma_range_goes_on(s, v, r);
    let base = s.fixups.len() as int;
    if let Ok(t) = pass_fix_range(s, v, r) {
        assert forall|j: int| 0 <= j < n.extra_pregs.len() implies (#[trigger] n.extra_pregs[j])
            < u.pregs.len() && n.extra_insts[j] < MAX_INSTS by {
            assert(fixup_ok(c, t.fixups[base + j]));
        }
        lemma_extra(u, n.extra_pregs, n.extra_insts, 0);
        assert forall|k: int| 0 <= k < t.fixups.len() implies is_reserved(
            t.pregs,
            (#[trigger] t.fixups[k]).2.ix(),
            t.fixups[k].0.inst,
        ) by {
            if k < base {
                assert(t.fixups.take(base)[k] == s.fixups[k]);
                assert(fixup_ok(c, s.fixups[k]));
                assert(is_reserved(s.pregs, s.fixups[k].2.ix(), s.fixups[k].0.inst));
            } else {
                let j = k - base;
                assert(n.extra_pregs[j] == t.fixups[base + j].2.0);
                assert(is_reserved(t.pregs, n.extra_pregs[j] as int, Inst(n.extra_insts[j])));
            }
        }
    }
}

proof fn lemma_kept_trans(c: Ctx, s: PassState, t: PassState, u: PassState)
    requires
        fix_kept(c, s, t),
        fix_kept(c, t, u),
    ensures
        fix_kept(c, s, u),
{
    assert forall|p: int, inst: Inst| 0 <= p < s.pregs.len() && is_reserved(
        s.pregs,
        p,
        inst,
    ) implies #[trigger] is_reserved(u.pregs, p, inst) by {
        assert(is_reserved(t.pregs, p, inst));
    }
}

proof fn lemma_fix_list(c: Ctx, s: PassState, v: int, list: Seq<u32>, i: int)
    requires
        ctx_ok(c),
        whole(s.pregs),
        s.pregs.len() == c.m.regs.len(),
        fixups_exist(c, s.fixups),
        fixups_reserved(s.pregs, s.fixups),
        pass_fix_list(s, v, list, i) matches Ok(t) ==> fixups_exist(c, t.fixups),
    ensures
        pass_fix_list(s, v, list, i) matches Ok(t) ==> fix_kept(c, s, t),
    decreases list.len() - i,
{
    if 0 <= i < list.len() {
        if let Ok(t) = pass_fix_range(s, v, list[i]) {
            lemma_list_goes_on(t, v, list, i + 1);
            if let Ok(u) = pass_fix_list(t, v, list, i + 1) {
                lemma_exist_before(c, t.fixups, u.fixups);
                lemma_fix_range(c, s, v, list[i]);
                lemma_fix_list(c, t, v, list, i + 1);
                lemma_kept_trans(c, s, t, u);
            }
        }
    }
}

proof fn lemma_fix_all(c: Ctx, s: PassState, v: int, n: int)
    requires
        ctx_ok(c),
        whole(s.pregs),
        s.pregs.len() == c.m.regs.len(),
        fixups_exist(c, s.fixups),
        fixups_reserved(s.pregs, s.fixups),
        pass_fix_all(s, v, n) matches Ok(t) ==> fixups_exist(c, t.fixups),
    ensures
        pass_fix_all(s, v, n) matches Ok(t) ==> fix_kept(c, s, t),
    decreases n - v,
{
    if v < n {
        if let Ok(t) = pass_fix_list(s, v, s.g.in_vreg[v], 0) {
            lemma_all_goes_on(t, v + 1, n);
            if let Ok(u) = pass_fix_all(t, v + 1, n) {
                lemma_exist_before(c, t.fixups, u.fixups);
                lemma_fix_list(c, s, v, s.g.in_vreg[v], 0);
                lemma_fix_all(c, t, v + 1, n);
                lemma_kept_trans(c, s, t, u);
            }
        }
    }
}

/// The scan over the blocks keeps the registers free that instructions which can be reached
/// overwrite, and those that copies go to.
pub proof fn lemma_all_reserved(c: Ctx)
    requires
        ctx_ok(c),
        pass_all(c, pass_start(c)) matches Ok(u) && fixups_exist(c, u.fixups),
    ensures
        ({
            let u = pass_all(c, pass_start(c))->Ok_0;
            &&& u.pregs.len() == c.m.regs.len()
            &&& blocks_reserved(c, u.pregs, c.cfg.postorder.len() as int)
            &&& fixups_reserved(u.pregs, u.fixups)
        }),
{
    let s = pass_start(c);
    lemma_blocks(c, s, 0);
    let t = pass_blocks(c, s, 0)->Ok_0;
    lemma_blocks_notes(c, s, 0);
    lemma_fix_all(c, t, 0, c.f.num_vregs as int);
    let u = pass_fix_all(t, 0, c.f.num_vregs as int)->Ok_0;
    lemma_blocks_stay(c, t.pregs, u.pregs, c.cfg.postorder.len() as int);
}

} // verus!
