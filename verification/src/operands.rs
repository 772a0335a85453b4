//! The locations of operands in what comes out.
use crate::apply::{
    apply_abutting, apply_all, apply_dests, apply_fixups, apply_half, apply_in_ok, apply_ins,
    apply_list, apply_mentions, apply_move, apply_ok, apply_outs, apply_pairs, apply_param,
    apply_preds, apply_range, apply_reuse, apply_reuse_operands, apply_set_alloc, apply_sources,
    apply_succs, apply_uses, apply_vregs, defining_block, first_start, lemma_fixups_keep,
    lemma_pairs_keep, lemma_place, operand_place, range_alloc, ApplyIn, ApplyState,
};
use crate::code_range::CodeRange;
use crate::data::InsertMovePrio;
use crate::func::{func_ok, inst_ok, lemma_operands_before, operand_ok, operands_before, FuncModel};
use crate::graph::{mention_ok, range_ok};
use crate::halfmove::HalfMoveKind;
use crate::index::{Block, Inst};
use crate::lists::lemma_below;
use crate::liveness::Fixup;
use crate::reg::{Allocation, OperandPolicy, ProgPoint};
use crate::sort::stable_sort;
use vstd::prelude::*;

verus! {

/// Does live range `r` mention the operand at the place?
pub open spec fn is_mentioned(x: ApplyIn, r: u32, place: int) -> bool {
    let d = x.g.ranges[r as int].def;
    let list = x.g.in_range[r as int];
    ||| d.is_valid() && operand_place(
        x.c.f,
        x.g.defs[d.ix()].pos.inst,
        x.g.defs[d.ix()].slot as int,
    ) == place
    ||| use_at(x, list, 0, place)
}

/// Is one of the uses from position `j` of the list on the operand at the place?
pub open spec fn use_at(x: ApplyIn, list: Seq<u32>, j: int, place: int) -> bool {
    exists|k: int|
        j <= k < list.len() && ({
            let u = x.g.uses[(#[trigger] list[k]) as int];
            operand_place(x.c.f, u.pos.inst, u.slot as int) == place
        })
}

/// The live ranges that mention the operand at the place are in these locations.
pub open spec fn located_among(x: ApplyIn, place: int, locs: Set<Allocation>) -> bool {
    forall|v: int, i: int|
        0 <= v < x.g.in_vreg.len() && 0 <= i < x.g.in_vreg[v].len() && is_mentioned(
            x,
            #[trigger] x.g.in_vreg[v][i],
            place,
        ) ==> (range_alloc(x, x.g.in_vreg[v][i]) matches Some(loc) ==> locs.contains(loc))
}

/// Does live range `r` hold a definition that reuses an input?
pub open spec fn reuses_input(x: ApplyIn, r: u32) -> bool {
    let d = x.g.ranges[r as int].def;
    d.is_valid() && x.g.defs[d.ix()].operand.policy is Reuse
}

proof fn lemma_uses_at(
    x: ApplyIn,
    s: ApplyState,
    r: u32,
    j: int,
    alloc: Allocation,
    place: int,
)
    requires
        apply_in_ok(x),
        r < x.g.ranges.len(),
        0 <= j <= x.g.in_range[r as int].len(),
        s.allocs.len() == operands_before(x.c.f.operands, x.c.f.insts as int),
        0 <= place < s.allocs.len(),
    ensures
        ({
            let list = x.g.in_range[r as int];
            let t = apply_uses(x, s, list, j, alloc);
            &&& t == (ApplyState { allocs: t.allocs, ..s })
            &&& t.allocs.len() == s.allocs.len()
            &&& t.allocs[place] == if use_at(x, list, j, place) {
                alloc
            } else {
                s.allocs[place]
            }
        }),
    decreases x.g.in_range[r as int].len() - j,
{
    let list = x.g.in_range[r as int];
    if j < list.len() {
        lemma_below(x.g.in_range, x.g.uses.len() as int, r as int, j);
        let u = x.g.uses[list[j] as int];
        assert(mention_ok(x.c.f, u.pos, u.slot));
        lemma_place(x.c.f, u.pos.inst, u.slot as int);
        let s1 = apply_set_alloc(x.c.f, s, u.pos.inst, u.slot as int, alloc);
        lemma_uses_at(x, s1, r, j + 1, alloc, place);
        if use_at(x, list, j + 1, place) {
            let k = choose|k: int|
                j + 1 <= k < list.len() && ({
                    let u = x.g.uses[(#[trigger] list[k]) as int];
                    operand_place(x.c.f, u.pos.inst, u.slot as int) == place
                });
            assert(use_at(x, list, j, place));
        } else if operand_place(x.c.f, u.pos.inst, u.slot as int) == place {
            assert(use_at(x, list, j, place));
        } else if use_at(x, list, j, place) {
            let k = choose|k: int|
                j <= k < list.len() && ({
                    let u = x.g.uses[(#[trigger] list[k]) as int];
                    operand_place(x.c.f, u.pos.inst, u.slot as int) == place
                });
            assert(k != j);
            assert(use_at(x, list, j + 1, place));
        }
    }
}

proof fn lemma_mentions_at(x: ApplyIn, s: ApplyState, r: u32, alloc: Allocation, place: int)
    requires
        apply_in_ok(x),
        r < x.g.ranges.len(),
        s.allocs.len() == operands_before(x.c.f.operands, x.c.f.insts as int),
        0 <= place < s.allocs.len(),
    ensures
        ({
            let t = apply_mentions(x, s, r, alloc);
            &&& t.allocs.len() == s.allocs.len()
            &&& t.reuse == if reuses_input(x, r) {
                s.reuse.push(x.g.defs[x.g.ranges[r as int].def.ix()].pos.inst)
            } else {
                s.reuse
            }
            &&& t.allocs[place] == if is_mentioned(x, r, place) {
                alloc
            } else {
                s.allocs[place]
            }
        }),
{
    let d = x.g.ranges[r as int].def;
    let def = x.g.defs[d.ix()];
    assert(range_ok(x.c.f, x.g, r as int));
    let t = if d.is_valid() {
        assert(mention_ok(x.c.f, def.pos, def.slot));
        lemma_place(x.c.f, def.pos.inst, def.slot as int);
        let u = apply_set_alloc(x.c.f, s, def.pos.inst, def.slot as int, alloc);
        if def.operand.policy is Reuse {
            ApplyState { reuse: u.reuse.push(def.pos.inst), ..u }
        } else {
            u
        }
    } else {
        s
    };
    lemma_uses_at(x, t, r, 0, alloc, place);
}

proof fn lemma_succs_keep(
    x: ApplyIn,
    s: ApplyState,
    v: u32,
    range: CodeRange,
    alloc: Allocation,
    b: Block,
    k: int,
)
    ensures
        apply_succs(x, s, v, range, alloc, b, k) matches Ok(t) ==> t.allocs == s.allocs && t.reuse
            == s.reuse && t.params == s.params,
    decreases x.c.f.succs[b.ix()].len() - k,
{
    let succs = x.c.f.succs[b.ix()];
    if 0 <= k < succs.len() {
        let succ = succs[k];
        match apply_half(s, b, succ, v, HalfMoveKind::Source, alloc) {
            Ok(t) => {
                lemma_succs_keep(x, t, v, range, alloc, b, k + 1);
            },
            Err(_) => {},
        }
        lemma_succs_keep(x, s, v, range, alloc, b, k + 1);
    }
}

proof fn lemma_outs_keep(x: ApplyIn, s: ApplyState, v: u32, alloc: Allocation, b: Block)
    ensures
        apply_outs(x, s, v, alloc, b) matches Ok(t) ==> t.allocs == s.allocs && t.reuse
            == s.reuse && t.params == s.params,
    decreases x.outs.len() - s.out_idx,
{
    if 0 <= s.out_idx < x.outs.len() {
        let o = x.outs[s.out_idx];
        match apply_half(s, o.1, o.2, o.3.0, HalfMoveKind::Source, alloc) {
            Ok(t) => {
                lemma_outs_keep(x, ApplyState { out_idx: s.out_idx + 1, ..t }, v, alloc, b);
            },
            Err(_) => {},
        }
        lemma_outs_keep(x, ApplyState { out_idx: s.out_idx + 1, ..s }, v, alloc, b);
    }
}

pub proof fn lemma_sources_keep(
    x: ApplyIn,
    s: ApplyState,
    v: u32,
    range: CodeRange,
    alloc: Allocation,
    b: int,
)
    ensures
        apply_sources(x, s, v, range, alloc, b) matches Ok(t) ==> t.allocs == s.allocs && t.reuse
            == s.reuse && t.params == s.params,
    decreases x.c.f.blocks - b,
{
    if 0 <= b < x.c.f.blocks {
        let block = Block(b as u32);
        lemma_succs_keep(x, s, v, range, alloc, block, 0);
        match apply_succs(x, s, v, range, alloc, block, 0) {
            Ok(t) => {
                lemma_outs_keep(x, t, v, alloc, block);
                match apply_outs(x, t, v, alloc, block) {
                    Ok(u) => {
                        lemma_sources_keep(x, u, v, range, alloc, b + 1);
                    },
                    Err(_) => {},
                }
            },
            Err(_) => {},
        }
    }
}

proof fn lemma_ins_keep(x: ApplyIn, s: ApplyState, v: u32, alloc: Allocation, b: Block)
    ensures
        apply_ins(x, s, v, alloc, b) matches Ok(t) ==> t.allocs == s.allocs && t.reuse
            == s.reuse && t.params == s.params,
    decreases x.ins.len() - s.in_idx,
{
    if 0 <= s.in_idx < x.ins.len() {
        let o = x.ins[s.in_idx];
        match apply_half(s, o.2, o.1, o.0.0, HalfMoveKind::Dest, alloc) {
            Ok(t) => {
                lemma_ins_keep(x, ApplyState { in_idx: s.in_idx + 1, ..t }, v, alloc, b);
            },
            Err(_) => {},
        }
        lemma_ins_keep(x, ApplyState { in_idx: s.in_idx + 1, ..s }, v, alloc, b);
    }
}

proof fn lemma_preds_keep(
    x: ApplyIn,
    s: ApplyState,
    v: u32,
    range: CodeRange,
    alloc: Allocation,
    b: Block,
    k: int,
)
    ensures
        apply_preds(x, s, v, range, alloc, b, k) matches Ok(t) ==> t.allocs == s.allocs && t.reuse
            == s.reuse && t.params == s.params,
    decreases x.c.f.preds[b.ix()].len() - k,
{
    let preds = x.c.f.preds[b.ix()];
    if 0 <= k < preds.len() {
        match apply_half(s, preds[k], b, v, HalfMoveKind::Dest, alloc) {
            Ok(t) => {
                lemma_preds_keep(x, t, v, range, alloc, b, k + 1);
            },
            Err(_) => {},
        }
        lemma_preds_keep(x, s, v, range, alloc, b, k + 1);
    }
}

pub proof fn lemma_dests_keep(
    x: ApplyIn,
    s: ApplyState,
    v: u32,
    range: CodeRange,
    alloc: Allocation,
    defining: Block,
    b: int,
)
    ensures
        apply_dests(x, s, v, range, alloc, defining, b) matches Ok(t) ==> t.allocs == s.allocs && t.reuse
            == s.reuse && t.params == s.params,
    decreases x.c.f.blocks - b,
{
    if 0 <= b < x.c.f.blocks {
        let block = Block(b as u32);
        lemma_ins_keep(x, s, v, alloc, block);
        match apply_ins(x, s, v, alloc, block) {
            Ok(t) => {
                lemma_preds_keep(x, t, v, range, alloc, block, 0);
                lemma_dests_keep(x, t, v, range, alloc, defining, b + 1);
                match apply_preds(x, t, v, range, alloc, block, 0) {
                    Ok(u) => {
                        lemma_dests_keep(x, u, v, range, alloc, defining, b + 1);
                    },
                    Err(_) => {},
                }
            },
            Err(_) => {},
        }
    }
}

proof fn lemma_range_at(
    x: ApplyIn,
    s: ApplyState,
    v: u32,
    defining: Block,
    prev: Option<(u32, Allocation)>,
    r: u32,
    alloc: Allocation,
    place: int,
)
    requires
        apply_in_ok(x),
        r < x.g.ranges.len(),
        s.allocs.len() == operands_before(x.c.f.operands, x.c.f.insts as int),
        0 <= place < s.allocs.len(),
    ensures
        apply_range(x, s, v, defining, prev, r, alloc) matches Ok(t) ==> {
            &&& t.allocs.len() == s.allocs.len()
            &&& t.reuse == if reuses_input(x, r) {
                s.reuse.push(x.g.defs[x.g.ranges[r as int].def.ix()].pos.inst)
            } else {
                s.reuse
            }
            &&& t.allocs[place] == if is_mentioned(x, r, place) {
                alloc
            } else {
                s.allocs[place]
            }
        },
{
    let range = x.g.ranges[r as int].range;
    let first = x.c.cfg.insn_block[range.from.inst.ix()].ix();
    match apply_abutting(x, s, prev, r, alloc) {
        Ok(s1) => {
            lemma_sources_keep(x, s1, v, range, alloc, first);
            match apply_sources(x, s1, v, range, alloc, first) {
                Ok(s2) => {
                    lemma_dests_keep(x, s2, v, range, alloc, defining, first_start(x.c, range));
                    match apply_dests(
                        x,
                        s2,
                        v,
                        range,
                        alloc,
                        defining,
                        first_start(x.c, range),
                    ) {
                        Ok(s3) => {
                            lemma_mentions_at(
                                x,
                                apply_param(x, s3, v, range, alloc),
                                r,
                                alloc,
                                place,
                            );
                        },
                        Err(_) => {},
                    }
                },
                Err(_) => {},
            }
        },
        Err(_) => {},
    }
}

/// Is the operand at the place mentioned by a live range of register `v` from position `i` on?
spec fn mentioned_from(x: ApplyIn, v: int, i: int, place: int) -> bool {
    exists|k: int|
        i <= k < x.g.in_vreg[v].len() && is_mentioned(x, #[trigger] x.g.in_vreg[v][k], place)
}

proof fn lemma_list_at(
    x: ApplyIn,
    s: ApplyState,
    v: u32,
    defining: Block,
    prev: Option<(u32, Allocation)>,
    i: int,
    place: int,
    locs: Set<Allocation>,
)
    requires
        apply_in_ok(x),
        v < x.g.in_vreg.len(),
        0 <= i <= x.g.in_vreg[v as int].len(),
        s.allocs.len() == operands_before(x.c.f.operands, x.c.f.insts as int),
        0 <= place < s.allocs.len(),
        located_among(x, place, locs),
    ensures
        apply_list(x, s, v, defining, prev, i) matches Ok(t) ==> {
            &&& t.allocs.len() == s.allocs.len()
            &&& mentioned_from(x, v as int, i, place) || locs.contains(s.allocs[place])
                ==> locs.contains(t.allocs[place])
        },
    decreases x.g.in_vreg[v as int].len() - i,
{
    let list = x.g.in_vreg[v as int];
    if i < list.len() {
        let r = list[i];
        lemma_below(x.g.in_vreg, x.g.ranges.len() as int, v as int, i);
        match range_alloc(x, r) {
            Some(alloc) => {
                lemma_range_at(x, s, v, defining, prev, r, alloc, place);
                match apply_range(x, s, v, defining, prev, r, alloc) {
                    Ok(t) => {
                        lemma_list_at(x, t, v, defining, Some((r, alloc)), i + 1, place, locs);
                        if is_mentioned(x, x.g.in_vreg[v as int][i], place) {
                            assert(locs.contains(alloc));
                        } else if mentioned_from(x, v as int, i, place) {
                            let k = choose|k: int|
                                i <= k < list.len() && is_mentioned(
                                    x,
                                    #[trigger] x.g.in_vreg[v as int][k],
                                    place,
                                );
                            assert(k != i);
                            assert(mentioned_from(x, v as int, i + 1, place));
                        }
                    },
                    Err(_) => {},
                }
            },
            None => {},
        }
    }
}

proof fn lemma_vregs_at(
    x: ApplyIn,
    s: ApplyState,
    v: int,
    w: int,
    place: int,
    locs: Set<Allocation>,
)
    requires
        apply_in_ok(x),
        0 <= v <= x.c.f.num_vregs,
        s.allocs.len() == operands_before(x.c.f.operands, x.c.f.insts as int),
        0 <= place < s.allocs.len(),
        located_among(x, place, locs),
        locs.contains(s.allocs[place]) || v <= w < x.c.f.num_vregs && mentioned_from(
            x,
            w,
            0,
            place,
        ),
    ensures
        apply_vregs(x, s, v) matches Ok(t) ==> t.allocs.len() == s.allocs.len() && locs.contains(
            t.allocs[place],
        ),
    decreases x.c.f.num_vregs - v,
{
    if v < x.c.f.num_vregs {
        lemma_list_at(x, s, v as u32, defining_block(x, v), None, 0, place, locs);
        match apply_list(x, s, v as u32, defining_block(x, v), None, 0) {
            Ok(t) => {
                lemma_vregs_at(x, t, v + 1, w, place, locs);
            },
            Err(_) => {},
        }
    }
}

/// Is the operand at the place an input that no output reuses?
pub open spec fn not_reused(f: FuncModel, place: int) -> bool {
    forall|i: int, k: int|
        0 <= i < f.insts && 0 <= k < f.operands[i].len() ==> ((
        #[trigger] f.operands[i][k]).policy matches OperandPolicy::Reuse(input) ==> operand_place(
            f,
            Inst(i as u32),
            input as int,
        ) != place)
}

proof fn lemma_reuse_operands_at(f: FuncModel, s: ApplyState, inst: Inst, i: int, place: int)
    requires
        func_ok(f),
        inst.0 < f.insts,
        0 <= i <= f.operands[inst.ix()].len(),
        s.allocs.len() == operands_before(f.operands, f.insts as int),
        0 <= place < s.allocs.len(),
        not_reused(f, place),
    ensures
        ({
            let t = apply_reuse_operands(f, s, inst, i);
            t.allocs.len() == s.allocs.len() && t.allocs[place] == s.allocs[place]
        }),
    decreases f.operands[inst.ix()].len() - i,
{
    let ops = f.operands[inst.ix()];
    if i < ops.len() {
        assert(inst_ok(f, inst.ix()));
        assert(operand_ok(f, inst.ix(), f.operands[inst.ix()][i]));
        if let OperandPolicy::Reuse(k) = ops[i].policy {
            lemma_place(f, inst, k as int);
            let a = s.allocs[operand_place(f, inst, k as int)];
            let b = s.allocs[operand_place(f, inst, i)];
            if a != b {
                let t = apply_move(
                    s,
                    ProgPoint::before(inst),
                    InsertMovePrio::ReusedInput,
                    a,
                    b,
                );
                lemma_reuse_operands_at(
                    f,
                    apply_set_alloc(f, t, inst, k as int, b),
                    inst,
                    i + 1,
                    place,
                );
            }
        }
        lemma_reuse_operands_at(f, s, inst, i + 1, place);
    }
}

pub proof fn lemma_reuse_at(f: FuncModel, s: ApplyState, insts: Seq<Inst>, i: int, place: int)
    requires
        func_ok(f),
        0 <= i <= insts.len(),
        forall|k: int| 0 <= k < insts.len() ==> (#[trigger] insts[k]).0 < f.insts,
        s.allocs.len() == operands_before(f.operands, f.insts as int),
        0 <= place < s.allocs.len(),
        not_reused(f, place),
    ensures
        ({
            let t = apply_reuse(f, s, insts, i);
            t.allocs.len() == s.allocs.len() && t.allocs[place] == s.allocs[place]
        }),
    decreases insts.len() - i,
{
    if i < insts.len() {
        lemma_reuse_operands_at(f, s, insts[i], 0, place);
        lemma_reuse_at(f, apply_reuse_operands(f, s, insts[i], 0), insts, i + 1, place);
    }
}

/// The instructions that are noted for reuse all exist.
proof fn lemma_list_reuse(
    x: ApplyIn,
    s: ApplyState,
    v: u32,
    defining: Block,
    prev: Option<(u32, Allocation)>,
    i: int,
    inst: Inst,
)
    requires
        apply_in_ok(x),
        v < x.g.in_vreg.len(),
        0 <= i <= x.g.in_vreg[v as int].len(),
        s.allocs.len() == operands_before(x.c.f.operands, x.c.f.insts as int),
        s.allocs.len() > 0,
        forall|k: int| 0 <= k < s.reuse.len() ==> (#[trigger] s.reuse[k]).0 < x.c.f.insts,
    ensures
        apply_list(x, s, v, defining, prev, i) matches Ok(t) ==> {
            &&& t.allocs.len() == s.allocs.len()
            &&& forall|k: int| 0 <= k < t.reuse.len() ==> (#[trigger] t.reuse[k]).0 < x.c.f.insts
            &&& s.reuse.contains(inst) || reuse_from(x, v as int, i, inst) ==> t.reuse.contains(
                inst,
            )
        },
    decreases x.g.in_vreg[v as int].len() - i,
{
    let list = x.g.in_vreg[v as int];
    if i < list.len() {
        let r = list[i];
        lemma_below(x.g.in_vreg, x.g.ranges.len() as int, v as int, i);
        assert(range_ok(x.c.f, x.g, r as int));
        match range_alloc(x, r) {
            Some(alloc) => {
                lemma_range_at(x, s, v, defining, prev, r, alloc, 0);
                match apply_range(x, s, v, defining, prev, r, alloc) {
                    Ok(t) => {
                        let d = x.g.ranges[r as int].def.ix();
                        if reuses_input(x, r) {
                            assert(mention_ok(x.c.f, x.g.defs[d].pos, x.g.defs[d].slot));
                            assert(t.reuse[s.reuse.len() as int] == x.g.defs[d].pos.inst);
                        }
                        if s.reuse.contains(inst) {
                            let k = choose|k: int| 0 <= k < s.reuse.len() && s.reuse[k] == inst;
                            assert(t.reuse[k] == inst);
                        }
                        lemma_list_reuse(x, t, v, defining, Some((r, alloc)), i + 1, inst);
                        if reuse_from(x, v as int, i, inst) {
                            let k = choose|k: int|
                                i <= k < list.len() && defines_reuse(
                                    x,
                                    #[trigger] x.g.in_vreg[v as int][k],
                                    inst,
                                );
                            if k > i {
                                assert(reuse_from(x, v as int, i + 1, inst));
                            }
                        }
                    },
                    Err(_) => {},
                }
            },
            None => {},
        }
    }
}

/// Does live range `r` hold a definition at the instruction that reuses an input?
pub open spec fn defines_reuse(x: ApplyIn, r: u32, inst: Inst) -> bool {
    reuses_input(x, r) && x.g.defs[x.g.ranges[r as int].def.ix()].pos.inst == inst
}

spec fn reuse_from(x: ApplyIn, v: int, i: int, inst: Inst) -> bool {
    exists|k: int|
        i <= k < x.g.in_vreg[v].len() && defines_reuse(x, #[trigger] x.g.in_vreg[v][k], inst)
}

proof fn lemma_vregs_reuse(x: ApplyIn, s: ApplyState, v: int, w: int, inst: Inst)
    requires
        apply_in_ok(x),
        0 <= v <= x.c.f.num_vregs,
        s.allocs.len() == operands_before(x.c.f.operands, x.c.f.insts as int),
        s.allocs.len() > 0,
        forall|k: int| 0 <= k < s.reuse.len() ==> (#[trigger] s.reuse[k]).0 < x.c.f.insts,
    ensures
        apply_vregs(x, s, v) matches Ok(t) ==> {
            &&& t.allocs.len() == s.allocs.len()
            &&& forall|k: int| 0 <= k < t.reuse.len() ==> (#[trigger] t.reuse[k]).0 < x.c.f.insts
            &&& s.reuse.contains(inst) || v <= w < x.c.f.num_vregs && reuse_from(x, w, 0, inst)
                ==> t.reuse.contains(inst)
        },
    decreases x.c.f.num_vregs - v,
{
    if v < x.c.f.num_vregs {
        lemma_list_reuse(x, s, v as u32, defining_block(x, v), None, 0, inst);
        match apply_list(x, s, v as u32, defining_block(x, v), None, 0) {
            Ok(t) => {
                lemma_vregs_reuse(x, t, v + 1, w, inst);
            },
            Err(_) => {},
        }
    }
}

/// An operand that no output reuses gets the location of a live range that mentions it, if there is
/// one, and keeps the one that it has otherwise.
pub proof fn law_operand_located(
    x: ApplyIn,
    s: ApplyState,
    fixups: Seq<Fixup>,
    v: int,
    i: int,
    place: int,
    locs: Set<Allocation>,
)
    requires
        apply_in_ok(x),
        apply_ok(x.c.f, s),
        0 <= place < s.allocs.len(),
        locs.contains(s.allocs[place]) || 0 <= v < x.g.in_vreg.len() && 0 <= i
            < x.g.in_vreg[v].len() && is_mentioned(x, x.g.in_vreg[v][i], place),
        located_among(x, place, locs),
        not_reused(x.c.f, place),
    ensures
        apply_all(x, s, fixups) matches Ok(t) ==> locs.contains(t.allocs[place]),
{
    assert(locs.contains(s.allocs[place]) || mentioned_from(x, v, 0, place));
    lemma_vregs_at(x, s, 0, v, place, locs);
    lemma_vregs_reuse(x, s, 0, 0, Inst(0));
    match apply_vregs(x, s, 0) {
        Ok(s1) => {
            lemma_pairs_keep(x.c.f, s1, stable_sort(s1.halves), 0);
            match apply_pairs(x.c.f, s1, stable_sort(s1.halves), 0) {
                Ok(s2) => {
                    lemma_fixups_keep(x.c, s2, fixups, 0);
                    let s3 = apply_fixups(x.c, s2, fixups, 0);
                    lemma_reuse_at(x.c.f, s3, s1.reuse, 0, place);
                },
                Err(_) => {},
            }
        },
        Err(_) => {},
    }
}

/// The state before inputs are copied to the outputs that reuse them.
pub open spec fn before_reuse(x: ApplyIn, s: ApplyState, fixups: Seq<Fixup>) -> ApplyState {
    let s1 = apply_vregs(x, s, 0)->Ok_0;
    let s2 = apply_pairs(x.c.f, s1, stable_sort(s1.halves), 0)->Ok_0;
    apply_fixups(x.c, s2, fixups, 0)
}

/// Before inputs are copied an operand has the location of a live range that mentions it.
pub proof fn lemma_before_reuse(
    x: ApplyIn,
    s: ApplyState,
    fixups: Seq<Fixup>,
    v: int,
    i: int,
    place: int,
    locs: Set<Allocation>,
)
    requires
        apply_in_ok(x),
        apply_ok(x.c.f, s),
        apply_all(x, s, fixups) is Ok,
        0 <= place < s.allocs.len(),
        0 <= v < x.g.in_vreg.len(),
        0 <= i < x.g.in_vreg[v].len(),
        is_mentioned(x, x.g.in_vreg[v][i], place),
        located_among(x, place, locs),
    ensures
        locs.contains(before_reuse(x, s, fixups).allocs[place]),
{
    assert(mentioned_from(x, v, 0, place));
    lemma_vregs_at(x, s, 0, v, place, locs);
    let s1 = apply_vregs(x, s, 0)->Ok_0;
    lemma_pairs_keep(x.c.f, s1, stable_sort(s1.halves), 0);
    let s2 = apply_pairs(x.c.f, s1, stable_sort(s1.halves), 0)->Ok_0;
    lemma_fixups_keep(x.c, s2, fixups, 0);
}

/// The instructions whose outputs reuse inputs are noted.
pub proof fn lemma_reuse_noted(
    x: ApplyIn,
    s: ApplyState,
    fixups: Seq<Fixup>,
    v: int,
    inst: Inst,
)
    requires
        apply_in_ok(x),
        apply_ok(x.c.f, s),
        apply_all(x, s, fixups) is Ok,
        s.allocs.len() > 0,
    ensures
        before_reuse(x, s, fixups).allocs.len() == s.allocs.len(),
        forall|k: int|
            0 <= k < apply_vregs(x, s, 0)->Ok_0.reuse.len() ==> (#[trigger] apply_vregs(
                x,
                s,
                0,
            )->Ok_0.reuse[k]).0 < x.c.f.insts,
        0 <= v < x.c.f.num_vregs && (exists|y: int|
            0 <= y < x.g.in_vreg[v].len() && defines_reuse(x, #[trigger] x.g.in_vreg[v][y], inst))
            ==> apply_vregs(x, s, 0)->Ok_0.reuse.contains(inst),
{
    lemma_vregs_reuse(x, s, 0, v, inst);
    let s1 = apply_vregs(x, s, 0)->Ok_0;
    lemma_pairs_keep(x.c.f, s1, stable_sort(s1.halves), 0);
    let s2 = apply_pairs(x.c.f, s1, stable_sort(s1.halves), 0)->Ok_0;
    lemma_fixups_keep(x.c, s2, fixups, 0);
    if 0 <= v < x.c.f.num_vregs && (exists|y: int|
        0 <= y < x.g.in_vreg[v].len() && defines_reuse(x, #[trigger] x.g.in_vreg[v][y], inst)) {
        assert(reuse_from(x, v, 0, inst));
    }
}

/// No two outputs of the instruction reuse one input, and none reuses an operand that reuses one.
pub open spec fn reuse_clean(f: FuncModel, inst: Inst) -> bool {
    let ops = f.operands[inst.ix()];
    forall|p: int, q: int|
        #![trigger ops[p], ops[q]]
        0 <= p < ops.len() && 0 <= q < ops.len() ==> (ops[p].policy matches OperandPolicy::Reuse(k)
            ==> {
            &&& k == q ==> !(ops[q].policy is Reuse)
            &&& p != q ==> (ops[q].policy matches OperandPolicy::Reuse(l) ==> k != l)
        })
}

/// Every output of the instruction that reuses an input is where that input is read.
pub open spec fn reuse_shared(f: FuncModel, allocs: Seq<Allocation>, inst: Inst, n: int) -> bool {
    let ops = f.operands[inst.ix()];
    forall|p: int|
        0 <= p < n && p < ops.len() ==> ((#[trigger] ops[p]).policy matches OperandPolicy::Reuse(k)
            ==> allocs[operand_place(f, inst, p)] == allocs[operand_place(f, inst, k as int)])
}

proof fn lemma_reuse_operands_shared(f: FuncModel, s: ApplyState, inst: Inst, i: int)
    requires
        func_ok(f),
        inst.0 < f.insts,
        0 <= i <= f.operands[inst.ix()].len(),
        s.allocs.len() == operands_before(f.operands, f.insts as int),
        reuse_clean(f, inst),
        reuse_shared(f, s.allocs, inst, i),
    ensures
        ({
            let t = apply_reuse_operands(f, s, inst, i);
            &&& t.allocs.len() == s.allocs.len()
            &&& reuse_shared(f, t.allocs, inst, f.operands[inst.ix()].len() as int)
        }),
    decreases f.operands[inst.ix()].len() - i,
{
    let ops = f.operands[inst.ix()];
    if i < ops.len() {
        assert(inst_ok(f, inst.ix()));
        assert(operand_ok(f, inst.ix(), f.operands[inst.ix()][i]));
        lemma_place(f, inst, i);
        if let OperandPolicy::Reuse(k) = ops[i].policy {
            lemma_place(f, inst, k as int);
            let a = s.allocs[operand_place(f, inst, k as int)];
            let b = s.allocs[operand_place(f, inst, i)];
            if a != b {
                let t = apply_move(
                    s,
                    ProgPoint::before(inst),
                    InsertMovePrio::ReusedInput,
                    a,
                    b,
                );
                let u = apply_set_alloc(f, t, inst, k as int, b);
                assert forall|p: int| 0 <= p < i + 1 && p < ops.len() implies ((
                #[trigger] ops[p]).policy matches OperandPolicy::Reuse(l)
                    ==> u.allocs[operand_place(f, inst, p)] == u.allocs[operand_place(
                    f,
                    inst,
                    l as int,
                )]) by {
                    if let OperandPolicy::Reuse(l) = ops[p].policy {
                        assert(operand_ok(f, inst.ix(), f.operands[inst.ix()][p]));
                        lemma_place(f, inst, p);
                        lemma_place(f, inst, l as int);
                        let _ = (ops[k as int], ops[i], ops[l as int]);
                        assert(p != k);
                        if p < i {
                            assert(s.allocs[operand_place(f, inst, p)] == s.allocs[operand_place(
                                f,
                                inst,
                                l as int,
                            )]);
                        }
                    }
                }
                lemma_reuse_operands_shared(f, u, inst, i + 1);
            } else {
                lemma_reuse_operands_shared(f, s, inst, i + 1);
            }
        } else {
            lemma_reuse_operands_shared(f, s, inst, i + 1);
        }
    }
}

/// The operands of another instruction keep their locations.
pub proof fn lemma_reuse_operands_other(f: FuncModel, s: ApplyState, inst: Inst, i: int, other: Inst)
    requires
        func_ok(f),
        inst.0 < f.insts,
        other.0 < f.insts,
        other != inst,
        0 <= i <= f.operands[inst.ix()].len(),
        s.allocs.len() == operands_before(f.operands, f.insts as int),
    ensures
        ({
            let t = apply_reuse_operands(f, s, inst, i);
            &&& t.allocs.len() == s.allocs.len()
            &&& forall|p: int|
                0 <= p < f.operands[other.ix()].len() ==> t.allocs[#[trigger] operand_place(
                    f,
                    other,
                    p,
                )] == s.allocs[operand_place(f, other, p)]
        }),
    decreases f.operands[inst.ix()].len() - i,
{
    let ops = f.operands[inst.ix()];
    if i < ops.len() {
        assert(inst_ok(f, inst.ix()));
        assert(operand_ok(f, inst.ix(), f.operands[inst.ix()][i]));
        if let OperandPolicy::Reuse(k) = ops[i].policy {
            lemma_place(f, inst, k as int);
            assert forall|p: int| 0 <= p < f.operands[other.ix()].len() implies #[trigger] operand_place(
                f,
                other,
                p,
            ) != operand_place(f, inst, k as int) && 0 <= operand_place(f, other, p)
                < s.allocs.len() by {
                lemma_place(f, other, p);
                if inst.0 < other.0 {
                    lemma_operands_before(f.operands, inst.ix(), other.ix());
                } else {
                    lemma_operands_before(f.operands, other.ix(), inst.ix());
                }
            }
            let a = s.allocs[operand_place(f, inst, k as int)];
            let b = s.allocs[operand_place(f, inst, i)];
            if a != b {
                let t = apply_move(
                    s,
                    ProgPoint::before(inst),
                    InsertMovePrio::ReusedInput,
                    a,
                    b,
                );
                let u = apply_set_alloc(f, t, inst, k as int, b);
                lemma_reuse_operands_other(f, u, inst, i + 1, other);
            } else {
                lemma_reuse_operands_other(f, s, inst, i + 1, other);
            }
        } else {
            lemma_reuse_operands_other(f, s, inst, i + 1, other);
        }
    }
}

proof fn lemma_reuse_shared(f: FuncModel, s: ApplyState, insts: Seq<Inst>, i: int, inst: Inst)
    requires
        func_ok(f),
        0 <= i <= insts.len(),
        forall|k: int| 0 <= k < insts.len() ==> (#[trigger] insts[k]).0 < f.insts,
        inst.0 < f.insts,
        s.allocs.len() == operands_before(f.operands, f.insts as int),
        reuse_clean(f, inst),
        reuse_shared(f, s.allocs, inst, f.operands[inst.ix()].len() as int) || exists|k: int|
            i <= k < insts.len() && #[trigger] insts[k] == inst,
    ensures
        reuse_shared(
            f,
            apply_reuse(f, s, insts, i).allocs,
            inst,
            f.operands[inst.ix()].len() as int,
        ),
    decreases insts.len() - i,
{
    let n = f.operands[inst.ix()].len() as int;
    if i < insts.len() {
        let t = apply_reuse_operands(f, s, insts[i], 0);
        if insts[i] == inst {
            lemma_reuse_operands_shared(f, s, inst, 0);
        } else {
            lemma_reuse_operands_other(f, s, insts[i], 0, inst);
            if reuse_shared(f, s.allocs, inst, n) {
                let ops = f.operands[inst.ix()];
                assert forall|p: int| 0 <= p < n && p < ops.len() implies ((
                #[trigger] ops[p]).policy matches OperandPolicy::Reuse(k)
                    ==> t.allocs[operand_place(f, inst, p)] == t.allocs[operand_place(
                    f,
                    inst,
                    k as int,
                )]) by {
                    assert(inst_ok(f, inst.ix()));
                    assert(operand_ok(f, inst.ix(), f.operands[inst.ix()][p]));
                }
            } else {
                let k = choose|k: int| i <= k < insts.len() && #[trigger] insts[k] == inst;
                assert(k > i);
            }
        }
        lemma_reuse_shared(f, t, insts, i + 1, inst);
    }
}

/// An output that reuses an input is where that input is read.
pub proof fn law_reused_inputs(
    x: ApplyIn,
    s: ApplyState,
    fixups: Seq<Fixup>,
    v: int,
    i: int,
    inst: Inst,
)
    requires
        apply_in_ok(x),
        apply_ok(x.c.f, s),
        0 <= v < x.g.in_vreg.len(),
        0 <= i < x.g.in_vreg[v].len(),
        defines_reuse(x, x.g.in_vreg[v][i], inst),
        reuse_clean(x.c.f, inst),
    ensures
        apply_all(x, s, fixups) matches Ok(t) ==> reuse_shared(
            x.c.f,
            t.allocs,
            inst,
            x.c.f.operands[inst.ix()].len() as int,
        ),
{
    let f = x.c.f;
    let r = x.g.in_vreg[v][i];
    lemma_below(x.g.in_vreg, x.g.ranges.len() as int, v, i);
    assert(range_ok(f, x.g, r as int));
    let d = x.g.ranges[r as int].def.ix();
    assert(mention_ok(f, x.g.defs[d].pos, x.g.defs[d].slot));
    lemma_place(f, inst, x.g.defs[d].slot as int);
    assert(reuse_from(x, v, 0, inst));
    lemma_vregs_reuse(x, s, 0, v, inst);
    match apply_vregs(x, s, 0) {
        Ok(s1) => {
            lemma_pairs_keep(f, s1, stable_sort(s1.halves), 0);
            match apply_pairs(f, s1, stable_sort(s1.halves), 0) {
                Ok(s2) => {
                    lemma_fixups_keep(x.c, s2, fixups, 0);
                    let s3 = apply_fixups(x.c, s2, fixups, 0);
                    let k = choose|k: int| 0 <= k < s1.reuse.len() && s1.reuse[k] == inst;
                    assert(s1.reuse[k] == inst);
                    lemma_reuse_shared(f, s3, s1.reuse, 0, inst);
                },
                Err(_) => {},
            }
        },
        Err(_) => {},
    }
}

} // verus!
