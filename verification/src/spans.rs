//! Where the scan over the blocks finds registers live: at the start of the blocks that they come
//! into, and at the end of the blocks before those.
use crate::cfg::{cfg_ok, CfgModel};
use crate::code_range::CodeRange;
use crate::data::LiveRange;
use crate::dom::{def_in, use_in};
use crate::flow::{defs_before, lemma_loop_members, live_at};
use crate::func::{block_ok, func_ok, inst_ok, operand_ok, FuncModel};
use crate::graph::{graph_ok, graph_set_range, range_ok, GraphState, COALESCE_LIMIT};
use crate::index::{Block, Inst};
use crate::lists::{lemma_below, lemma_neq, NIL};
use crate::live::{graph_add_live, graph_join, graph_scan, hull, lemma_distribute_frame};
use crate::liveness::{
    blocks_begin, blocks_end, def_pos, has_loop, live_out, loop_liveins, loop_start, min_position,
    order_position, reused_input, takes_param, use_pos, Ctx, PassState,
};
use crate::order::{
    in_order, lemma_grow_step, lemma_join_step, lemma_scan_order, scan_ok, vregs_in_order,
};
use crate::parts::covers;
use vstd::prelude::*;

verus! {

/// Every register stays live where it is live.
pub open spec fn spans_stay(g: GraphState, h: GraphState) -> bool {
    &&& h.in_vreg.len() == g.in_vreg.len()
    &&& forall|w: int, p: int|
        0 <= w < g.in_vreg.len() && covers(g, w, p) ==> #[trigger] covers(h, w, p)
}

/// Every register stays live where it is live, but for register `v` at the places from `lo` to `hi`.
pub open spec fn spans_stay_but(g: GraphState, h: GraphState, v: int, lo: int, hi: int) -> bool {
    &&& h.in_vreg.len() == g.in_vreg.len()
    &&& forall|w: int, p: int|
        0 <= w < g.in_vreg.len() && covers(g, w, p) && !(w == v && lo <= p < hi)
            ==> #[trigger] covers(h, w, p)
}

pub proof fn lemma_spans_trans(g: GraphState, h: GraphState, k: GraphState)
    requires
        spans_stay(g, h),
        spans_stay(h, k),
    ensures
        spans_stay(g, k),
{
    assert forall|w: int, p: int| 0 <= w < g.in_vreg.len() && covers(g, w, p) implies #[trigger] covers(
        k,
        w,
        p,
    ) by {
        assert(covers(h, w, p));
    }
}

pub proof fn lemma_spans_then(g: GraphState, h: GraphState, k: GraphState, v: int, lo: int, hi: int)
    requires
        spans_stay(g, h),
        spans_stay_but(h, k, v, lo, hi),
    ensures
        spans_stay_but(g, k, v, lo, hi),
{
    assert forall|w: int, p: int|
        0 <= w < g.in_vreg.len() && covers(g, w, p) && !(w == v && lo <= p < hi) implies #[trigger] covers(
        k,
        w,
        p,
    ) by {
        assert(covers(h, w, p));
    }
}

/// Live ranges that grow, with the same lists, lose nothing.
pub proof fn lemma_spans_grown(g: GraphState, h: GraphState)
    requires
        h.in_vreg == g.in_vreg,
        forall|w: int, k: int|
            0 <= w < g.in_vreg.len() && 0 <= k < g.in_vreg[w].len() ==> {
                let r = #[trigger] g.in_vreg[w][k];
                &&& h.ranges[r as int].range.from.ix() <= g.ranges[r as int].range.from.ix()
                &&& g.ranges[r as int].range.to.ix() <= h.ranges[r as int].range.to.ix()
            },
    ensures
        spans_stay(g, h),
{
    assert forall|w: int, p: int| 0 <= w < g.in_vreg.len() && covers(g, w, p) implies #[trigger] covers(
        h,
        w,
        p,
    ) by {
        let k = choose|k: int|
            0 <= k < g.in_vreg[w].len() && ({
                let range = g.ranges[(#[trigger] g.in_vreg[w][k]) as int].range;
                range.from.ix() <= p < range.to.ix()
            });
        let _ = g.in_vreg[w][k];
        assert(h.in_vreg[w][k] == g.in_vreg[w][k]);
    }
}

/// Tables with the same lists and the same extents.
pub proof fn lemma_spans_same(f: FuncModel, g: GraphState, h: GraphState)
    requires
        graph_ok(f, g),
        h.in_vreg == g.in_vreg,
        forall|r: int| 0 <= r < g.ranges.len() ==> (#[trigger] h.ranges[r]).range == g.ranges[r].range,
    ensures
        spans_stay(g, h),
{
    assert forall|w: int, k: int|
        0 <= w < g.in_vreg.len() && 0 <= k < g.in_vreg[w].len() implies h.ranges[(
    #[trigger] g.in_vreg[w][k]) as int].range == g.ranges[g.in_vreg[w][k] as int].range by {
        lemma_below(g.in_vreg, g.ranges.len() as int, w, k);
    }
    lemma_spans_grown(g, h);
}

proof fn lemma_join_spans(g: GraphState, v: u32, range: CodeRange, pass: bool, i: int, merged: u32)
    requires
        scan_ok(g, v, range, pass, i, merged),
        merged != NIL,
        i < g.in_vreg[v as int].len(),
        graph_join(g, v, i, merged) is Ok,
        forall|k: int|
            i <= k < g.in_vreg[v as int].len() ==> g.ranges[merged as int].range.from.ix()
                <= g.ranges[(#[trigger] g.in_vreg[v as int][k]) as int].range.from.ix(),
    ensures
        ({
            let h = graph_join(g, v, i, merged)->Ok_0;
            &&& spans_stay(g, h)
            &&& forall|k: int|
                i <= k < h.in_vreg[v as int].len() ==> h.ranges[merged as int].range.from.ix()
                    <= h.ranges[(#[trigger] h.in_vreg[v as int][k]) as int].range.from.ix()
        }),
{
    let n = g.ranges.len() as int;
    let list = g.in_vreg[v as int];
    let r = list[i];
    let lr = g.ranges[r as int];
    let m = g.ranges[merged as int];
    lemma_join_step(g, v, range, pass, i, merged);
    lemma_below(g.in_vreg, n, v as int, i);
    lemma_below(g.in_vreg, n, v as int, i - 1);
    lemma_neq(g.in_vreg, n, v as int, i, v as int, i - 1);
    let g1 = graph_set_range(
        g,
        merged,
        LiveRange {
            range: CodeRange {
                from: m.range.from,
                to: if lr.range.to.ix() > m.range.to.ix() {
                    lr.range.to
                } else {
                    m.range.to
                },
            },
            def: if lr.def.is_valid() {
                lr.def
            } else {
                m.def
            },
            ..m
        },
    );
    lemma_distribute_frame(g1, v, r, merged);
    let h = graph_join(g, v, i, merged)->Ok_0;
    let rest = list.remove(i);
    assert(h.in_vreg == g.in_vreg.update(v as int, rest));
    assert forall|k: int| 0 <= k < n && k != merged implies (#[trigger] h.ranges[k]).range
        == g.ranges[k].range by {}
    let mh = h.ranges[merged as int].range;
    assert(mh == g1.ranges[merged as int].range);
    assert forall|w: int, p: int| 0 <= w < g.in_vreg.len() && covers(g, w, p) implies #[trigger] covers(
        h,
        w,
        p,
    ) by {
        let k = choose|k: int|
            0 <= k < g.in_vreg[w].len() && ({
                let range = g.ranges[(#[trigger] g.in_vreg[w][k]) as int].range;
                range.from.ix() <= p < range.to.ix()
            });
        lemma_below(g.in_vreg, n, w, k);
        if w != v {
            lemma_neq(g.in_vreg, n, w, k, v as int, i - 1);
            assert(h.in_vreg[w][k] == g.in_vreg[w][k]);
        } else if k < i {
            assert(rest[k] == list[k]);
            if k != i - 1 {
                lemma_neq(g.in_vreg, n, w, k, v as int, i - 1);
            }
            assert(h.in_vreg[w][k] == list[k]);
        } else if k > i {
            lemma_neq(g.in_vreg, n, w, k, v as int, i - 1);
            assert(rest[k - 1] == list[k]);
            assert(h.in_vreg[w][k - 1] == list[k]);
        } else {
            assert(rest[i - 1] == merged);
            assert(h.in_vreg[w][i - 1] == merged);
        }
    }
    assert forall|k: int| i <= k < h.in_vreg[v as int].len() implies mh.from.ix() <= h.ranges[(
    #[trigger] h.in_vreg[v as int][k]) as int].range.from.ix() by {
        assert(h.in_vreg[v as int][k] == list[k + 1]);
        lemma_below(g.in_vreg, n, v as int, k + 1);
        lemma_neq(g.in_vreg, n, v as int, k + 1, v as int, i - 1);
    }
}

proof fn lemma_scan_spans(g: GraphState, v: u32, range: CodeRange, pass: bool, i: int, merged: u32)
    requires
        scan_ok(g, v, range, pass, i, merged),
        range.from.ix() < range.to.ix(),
        graph_scan(g, v, range, pass, i, merged) is Ok,
        merged != NIL ==> forall|k: int|
            i <= k < g.in_vreg[v as int].len() ==> g.ranges[merged as int].range.from.ix()
                <= g.ranges[(#[trigger] g.in_vreg[v as int][k]) as int].range.from.ix(),
    ensures
        spans_stay(g, graph_scan(g, v, range, pass, i, merged)->Ok_0.g),
    decreases g.in_vreg[v as int].len() - i,
{
    let n = g.ranges.len() as int;
    let list = g.in_vreg[v as int];
    if i < list.len() {
        let r = list[i];
        let lr = g.ranges[r as int];
        lemma_below(g.in_vreg, n, v as int, i);
        if range.from.ix() >= lr.range.to.ix() && pass {
            lemma_scan_spans(g, v, range, pass, i + 1, merged);
        } else if range.to.ix() <= lr.range.from.ix() {
        } else if merged == NIL {
            let h = graph_set_range(g, r, LiveRange { range: hull(lr.range, range), ..lr });
            lemma_grow_step(g, v, range, pass, i);
            assert forall|w: int, k: int|
                0 <= w < g.in_vreg.len() && 0 <= k < g.in_vreg[w].len() implies {
                let x = #[trigger] g.in_vreg[w][k];
                &&& h.ranges[x as int].range.from.ix() <= g.ranges[x as int].range.from.ix()
                &&& g.ranges[x as int].range.to.ix() <= h.ranges[x as int].range.to.ix()
            } by {
                lemma_below(g.in_vreg, n, w, k);
            }
            lemma_spans_grown(g, h);
            assert forall|k: int| i + 1 <= k < h.in_vreg[v as int].len() implies h.ranges[r as int].range.from.ix()
                <= h.ranges[(#[trigger] h.in_vreg[v as int][k]) as int].range.from.ix() by {
                lemma_below(g.in_vreg, n, v as int, k);
                lemma_neq(g.in_vreg, n, v as int, k, v as int, i);
                assert(lr.range.precedes(g.ranges[list[k] as int].range));
            }
            lemma_scan_spans(h, v, range, pass, i + 1, r);
            lemma_spans_trans(g, h, graph_scan(h, v, range, pass, i + 1, r)->Ok_0.g);
        } else {
            lemma_join_step(g, v, range, pass, i, merged);
            lemma_join_spans(g, v, range, pass, i, merged);
            let h = graph_join(g, v, i, merged)->Ok_0;
            lemma_scan_spans(h, v, range, pass, i, merged);
            lemma_spans_trans(g, h, graph_scan(h, v, range, pass, i, merged)->Ok_0.g);
        }
    }
}

/// A register that becomes live over a range takes nothing from what is live.
pub proof fn lemma_live_spans(f: FuncModel, g: GraphState, v: u32, range: CodeRange, num_ranges: int)
    requires
        graph_ok(f, g),
        vregs_in_order(g),
        v < f.num_vregs,
        range.within(f.insts),
        graph_add_live(g, v, range, num_ranges) is Ok,
    ensures
        spans_stay(g, graph_add_live(g, v, range, num_ranges)->Ok_0.g),
{
    let pass = num_ranges < COALESCE_LIMIT;
    let a = graph_add_live(g, v, range, num_ranges)->Ok_0;
    assert(in_order(g.ranges, g.in_vreg[v as int]));
    assert forall|r: int| 0 <= r < g.ranges.len() implies (#[trigger] g.ranges[r]).range.from.ix()
        < g.ranges[r].range.to.ix() by {
        assert(range_ok(f, g, r));
    }
    lemma_scan_spans(g, v, range, pass, 0, NIL);
    lemma_scan_order(g, v, range, pass, 0, NIL);
    let s = graph_scan(g, v, range, pass, 0, NIL)->Ok_0;
    if s.merged == NIL {
        let n = s.g.ranges.len() as int;
        let new = s.g.in_vreg[v as int].insert(s.at, a.lr);
        assert(a.g.in_vreg == s.g.in_vreg.update(v as int, new));
        assert forall|w: int, p: int|
            0 <= w < s.g.in_vreg.len() && covers(s.g, w, p) implies #[trigger] covers(a.g, w, p) by {
            let k = choose|k: int|
                0 <= k < s.g.in_vreg[w].len() && ({
                    let range = s.g.ranges[(#[trigger] s.g.in_vreg[w][k]) as int].range;
                    range.from.ix() <= p < range.to.ix()
                });
            lemma_below(s.g.in_vreg, n, w, k);
            let k1 = if w == v && k >= s.at {
                k + 1
            } else {
                k
            };
            assert(a.g.in_vreg[w][k1] == s.g.in_vreg[w][k]);
        }
        lemma_spans_trans(g, s.g, a.g);
    }
}

/// A live range that is trimmed at its beginning loses only what was before.
pub proof fn lemma_spans_trimmed(f: FuncModel, g: GraphState, lr: u32, t: LiveRange)
    requires
        graph_ok(f, g),
        lr < g.ranges.len(),
        t.range.to == g.ranges[lr as int].range.to,
    ensures
        spans_stay_but(
            g,
            graph_set_range(g, lr, t),
            g.ranges[lr as int].vreg.ix(),
            g.ranges[lr as int].range.from.ix(),
            t.range.from.ix(),
        ),
{
    let h = graph_set_range(g, lr, t);
    let v = g.ranges[lr as int].vreg.ix();
    assert forall|w: int, p: int|
        0 <= w < g.in_vreg.len() && covers(g, w, p) && !(w == v
            && g.ranges[lr as int].range.from.ix() <= p < t.range.from.ix()) implies #[trigger] covers(
        h,
        w,
        p,
    ) by {
        let k = choose|k: int|
            0 <= k < g.in_vreg[w].len() && ({
                let range = g.ranges[(#[trigger] g.in_vreg[w][k]) as int].range;
                range.from.ix() <= p < range.to.ix()
            });
        lemma_below(g.in_vreg, g.ranges.len() as int, w, k);
        assert(h.in_vreg[w][k] == g.in_vreg[w][k]);
        assert(g.ranges[g.in_vreg[w][k] as int].vreg.0 == w);
    }
}

/// Is there an edge between the blocks, known to both?
pub open spec fn joined(f: FuncModel, from: Block, to: Block) -> bool {
    f.succs[from.ix()].contains(to) && f.preds[to.ix()].contains(from)
}

/// The last instruction of a block.
pub open spec fn last_inst(f: FuncModel, b: Block) -> int {
    f.insns[b.ix()].to.0 - 1
}

/// Is operand `k` of the branch at the end of the block a use?
pub open spec fn is_read(f: FuncModel, b: Block, k: int) -> bool {
    let last = last_inst(f, b);
    &&& f.branches[last]
    &&& 0 <= k < f.operands[last].len()
    &&& f.operands[last][k].kind is Use
}

/// What is live at the blocks before position `at` of the order: registers that are live at the
/// start of a block, and its parameters, are live at its first point. Registers that are live at
/// the start of a block are live at the last point of the blocks before it, and so are those that
/// branches read.
#[verifier::opaque]
pub open spec fn edges_live(c: Ctx, s: PassState, at: int) -> bool {
    let order = c.cfg.postorder;
    &&& forall|j: int, v: int|
        0 <= j < at && 0 <= v < c.f.num_vregs && #[trigger] live_at(c, s.liveins, j, v) ==> covers(
            s.g,
            v,
            c.cfg.block_entry[order[j].ix()].ix(),
        )
    &&& forall|j: int, k: int, v: int|
        #![trigger live_at(c, s.liveins, j, v), order[k]]
        0 <= j < at && 0 <= k < at && 0 <= v < c.f.num_vregs && live_at(c, s.liveins, j, v)
            && joined(c.f, order[k], order[j]) ==> covers(
            s.g,
            v,
            c.cfg.block_exit[order[k].ix()].ix(),
        )
    &&& forall|j: int, k: int|
        #![trigger c.f.params[order[j].ix()][k]]
        0 <= j < at && 0 <= k < c.f.params[order[j].ix()].len() ==> covers(
            s.g,
            c.f.params[order[j].ix()][k].ix(),
            c.cfg.block_entry[order[j].ix()].ix(),
        )
    &&& forall|j: int, k: int|
        0 <= j < at && #[trigger] is_read(c.f, order[j], k) ==> covers(
            s.g,
            c.f.operands[last_inst(c.f, order[j])][k].vreg.ix(),
            c.cfg.block_exit[order[j].ix()].ix(),
        )
    &&& wanted(c, s.liveins, at)
    &&& lived(c, s.g, s.liveins, at)
}

/// Is register `v` live at the start of a block, before position `at` of the order, that block `b`
/// leads to?
pub open spec fn goes_on(c: Ctx, liveins: Seq<Set<int>>, at: int, b: Block, v: int) -> bool {
    exists|l: int|
        0 <= l < at && #[trigger] live_at(c, liveins, l, v) && joined(
            c.f,
            b,
            c.cfg.postorder[l],
        )
}

/// Does operand `k` of instruction `i` of block `b` use register `v` at place `p` or later?
pub open spec fn used_from(c: Ctx, b: Block, v: int, p: int, i: int, k: int) -> bool {
    let op = c.f.operands[i][k];
    &&& c.f.insns[b.ix()].has(i)
    &&& 0 <= k < c.f.operands[i].len()
    &&& op.kind is Use
    &&& op.vreg.vreg == v
    &&& use_pos(c, b, Inst(i as u32), reused_input(c.f.operands[i], 0), k).ix() >= p
}

/// Is place `p` one of the block at position `j` of the order, no definition of register `v` in the
/// block after it, and the register used in the block from there on, or live after the block?
pub open spec fn lives_at(
    c: Ctx,
    liveins: Seq<Set<int>>,
    at: int,
    j: int,
    v: int,
    p: int,
) -> bool {
    let b = c.cfg.postorder[j];
    &&& 0 <= v < c.f.num_vregs
    &&& c.cfg.block_entry[b.ix()].ix() <= p <= c.cfg.block_exit[b.ix()].ix()
    &&& defs_before(c, b, v, p + 1)
    &&& goes_on(c, liveins, at, b, v) || exists|i: int, k: int| #[trigger]
        used_from(c, b, v, p, i, k)
}

/// In the blocks before position `at` of the order registers are live from their definitions on, up
/// to their last use or the end of the block.
#[verifier::opaque]
pub open spec fn lived(c: Ctx, g: GraphState, liveins: Seq<Set<int>>, at: int) -> bool {
    forall|j: int, v: int, p: int|
        0 <= j < at && #[trigger] lives_at(c, liveins, at, j, v, p) ==> covers(g, v, p)
}

/// Is the operand one of those that are entered: of the instructions from number `end` on, or one of
/// the first `slot` of the instruction before them?
pub open spec fn is_entered(end: int, slot: int, i: int, k: int) -> bool {
    i >= end || i == end - 1 && k < slot
}

/// As `lives_at` for the block at position `at`, for the operands that are entered.
pub open spec fn lives_in(
    c: Ctx,
    liveins: Seq<Set<int>>,
    at: int,
    end: int,
    slot: int,
    v: int,
    p: int,
) -> bool {
    let b = c.cfg.postorder[at];
    &&& 0 <= v < c.f.num_vregs
    &&& c.cfg.block_entry[b.ix()].ix() <= p <= c.cfg.block_exit[b.ix()].ix()
    &&& forall|i: int, k: int|
        c.f.insns[b.ix()].has(i) && 0 <= k < c.f.operands[i].len() && (
        #[trigger] c.f.operands[i][k]).kind is Def && c.f.operands[i][k].vreg.vreg == v && is_entered(
            end,
            slot,
            i,
            k,
        ) ==> def_pos(c.f.operands[i][k], Inst(i as u32)).ix() <= p
    &&& goes_on(c, liveins, at, b, v) || exists|i: int, k: int| #[trigger]
        used_from(c, b, v, p, i, k) && is_entered(end, slot, i, k)
}

/// In the block at position `at` of the order registers are live from those of their definitions
/// that are entered on, up to their last use that is entered or the end of the block.
#[verifier::opaque]
pub open spec fn lived_in(
    c: Ctx,
    g: GraphState,
    liveins: Seq<Set<int>>,
    at: int,
    end: int,
    slot: int,
) -> bool {
    forall|v: int, p: int| #[trigger]
        lives_in(c, liveins, at, end, slot, v, p) ==> covers(g, v, p)
}

/// One register may lose places in another block.
proof fn lemma_lived_kept(
    c: Ctx,
    g: GraphState,
    h: GraphState,
    liveins: Seq<Set<int>>,
    at: int,
    b: Block,
    v: int,
    hi: int,
)
    requires
        func_ok(c.f),
        cfg_ok(c.f, c.cfg),
        0 <= at <= c.cfg.postorder.len(),
        lived(c, g, liveins, at),
        g.in_vreg.len() == c.f.num_vregs,
        b.0 < c.f.blocks,
        forall|j: int| 0 <= j < at ==> #[trigger] c.cfg.postorder[j] != b,
        spans_stay_but(g, h, v, c.cfg.block_entry[b.ix()].ix(), hi),
        hi <= c.cfg.block_exit[b.ix()].ix(),
    ensures
        lived(c, h, liveins, at),
{
    reveal(lived);
    assert forall|j: int, w: int, p: int|
        0 <= j < at && #[trigger] lives_at(c, liveins, at, j, w, p) implies covers(h, w, p) by {
        assert(c.cfg.postorder[j].0 < c.f.blocks);
        lemma_blocks_apart(c, c.cfg.postorder[j].ix(), b.ix());
        assert(covers(g, w, p));
    }
}

/// A step within the block: register `v` may lose places before `hi`, where a definition of it is
/// entered.
proof fn lemma_lived_in_kept(
    c: Ctx,
    g: GraphState,
    h: GraphState,
    liveins: Seq<Set<int>>,
    at: int,
    end: int,
    slot: int,
    v: int,
    hi: int,
    slot2: int,
)
    requires
        0 <= at < c.cfg.postorder.len(),
        lived_in(c, g, liveins, at, end, slot),
        g.in_vreg.len() == c.f.num_vregs,
        slot <= slot2,
        spans_stay_but(g, h, v, c.cfg.block_entry[c.cfg.postorder[at].ix()].ix(), hi),
        hi <= c.cfg.block_entry[c.cfg.postorder[at].ix()].ix() || exists|k: int|
            slot <= k < slot2 && 0 <= k < c.f.operands[end - 1].len() && (
            #[trigger] c.f.operands[end - 1][k]).kind is Def && c.f.operands[end - 1][k].vreg.vreg
                == v && c.f.insns[c.cfg.postorder[at].ix()].has(end - 1) && def_pos(
                c.f.operands[end - 1][k],
                Inst((end - 1) as u32),
            ).ix() == hi,
        forall|w: int, p: int, k: int|
            slot <= k < slot2 && #[trigger] used_from(
                c,
                c.cfg.postorder[at],
                w,
                p,
                end - 1,
                k,
            ) && c.cfg.block_entry[c.cfg.postorder[at].ix()].ix() <= p ==> covers(h, w, p),
    ensures
        lived_in(c, h, liveins, at, end, slot2),
{
    reveal(lived_in);
    let b = c.cfg.postorder[at];
    assert forall|w: int, p: int| #[trigger]
        lives_in(c, liveins, at, end, slot2, w, p) implies covers(h, w, p) by {
        if w == v && c.cfg.block_entry[b.ix()].ix() <= p < hi {
            let k = choose|k: int|
                slot <= k < slot2 && 0 <= k < c.f.operands[end - 1].len() && (
                #[trigger] c.f.operands[end - 1][k]).kind is Def
                    && c.f.operands[end - 1][k].vreg.vreg == v && c.f.insns[b.ix()].has(end - 1)
                    && def_pos(c.f.operands[end - 1][k], Inst((end - 1) as u32)).ix() == hi;
            assert(is_entered(end, slot2, end - 1, k));
            assert(hi <= p);
        }
        if !goes_on(c, liveins, at, b, w) {
            let (i, k) = choose|i: int, k: int| #[trigger]
                used_from(c, b, w, p, i, k) && is_entered(end, slot2, i, k);
            if !is_entered(end, slot, i, k) {
                assert(covers(h, w, p));
            } else {
                assert(lives_in(c, liveins, at, end, slot, w, p));
            }
        } else {
            assert(lives_in(c, liveins, at, end, slot, w, p));
        }
    }
}

/// The same operands are entered.
proof fn lemma_lived_in_counted(
    c: Ctx,
    g: GraphState,
    liveins: Seq<Set<int>>,
    at: int,
    end: int,
    slot: int,
    end2: int,
    slot2: int,
)
    requires
        lived_in(c, g, liveins, at, end, slot),
        forall|i: int, k: int|
            c.f.insns[c.cfg.postorder[at].ix()].has(i) && 0 <= k < c.f.operands[i].len()
                ==> #[trigger] is_entered(end2, slot2, i, k) == is_entered(end, slot, i, k),
    ensures
        lived_in(c, g, liveins, at, end2, slot2),
{
    reveal(lived_in);
    let b = c.cfg.postorder[at];
    assert forall|w: int, p: int| #[trigger]
        lives_in(c, liveins, at, end2, slot2, w, p) implies covers(g, w, p) by {
        assert forall|i: int, k: int|
            c.f.insns[b.ix()].has(i) && 0 <= k < c.f.operands[i].len() && (
            #[trigger] c.f.operands[i][k]).kind is Def && c.f.operands[i][k].vreg.vreg == w
                && is_entered(end, slot, i, k) implies def_pos(
            c.f.operands[i][k],
            Inst(i as u32),
        ).ix() <= p by {
            assert(is_entered(end2, slot2, i, k));
        }
        if !goes_on(c, liveins, at, b, w) {
            let (i, k) = choose|i: int, k: int| #[trigger]
                used_from(c, b, w, p, i, k) && is_entered(end2, slot2, i, k);
            assert(used_from(c, b, w, p, i, k) && is_entered(end, slot, i, k));
        }
        assert(lives_in(c, liveins, at, end, slot, w, p));
    }
}

/// Is register `v` neither defined in block `b` nor a parameter of it?
pub open spec fn comes_in(f: FuncModel, v: int, b: Block) -> bool {
    !def_in(f, v, b) && !takes_param(f, b, v as u32)
}

/// Registers that a block before position `at` of the order uses, or that are live after it, are live
/// at its start if they come into it.
#[verifier::opaque]
pub open spec fn wanted(c: Ctx, liveins: Seq<Set<int>>, at: int) -> bool {
    let order = c.cfg.postorder;
    &&& forall|j: int, v: int|
        #![trigger use_in(c.f, v, order[j])]
        0 <= j < at && use_in(c.f, v, order[j]) && comes_in(c.f, v, order[j]) ==> live_at(
            c,
            liveins,
            j,
            v,
        )
    &&& forall|j: int, k: int, v: int|
        #![trigger live_at(c, liveins, j, v), order[k]]
        0 <= j < at && 0 <= k < at && live_at(c, liveins, j, v) && joined(c.f, order[k], order[j])
            && comes_in(c.f, v, order[k]) ==> live_at(c, liveins, k, v)
}

/// What is wanted within the block at position `at`, with its instructions from number `end` on
/// entered, and the first `slot` operands of the one before them.
#[verifier::opaque]
pub open spec fn wanted_in(
    c: Ctx,
    live: Set<int>,
    liveins: Seq<Set<int>>,
    at: int,
    end: int,
    slot: int,
) -> bool {
    let order = c.cfg.postorder;
    let b = order[at];
    &&& wanted(c, liveins, at)
    &&& forall|i: int, k: int|
        c.f.insns[b.ix()].has(i) && 0 <= k < c.f.operands[i].len() && (
        #[trigger] c.f.operands[i][k]).kind is Use && (i >= end || i == end - 1 && k < slot)
            && comes_in(c.f, c.f.operands[i][k].vreg.ix(), b) ==> live.contains(
            c.f.operands[i][k].vreg.ix(),
        )
    &&& forall|j: int, v: int|
        0 <= j < at && #[trigger] live_at(c, liveins, j, v) && joined(c.f, b, order[j])
            && comes_in(c.f, v, b) ==> live.contains(v)
}

/// Registers that come into the block stay live.
proof fn lemma_wanted_kept(
    c: Ctx,
    live: Set<int>,
    live2: Set<int>,
    liveins: Seq<Set<int>>,
    at: int,
    end: int,
    slot: int,
    slot2: int,
)
    requires
        wanted_in(c, live, liveins, at, end, slot),
        stays_live(c, live, live2, at),
        forall|k: int|
            c.f.insns[c.cfg.postorder[at].ix()].has(end - 1) && 0 <= k < c.f.operands[end - 1].len()
                && slot <= k < slot2 && (#[trigger] c.f.operands[end - 1][k]).kind is Use
                ==> live2.contains(c.f.operands[end - 1][k].vreg.ix()),
    ensures
        wanted_in(c, live2, liveins, at, end, slot2),
{
    reveal(wanted_in);
}

/// Registers that come into the block at position `at` stay live.
pub open spec fn stays_live(c: Ctx, live: Set<int>, live2: Set<int>, at: int) -> bool {
    forall|v: int|
        live.contains(v) && #[trigger] comes_in(c.f, v, c.cfg.postorder[at]) ==> live2.contains(v)
}

/// What is live within the block at position `at`, with its instructions from number `end` on
/// entered, and of the one before them the operands before `slot`: registers that are live are live
/// from the first point of the block on, and those that are live over edges out of the block, or
/// read by its branch, are live at its last point.
#[verifier::opaque]
pub open spec fn edges_live_in(c: Ctx, s: PassState, at: int, end: int, slot: int) -> bool {
    let order = c.cfg.postorder;
    let b = order[at];
    &&& edges_live(c, s, at)
    &&& forall|v: int|
        0 <= v < c.f.num_vregs && #[trigger] s.live.contains(v) ==> covers(
            s.g,
            v,
            c.cfg.block_entry[b.ix()].ix(),
        )
    &&& forall|j: int, v: int|
        0 <= j < at && 0 <= v < c.f.num_vregs && #[trigger] live_at(c, s.liveins, j, v) && joined(
            c.f,
            b,
            order[j],
        ) ==> covers(s.g, v, c.cfg.block_exit[b.ix()].ix())
    &&& forall|k: int|
        #[trigger] is_read(c.f, b, k) && (last_inst(c.f, b) >= end || last_inst(c.f, b) == end - 1
            && k < slot) ==> covers(
            s.g,
            c.f.operands[last_inst(c.f, b)][k].vreg.ix(),
            c.cfg.block_exit[b.ix()].ix(),
        )
    &&& wanted_in(c, s.live, s.liveins, at, end, slot)
    &&& lived_in(c, s.g, s.liveins, at, end, slot)
}

/// Blocks do not reach into each other.
pub proof fn lemma_blocks_apart(c: Ctx, a: int, b: int)
    requires
        func_ok(c.f),
        cfg_ok(c.f, c.cfg),
        0 <= a < c.f.blocks,
        0 <= b < c.f.blocks,
    ensures
        c.cfg.block_entry[a].ix() < c.cfg.block_exit[a].ix(),
        a < b ==> c.cfg.block_exit[a].ix() < c.cfg.block_entry[b].ix(),
        b < a ==> c.cfg.block_exit[b].ix() < c.cfg.block_entry[a].ix(),
        c.cfg.block_entry[b].ix() < c.cfg.block_exit[b].ix(),
{
    assert(block_ok(c.f, a));
    assert(block_ok(c.f, b));
    let _ = (c.f.insns[a], c.f.insns[b]);
}

/// One register may lose places in the block before its last point.
pub proof fn lemma_edges_kept(c: Ctx, s: PassState, t: PassState, at: int, b: Block, v: int, hi: int)
    requires
        func_ok(c.f),
        cfg_ok(c.f, c.cfg),
        0 <= at <= c.cfg.postorder.len(),
        edges_live(c, s, at),
        t.liveins == s.liveins,
        s.g.in_vreg.len() == c.f.num_vregs,
        b.0 < c.f.blocks,
        forall|j: int| 0 <= j < at ==> #[trigger] c.cfg.postorder[j] != b,
        spans_stay_but(s.g, t.g, v, c.cfg.block_entry[b.ix()].ix(), hi),
        hi <= c.cfg.block_exit[b.ix()].ix(),
    ensures
        edges_live(c, t, at),
{
    reveal(edges_live);
    lemma_lived_kept(c, s.g, t.g, s.liveins, at, b, v, hi);
    let order = c.cfg.postorder;
    assert forall|j: int| 0 <= j < at implies {
        &&& (#[trigger] order[j]).0 < c.f.blocks
        &&& !(c.cfg.block_entry[b.ix()].ix() <= c.cfg.block_entry[order[j].ix()].ix() < hi)
        &&& !(c.cfg.block_entry[b.ix()].ix() <= c.cfg.block_exit[order[j].ix()].ix() < hi)
    } by {
        lemma_blocks_apart(c, order[j].ix(), b.ix());
        assert(order[j] != b);
    }
    assert forall|j: int, k: int|
        #![trigger c.f.params[order[j].ix()][k]]
        0 <= j < at && 0 <= k < c.f.params[order[j].ix()].len() implies covers(
        t.g,
        c.f.params[order[j].ix()][k].ix(),
        c.cfg.block_entry[order[j].ix()].ix(),
    ) by {
        assert(block_ok(c.f, order[j].ix()));
    }
    assert forall|j: int, k: int| 0 <= j < at && #[trigger] is_read(c.f, order[j], k) implies covers(
        t.g,
        c.f.operands[last_inst(c.f, order[j])][k].vreg.ix(),
        c.cfg.block_exit[order[j].ix()].ix(),
    ) by {
        lemma_read_below(c.f, order[j], k);
    }
}

/// The registers that a branch reads exist.
pub proof fn lemma_read_below(f: FuncModel, b: Block, k: int)
    requires
        func_ok(f),
        b.0 < f.blocks,
        is_read(f, b, k),
    ensures
        0 <= f.operands[last_inst(f, b)][k].vreg.ix() < f.num_vregs,
{
    assert(block_ok(f, b.ix()));
    assert(inst_ok(f, last_inst(f, b)));
    assert(operand_ok(f, last_inst(f, b), f.operands[last_inst(f, b)][k]));
}

/// What a step within the block at position `at` leaves: register `v` may lose places before `hi`.
proof fn lemma_in_kept(
    c: Ctx,
    s: PassState,
    t: PassState,
    at: int,
    end: int,
    slot: int,
    v: int,
    hi: int,
    slot2: int,
)
    requires
        func_ok(c.f),
        cfg_ok(c.f, c.cfg),
        0 <= at < c.cfg.postorder.len(),
        edges_live_in(c, s, at, end, slot),
        t.liveins == s.liveins,
        s.g.in_vreg.len() == c.f.num_vregs,
        spans_stay_but(s.g, t.g, v, c.cfg.block_entry[c.cfg.postorder[at].ix()].ix(), hi),
        hi <= c.cfg.block_exit[c.cfg.postorder[at].ix()].ix(),
        forall|w: int|
            0 <= w < c.f.num_vregs && #[trigger] t.live.contains(w) ==> s.live.contains(w) && w != v
                || covers(t.g, w, c.cfg.block_entry[c.cfg.postorder[at].ix()].ix()),
        forall|k: int|
            #[trigger] is_read(c.f, c.cfg.postorder[at], k) && last_inst(
                c.f,
                c.cfg.postorder[at],
            ) == end - 1 && slot <= k < slot2 ==> covers(
                t.g,
                c.f.operands[last_inst(c.f, c.cfg.postorder[at])][k].vreg.ix(),
                c.cfg.block_exit[c.cfg.postorder[at].ix()].ix(),
            ),
        stays_live(c, s.live, t.live, at),
        forall|k: int|
            c.f.insns[c.cfg.postorder[at].ix()].has(end - 1) && 0 <= k < c.f.operands[end - 1].len()
                && slot <= k < slot2 && (#[trigger] c.f.operands[end - 1][k]).kind is Use
                ==> t.live.contains(c.f.operands[end - 1][k].vreg.ix()),
        lived_in(c, t.g, s.liveins, at, end, slot2),
    ensures
        edges_live_in(c, t, at, end, slot2),
{
    reveal(edges_live_in);
    lemma_wanted_kept(c, s.live, t.live, s.liveins, at, end, slot, slot2);
    let b = c.cfg.postorder[at];
    assert(b.0 < c.f.blocks);
    lemma_edges_kept(c, s, t, at, b, v, hi);
    assert forall|k: int|
        #[trigger] is_read(c.f, b, k) && (last_inst(c.f, b) >= end || last_inst(c.f, b) == end - 1
            && k < slot2) implies covers(
        t.g,
        c.f.operands[last_inst(c.f, b)][k].vreg.ix(),
        c.cfg.block_exit[b.ix()].ix(),
    ) by {
        lemma_read_below(c.f, b, k);
    }
}

proof fn lemma_in_lived(c: Ctx, s: PassState, at: int, end: int, slot: int)
    requires
        edges_live_in(c, s, at, end, slot),
    ensures
        lived_in(c, s.g, s.liveins, at, end, slot),
{
    reveal(edges_live_in);
}

/// Nothing is lost, and nothing else becomes live.
pub proof fn lemma_in_same(c: Ctx, s: PassState, t: PassState, at: int, end: int, slot: int)
    requires
        func_ok(c.f),
        cfg_ok(c.f, c.cfg),
        0 <= at < c.cfg.postorder.len(),
        edges_live_in(c, s, at, end, slot),
        t.liveins == s.liveins,
        s.g.in_vreg.len() == c.f.num_vregs,
        spans_stay(s.g, t.g),
        t.live.subset_of(s.live),
        stays_live(c, s.live, t.live, at),
    ensures
        edges_live_in(c, t, at, end, slot),
{
    let b = c.cfg.postorder[at];
    assert(b.0 < c.f.blocks);
    lemma_blocks_apart(c, b.ix(), b.ix());
    let lo = c.cfg.block_entry[b.ix()].ix();
    assert(spans_stay_but(s.g, t.g, -1, lo, lo));
    lemma_in_lived(c, s, at, end, slot);
    lemma_lived_in_kept(c, s.g, t.g, s.liveins, at, end, slot, -1, lo, slot);
    lemma_in_kept(c, s, t, at, end, slot, -1, lo, slot);
}

/// A use is entered.
pub proof fn lemma_in_use(c: Ctx, s: PassState, t: PassState, at: int, i: int, k: int)
    requires
        func_ok(c.f),
        cfg_ok(c.f, c.cfg),
        0 <= at < c.cfg.postorder.len(),
        edges_live_in(c, s, at, i + 1, k),
        t.liveins == s.liveins,
        s.g.in_vreg.len() == c.f.num_vregs,
        spans_stay(s.g, t.g),
        t.live == s.live.insert(c.f.operands[i][k].vreg.ix()),
        covers(
            t.g,
            c.f.operands[i][k].vreg.ix(),
            c.cfg.block_entry[c.cfg.postorder[at].ix()].ix(),
        ),
        c.f.branches[i] ==> covers(
            t.g,
            c.f.operands[i][k].vreg.ix(),
            c.cfg.block_exit[c.cfg.postorder[at].ix()].ix(),
        ),
        forall|p: int|
            c.cfg.block_entry[c.cfg.postorder[at].ix()].ix() <= p <= use_pos(
                c,
                c.cfg.postorder[at],
                Inst(i as u32),
                reused_input(c.f.operands[i], 0),
                k,
            ).ix() ==> #[trigger] covers(t.g, c.f.operands[i][k].vreg.ix(), p),
    ensures
        edges_live_in(c, t, at, i + 1, k + 1),
{
    let b = c.cfg.postorder[at];
    assert(b.0 < c.f.blocks);
    lemma_blocks_apart(c, b.ix(), b.ix());
    let lo = c.cfg.block_entry[b.ix()].ix();
    assert(spans_stay_but(s.g, t.g, -1, lo, lo));
    lemma_in_lived(c, s, at, i + 1, k);
    lemma_lived_in_kept(c, s.g, t.g, s.liveins, at, i + 1, k, -1, lo, k + 1);
    lemma_in_kept(c, s, t, at, i + 1, k, -1, lo, k + 1);
}

/// A definition is entered.
pub proof fn lemma_in_def(c: Ctx, s: PassState, t: PassState, at: int, i: int, k: int, hi: int)
    requires
        func_ok(c.f),
        cfg_ok(c.f, c.cfg),
        0 <= at < c.cfg.postorder.len(),
        edges_live_in(c, s, at, i + 1, k),
        t.liveins == s.liveins,
        s.g.in_vreg.len() == c.f.num_vregs,
        c.f.insns[c.cfg.postorder[at].ix()].has(i),
        0 <= k < c.f.operands[i].len(),
        c.f.operands[i][k].kind is Def,
        spans_stay_but(
            s.g,
            t.g,
            c.f.operands[i][k].vreg.ix(),
            c.cfg.block_entry[c.cfg.postorder[at].ix()].ix(),
            hi,
        ),
        hi <= c.cfg.block_exit[c.cfg.postorder[at].ix()].ix(),
        hi == def_pos(c.f.operands[i][k], Inst(i as u32)).ix(),
        t.live == s.live.remove(c.f.operands[i][k].vreg.ix()),
    ensures
        edges_live_in(c, t, at, i + 1, k + 1),
{
    assert(def_in(c.f, c.f.operands[i][k].vreg.ix(), c.cfg.postorder[at]));
    let v = c.f.operands[i][k].vreg.ix();
    lemma_in_lived(c, s, at, i + 1, k);
    assert(c.f.operands[i + 1 - 1][k].kind is Def);
    lemma_lived_in_kept(c, s.g, t.g, s.liveins, at, i + 1, k, v, hi, k + 1);
    lemma_in_kept(c, s, t, at, i + 1, k, c.f.operands[i][k].vreg.ix(), hi, k + 1);
}

/// All operands of an instruction are entered.
pub proof fn lemma_in_inst(c: Ctx, s: PassState, at: int, i: int, n: int)
    requires
        edges_live_in(c, s, at, i + 1, n),
        n == c.f.operands[i].len(),
    ensures
        edges_live_in(c, s, at, i, 0),
{
    reveal(edges_live_in);
    reveal(wanted_in);
    lemma_lived_in_counted(c, s.g, s.liveins, at, i + 1, n, i, 0);
}

/// No instruction of the block is entered yet.
pub proof fn lemma_in_begun(c: Ctx, s: PassState, at: int, end: int)
    requires
        edges_live_in(c, s, at, end, 0),
        end >= c.f.insns[c.cfg.postorder[at].ix()].to.0,
    ensures
        edges_live_in(c, s, at, c.f.insns[c.cfg.postorder[at].ix()].to.0 as int, 0),
{
    reveal(edges_live_in);
    reveal(wanted_in);
    let to = c.f.insns[c.cfg.postorder[at].ix()].to.0 as int;
    lemma_lived_in_counted(c, s.g, s.liveins, at, end, 0, to, 0);
}

/// The first `n` registers that are live are live over the range.
pub open spec fn spanned(g: GraphState, live: Set<int>, range: CodeRange, n: int) -> bool {
    forall|w: int, p: int|
        0 <= w < n && live.contains(w) && range.from.ix() <= p < range.to.ix() ==> #[trigger] covers(
            g,
            w,
            p,
        )
}

pub proof fn lemma_live_out_has(liveins: Seq<Set<int>>, succs: Seq<Block>, n: int, k: int, v: int)
    requires
        0 <= k < n <= succs.len(),
        liveins[succs[k].ix()].contains(v),
    ensures
        live_out(liveins, succs, n).contains(v),
    decreases n,
{
    if k < n - 1 {
        lemma_live_out_has(liveins, succs, n - 1, k, v);
    }
}

/// The scan of a block begins: what is live at the start of its successors is live over all of it.
pub proof fn lemma_in_start(c: Ctx, s: PassState, t: PassState, at: int)
    requires
        func_ok(c.f),
        cfg_ok(c.f, c.cfg),
        0 <= at < c.cfg.postorder.len(),
        edges_live(c, s, at),
        s.g.in_vreg.len() == c.f.num_vregs,
        spans_stay(s.g, t.g),
        t.liveins == s.liveins,
        ({
            let b = c.cfg.postorder[at];
            let succs = c.f.succs[b.ix()];
            &&& t.live == live_out(s.liveins, succs, succs.len() as int)
            &&& spanned(
                t.g,
                t.live,
                (CodeRange {
                    from: c.cfg.block_entry[b.ix()],
                    to: c.cfg.block_exit[b.ix()].succ(),
                }),
                c.f.num_vregs as int,
            )
        }),
    ensures
        edges_live_in(c, t, at, 0x1_0000_0000, 0),
{
    reveal(edges_live_in);
    let order = c.cfg.postorder;
    let b = order[at];
    let succs = c.f.succs[b.ix()];
    assert(b.0 < c.f.blocks);
    lemma_blocks_apart(c, b.ix(), b.ix());
    assert(block_ok(c.f, b.ix()));
    let lo = c.cfg.block_entry[b.ix()].ix();
    assert(spans_stay_but(s.g, t.g, -1, lo, lo));
    assert forall|j: int| 0 <= j < at implies #[trigger] order[j] != b by {}
    lemma_edges_kept(c, s, t, at, b, -1, lo);
    assert forall|j: int, v: int|
        0 <= j < at && 0 <= v < c.f.num_vregs && #[trigger] live_at(c, t.liveins, j, v) && joined(
            c.f,
            b,
            order[j],
        ) implies covers(t.g, v, c.cfg.block_exit[b.ix()].ix()) by {
        let k = choose|k: int| 0 <= k < succs.len() && succs[k] == order[j];
        lemma_live_out_has(s.liveins, succs, succs.len() as int, k, v);
    }
    assert(lived_in(c, t.g, t.liveins, at, 0x1_0000_0000, 0)) by {
        reveal(lived_in);
        assert forall|v: int, p: int| #[trigger]
            lives_in(c, t.liveins, at, 0x1_0000_0000, 0, v, p) implies covers(t.g, v, p) by {
            assert(goes_on(c, t.liveins, at, b, v));
            let l = choose|l: int|
                0 <= l < at && #[trigger] live_at(c, t.liveins, l, v) && joined(c.f, b, order[l]);
            let k = choose|k: int| 0 <= k < succs.len() && succs[k] == order[l];
            lemma_live_out_has(s.liveins, succs, succs.len() as int, k, v);
        }
    }
    assert(wanted_in(c, t.live, t.liveins, at, 0x1_0000_0000, 0)) by {
        reveal(edges_live);
        reveal(wanted_in);
        assert forall|j: int, v: int|
            0 <= j < at && #[trigger] live_at(c, t.liveins, j, v) && joined(c.f, b, order[j])
                && comes_in(c.f, v, b) implies t.live.contains(v) by {
            let k = choose|k: int| 0 <= k < succs.len() && succs[k] == order[j];
            lemma_live_out_has(s.liveins, succs, succs.len() as int, k, v);
        }
    }
}

/// The parameters of the block are live at its first point, up to the one at position `n`.
pub open spec fn params_live(c: Ctx, g: GraphState, b: Block, n: int) -> bool {
    forall|k: int|
        0 <= k < n ==> covers(
            g,
            (#[trigger] c.f.params[b.ix()][k]).ix(),
            c.cfg.block_entry[b.ix()].ix(),
        )
}

/// A live register is live at the first point of the block.
proof fn lemma_in_live(c: Ctx, s: PassState, at: int, end: int, slot: int, v: int)
    requires
        edges_live_in(c, s, at, end, slot),
        0 <= v < c.f.num_vregs,
        s.live.contains(v),
    ensures
        covers(s.g, v, c.cfg.block_entry[c.cfg.postorder[at].ix()].ix()),
{
    reveal(edges_live_in);
}

/// The range over blocks of the order has the first and the last point of each.
proof fn lemma_blocks_span(cfg: CfgModel, lo: int, hi: int, j: int)
    requires
        lo <= j <= hi,
    ensures
        blocks_begin(cfg, lo, hi).ix() <= cfg.block_entry[cfg.postorder[j].ix()].ix(),
        cfg.block_exit[cfg.postorder[j].ix()].ix() <= blocks_end(cfg, lo, hi).ix(),
    decreases hi - lo,
{
    if lo < hi && j < hi {
        lemma_blocks_span(cfg, lo, hi - 1, j);
    }
}

/// The last point of blocks of the order is one of the program.
proof fn lemma_blocks_end(c: Ctx, lo: int, hi: int)
    requires
        func_ok(c.f),
        cfg_ok(c.f, c.cfg),
        0 <= lo <= hi < c.cfg.postorder.len(),
    ensures
        blocks_end(c.cfg, lo, hi).inst.0 < c.f.insts,
    decreases hi - lo,
{
    assert(c.cfg.postorder[hi].0 < c.f.blocks);
    assert(block_ok(c.f, c.cfg.postorder[hi].ix()));
    if lo < hi {
        lemma_blocks_end(c, lo, hi - 1);
    }
}

proof fn lemma_order_position(order: Seq<Block>, p: int, n: int)
    requires
        order.no_duplicates(),
        0 <= p < n <= order.len(),
    ensures
        order_position(order, order[p], n) == Some(p),
    decreases n,
{
    if p < n - 1 {
        lemma_order_position(order, p, n - 1);
    }
}

/// The least position is at or before that of every one of the blocks.
proof fn lemma_min_below(order: Seq<Block>, preds: Seq<Block>, n: int, min: int, k: int, p: int)
    requires
        order.no_duplicates(),
        n <= preds.len(),
        0 <= p < order.len(),
    ensures
        min_position(order, preds, n, min) <= min,
        0 <= k < n && preds[k] == order[p] ==> min_position(order, preds, n, min) <= p,
    decreases n,
{
    if n > 0 {
        lemma_min_below(order, preds, n - 1, min, k, p);
        lemma_order_position(order, p, order.len() as int);
    }
}

/// No block of a loop is reached from a block before its first position.
proof fn lemma_loop_closed(c: Ctx, i: int, min: int, j: int, p: int)
    requires
        c.cfg.postorder.no_duplicates(),
        0 <= p < c.cfg.postorder.len(),
        loop_start(c, i, min) <= j <= i,
        0 <= j,
        c.f.preds[c.cfg.postorder[j].ix()].contains(c.cfg.postorder[p]),
    ensures
        loop_start(c, i, min) <= p,
    decreases i + 1,
{
    let order = c.cfg.postorder;
    let preds = c.f.preds[order[i].ix()];
    let m = min_position(order, preds, preds.len() as int, min);
    lemma_loop_below(c, i, min);
    if i >= min && i >= 0 {
        lemma_loop_below(c, i - 1, m);
        if j == i {
            let k = choose|k: int| 0 <= k < preds.len() && preds[k] == order[p];
            lemma_min_below(order, preds, preds.len() as int, min, k, p);
        } else {
            lemma_loop_closed(c, i - 1, m, j, p);
        }
    }
}

/// A loop begins no later than where the search for its beginning starts.
proof fn lemma_loop_below(c: Ctx, i: int, min: int)
    ensures
        loop_start(c, i, min) <= min,
    decreases i + 1,
{
    if i >= min && i >= 0 {
        let order = c.cfg.postorder;
        let preds = c.f.preds[order[i].ix()];
        let m = min_position(order, preds, preds.len() as int, min);
        lemma_min_position_below(order, preds, preds.len() as int, min);
        lemma_loop_below(c, i - 1, m);
    }
}

proof fn lemma_min_position_below(order: Seq<Block>, preds: Seq<Block>, n: int, min: int)
    ensures
        min_position(order, preds, n, min) <= min,
    decreases n,
{
    if n > 0 {
        lemma_min_position_below(order, preds, n - 1, min);
    }
}

/// The scan is done with what is wanted in a block, and in the loop that ends there if there is one.
proof fn lemma_wanted_done(
    c: Ctx,
    live: Set<int>,
    liveins: Seq<Set<int>>,
    liveins2: Seq<Set<int>>,
    at: int,
    end: int,
)
    requires
        func_ok(c.f),
        cfg_ok(c.f, c.cfg),
        0 <= at < c.cfg.postorder.len(),
        wanted_in(c, live, liveins, at, end, 0),
        end <= c.f.insns[c.cfg.postorder[at].ix()].from.0,
        forall|j: int, v: int|
            0 <= j < c.cfg.postorder.len() ==> #[trigger] live_at(c, liveins2, j, v) == (if j == at {
                live.contains(v)
            } else {
                live_at(c, liveins, j, v) || has_loop(c, at) && loop_start(c, at, at) <= j < at
                    && live.contains(v)
            }),
    ensures
        wanted(c, liveins2, at + 1),
{
    reveal(wanted);
    reveal(wanted_in);
    let order = c.cfg.postorder;
    let b = order[at];
    let min = loop_start(c, at, at);
    lemma_loop_below(c, at, at);
    assert forall|j: int, v: int|
        #![trigger use_in(c.f, v, order[j])]
        0 <= j < at + 1 && use_in(c.f, v, order[j]) && comes_in(c.f, v, order[j]) implies live_at(
        c,
        liveins2,
        j,
        v,
    ) by {
        if j == at {
            let (i, k) = choose|i: int, k: int|
                c.f.insns[b.ix()].has(i) && 0 <= k < c.f.operands[i].len() && (
                #[trigger] c.f.operands[i][k]).kind is Use && c.f.operands[i][k].vreg.vreg == v;
            assert(live.contains(c.f.operands[i][k].vreg.ix()));
        } else {
            assert(live_at(c, liveins, j, v));
        }
    }
    assert forall|j: int, k: int, v: int|
        #![trigger live_at(c, liveins2, j, v), order[k]]
        0 <= j < at + 1 && 0 <= k < at + 1 && live_at(c, liveins2, j, v) && joined(
            c.f,
            order[k],
            order[j],
        ) && comes_in(c.f, v, order[k]) implies live_at(c, liveins2, k, v) by {
        if j < at && live_at(c, liveins, j, v) {
            if k < at {
                assert(live_at(c, liveins, k, v));
            }
        } else {
            assert(live.contains(v));
            if k < at {
                lemma_loop_closed(c, at, at, j, k);
                assert(has_loop(c, at));
            }
        }
    }
}

/// The scan is done with where registers are live in a block.
proof fn lemma_lived_done(c: Ctx, s: PassState, t: PassState, at: int, end: int)
    requires
        func_ok(c.f),
        cfg_ok(c.f, c.cfg),
        0 <= at < c.cfg.postorder.len(),
        lived(c, s.g, s.liveins, at),
        lived_in(c, s.g, s.liveins, at, end, 0),
        end <= c.f.insns[c.cfg.postorder[at].ix()].from.0,
        s.g.in_vreg.len() == c.f.num_vregs,
        spans_stay(s.g, t.g),
        has_loop(c, at) ==> spanned(
            t.g,
            s.live,
            (CodeRange {
                from: blocks_begin(c.cfg, loop_start(c, at, at), at),
                to: blocks_end(c.cfg, loop_start(c, at, at), at).succ(),
            }),
            c.f.num_vregs as int,
        ),
        forall|j: int, v: int|
            0 <= j < c.cfg.postorder.len() ==> #[trigger] live_at(c, t.liveins, j, v) == (if j
                == at {
                s.live.contains(v)
            } else {
                live_at(c, s.liveins, j, v) || has_loop(c, at) && loop_start(c, at, at) <= j < at
                    && s.live.contains(v)
            }),
    ensures
        lived(c, t.g, t.liveins, at + 1),
{
    reveal(lived);
    reveal(lived_in);
    let order = c.cfg.postorder;
    let b = order[at];
    let min = loop_start(c, at, at);
    lemma_loop_below(c, at, at);
    lemma_loop_from(c, at, at);
    assert forall|j: int, v: int, p: int|
        0 <= j < at + 1 && #[trigger] lives_at(c, t.liveins, at + 1, j, v, p) implies covers(
        t.g,
        v,
        p,
    ) by {
        let x = order[j];
        assert(x.0 < c.f.blocks);
        if (exists|i: int, k: int| #[trigger] used_from(c, x, v, p, i, k)) || goes_on(
            c,
            s.liveins,
            at,
            x,
            v,
        ) {
            if j < at {
                assert(lives_at(c, s.liveins, at, j, v, p));
            } else {
                assert forall|i: int, k: int|
                    c.f.insns[b.ix()].has(i) && 0 <= k < c.f.operands[i].len() && (
                    #[trigger] c.f.operands[i][k]).kind is Def && c.f.operands[i][k].vreg.vreg == v
                        && is_entered(end, 0, i, k) implies def_pos(
                    c.f.operands[i][k],
                    Inst(i as u32),
                ).ix() <= p by {}
                if !goes_on(c, s.liveins, at, x, v) {
                    let (i, k) = choose|i: int, k: int| #[trigger] used_from(c, x, v, p, i, k);
                    assert(used_from(c, x, v, p, i, k) && is_entered(end, 0, i, k));
                }
                assert(lives_in(c, s.liveins, at, end, 0, v, p));
            }
            assert(covers(s.g, v, p));
        } else {
            let l = choose|l: int|
                0 <= l < at + 1 && #[trigger] live_at(c, t.liveins, l, v) && joined(
                    c.f,
                    x,
                    order[l],
                );
            if l < at && live_at(c, s.liveins, l, v) {
                assert(goes_on(c, s.liveins, at, x, v));
            }
            assert(s.live.contains(v));
            if min <= l {
                lemma_loop_closed(c, at, at, l, j);
            }
            assert(has_loop(c, at));
            assert(min <= j <= at);
            lemma_blocks_span(c.cfg, min, at, j);
            lemma_blocks_end(c, min, at);
        }
    }
}

/// The scan is done with a block, and with the loop that ends there if there is one.
pub proof fn lemma_edges_done(c: Ctx, s: PassState, t: PassState, at: int, end: int)
    requires
        func_ok(c.f),
        cfg_ok(c.f, c.cfg),
        0 <= at < c.cfg.postorder.len(),
        edges_live_in(c, s, at, end, 0),
        end <= c.f.insns[c.cfg.postorder[at].ix()].from.0,
        s.g.in_vreg.len() == c.f.num_vregs,
        s.liveins.len() == c.f.blocks,
        params_live(
            c,
            s.g,
            c.cfg.postorder[at],
            c.f.params[c.cfg.postorder[at].ix()].len() as int,
        ),
        spans_stay(s.g, t.g),
        has_loop(c, at) ==> spanned(
            t.g,
            s.live,
            (CodeRange {
                from: blocks_begin(c.cfg, loop_start(c, at, at), at),
                to: blocks_end(c.cfg, loop_start(c, at, at), at).succ(),
            }),
            c.f.num_vregs as int,
        ),
        ({
            let b = c.cfg.postorder[at];
            let grown = if has_loop(c, at) {
                loop_liveins(c.cfg.postorder, s.liveins, s.live, loop_start(c, at, at), at + 1)
            } else {
                s.liveins
            };
            t.liveins == grown.update(b.ix(), s.live)
        }),
    ensures
        edges_live(c, t, at + 1),
{
    reveal(edges_live_in);
    reveal(edges_live);
    let order = c.cfg.postorder;
    let b = order[at];
    let min = loop_start(c, at, at);
    assert(b.0 < c.f.blocks);
    assert(block_ok(c.f, b.ix()));
    lemma_loop_below(c, at, at);
    lemma_loop_from(c, at, at);
    assert forall|j: int, v: int| 0 <= j < order.len() implies #[trigger] live_at(c, t.liveins, j, v)
        == (if j == at {
        s.live.contains(v)
    } else {
        live_at(c, s.liveins, j, v) || has_loop(c, at) && min <= j < at && s.live.contains(v)
    }) by {
        lemma_loop_members(c, s.liveins, s.live, min, at + 1, j, v);
        if j != at {
            assert(order[j].ix() != order[at].ix()) by {
                assert(order[j] != order[at]);
            }
        }
    }
    lemma_wanted_done(c, s.live, s.liveins, t.liveins, at, end);
    lemma_lived_done(c, s, t, at, end);
    assert forall|j: int, v: int|
        min <= j <= at && has_loop(c, at) && 0 <= v < c.f.num_vregs && s.live.contains(v) implies {
        &&& #[trigger] covers(t.g, v, c.cfg.block_entry[order[j].ix()].ix())
        &&& covers(t.g, v, c.cfg.block_exit[order[j].ix()].ix())
    } by {
        assert(order[j].0 < c.f.blocks);
        lemma_blocks_apart(c, order[j].ix(), order[j].ix());
        lemma_blocks_span(c.cfg, min, at, j);
        lemma_blocks_end(c, min, at);
    }
    assert forall|j: int, v: int|
        0 <= j < at + 1 && 0 <= v < c.f.num_vregs && #[trigger] live_at(c, t.liveins, j, v) implies covers(
        t.g,
        v,
        c.cfg.block_entry[order[j].ix()].ix(),
    ) by {
        if j < at && live_at(c, s.liveins, j, v) {
            assert(covers(s.g, v, c.cfg.block_entry[order[j].ix()].ix()));
        } else if j == at {
            assert(covers(s.g, v, c.cfg.block_entry[b.ix()].ix()));
        }
    }
    assert forall|j: int, k: int, v: int|
        #![trigger live_at(c, t.liveins, j, v), order[k]]
        0 <= j < at + 1 && 0 <= k < at + 1 && 0 <= v < c.f.num_vregs && live_at(c, t.liveins, j, v)
            && joined(c.f, order[k], order[j]) implies covers(
        t.g,
        v,
        c.cfg.block_exit[order[k].ix()].ix(),
    ) by {
        if j < at && live_at(c, s.liveins, j, v) {
            assert(covers(s.g, v, c.cfg.block_exit[order[k].ix()].ix()));
        } else {
            assert(s.live.contains(v));
            if min <= j {
                lemma_loop_closed(c, at, at, j, k);
            }
            assert(has_loop(c, at));
            assert(min <= k);
            assert(covers(t.g, v, c.cfg.block_entry[order[k].ix()].ix()));
        }
    }
    assert forall|j: int, k: int|
        #![trigger c.f.params[order[j].ix()][k]]
        0 <= j < at + 1 && 0 <= k < c.f.params[order[j].ix()].len() implies covers(
        t.g,
        c.f.params[order[j].ix()][k].ix(),
        c.cfg.block_entry[order[j].ix()].ix(),
    ) by {
        assert(order[j].0 < c.f.blocks);
        assert(block_ok(c.f, order[j].ix()));
        assert(covers(
            s.g,
            c.f.params[order[j].ix()][k].ix(),
            c.cfg.block_entry[order[j].ix()].ix(),
        ));
    }
    assert forall|j: int, k: int|
        0 <= j < at + 1 && #[trigger] is_read(c.f, order[j], k) implies covers(
        t.g,
        c.f.operands[last_inst(c.f, order[j])][k].vreg.ix(),
        c.cfg.block_exit[order[j].ix()].ix(),
    ) by {
        assert(order[j].0 < c.f.blocks);
        lemma_read_below(c.f, order[j], k);
        assert(covers(
            s.g,
            c.f.operands[last_inst(c.f, order[j])][k].vreg.ix(),
            c.cfg.block_exit[order[j].ix()].ix(),
        ));
    }
}

/// A loop begins at a position of the order.
proof fn lemma_loop_from(c: Ctx, i: int, min: int)
    requires
        0 <= min,
        c.cfg.postorder.no_duplicates(),
    ensures
        0 <= loop_start(c, i, min),
    decreases i + 1,
{
    if i >= min && i >= 0 {
        let order = c.cfg.postorder;
        let preds = c.f.preds[order[i].ix()];
        let m = min_position(order, preds, preds.len() as int, min);
        lemma_min_from(order, preds, preds.len() as int, min);
        lemma_loop_from(c, i - 1, m);
    }
}

proof fn lemma_min_from(order: Seq<Block>, preds: Seq<Block>, n: int, min: int)
    requires
        0 <= min,
    ensures
        0 <= min_position(order, preds, n, min),
    decreases n,
{
    if n > 0 {
        lemma_min_from(order, preds, n - 1, min);
        lemma_position_from(order, preds[n - 1], order.len() as int);
    }
}

proof fn lemma_position_from(order: Seq<Block>, b: Block, n: int)
    ensures
        order_position(order, b, n) matches Some(p) ==> 0 <= p,
    decreases n,
{
    if n > 0 {
        lemma_position_from(order, b, n - 1);
    }
}

/// One more register is live over the range.
pub proof fn lemma_spanned_step(
    g: GraphState,
    h: GraphState,
    live: Set<int>,
    range: CodeRange,
    v: int,
    lr: u32,
)
    requires
        spanned(g, live, range, v),
        0 <= v <= g.in_vreg.len(),
        spans_stay(g, h),
        h.in_vreg[v].contains(lr),
        h.ranges[lr as int].range.from.ix() <= range.from.ix(),
        range.to.ix() <= h.ranges[lr as int].range.to.ix(),
    ensures
        spanned(h, live, range, v + 1),
{
    let n = choose|n: int| 0 <= n < h.in_vreg[v].len() && h.in_vreg[v][n] == lr;
    assert forall|w: int, p: int|
        0 <= w < v + 1 && live.contains(w) && range.from.ix() <= p < range.to.ix() implies #[trigger] covers(
        h,
        w,
        p,
    ) by {
        if w < v {
            assert(covers(g, w, p));
        } else {
            assert(h.in_vreg[v][n] == lr);
        }
    }
}

/// What is live between blocks stays so where every register stays live.
pub proof fn lemma_edges_same(c: Ctx, s: PassState, t: PassState, at: int)
    requires
        func_ok(c.f),
        cfg_ok(c.f, c.cfg),
        0 <= at <= c.cfg.postorder.len(),
        edges_live(c, s, at),
        t.liveins == s.liveins,
        s.g.in_vreg.len() == c.f.num_vregs,
        spans_stay(s.g, t.g),
    ensures
        edges_live(c, t, at),
{
    reveal(edges_live);
    assert(lived(c, t.g, t.liveins, at)) by {
        reveal(lived);
    }
    let order = c.cfg.postorder;
    assert forall|j: int| 0 <= j < at implies block_ok(c.f, (#[trigger] order[j]).ix()) by {
        assert(order[j].0 < c.f.blocks);
    }
    assert forall|j: int, k: int|
        0 <= j < at && #[trigger] is_read(c.f, order[j], k) implies covers(
        t.g,
        c.f.operands[last_inst(c.f, order[j])][k].vreg.ix(),
        c.cfg.block_exit[order[j].ix()].ix(),
    ) by {
        lemma_read_below(c.f, order[j], k);
        assert(covers(
            s.g,
            c.f.operands[last_inst(c.f, order[j])][k].vreg.ix(),
            c.cfg.block_exit[order[j].ix()].ix(),
        ));
    }
}

/// A register is live where one of its ranges is.
pub proof fn lemma_listed_covers(g: GraphState, v: int, lr: u32, p: int)
    requires
        g.in_vreg[v].contains(lr),
        g.ranges[lr as int].range.from.ix() <= p < g.ranges[lr as int].range.to.ix(),
    ensures
        covers(g, v, p),
{
    let n = choose|n: int| 0 <= n < g.in_vreg[v].len() && g.in_vreg[v][n] == lr;
    assert(g.in_vreg[v][n] == lr);
}

/// One more parameter is live where its block starts.
pub proof fn lemma_params_step(c: Ctx, s: PassState, t: PassState, at: int, end: int, i: int)
    requires
        func_ok(c.f),
        cfg_ok(c.f, c.cfg),
        0 <= at < c.cfg.postorder.len(),
        edges_live_in(c, s, at, end, 0),
        t.liveins == s.liveins,
        s.g.in_vreg.len() == c.f.num_vregs,
        spans_stay(s.g, t.g),
        t.live.subset_of(s.live),
        s.live.remove(c.f.params[c.cfg.postorder[at].ix()][i].ix()).subset_of(t.live),
        0 <= i < c.f.params[c.cfg.postorder[at].ix()].len(),
        params_live(c, s.g, c.cfg.postorder[at], i),
        s.live.contains(c.f.params[c.cfg.postorder[at].ix()][i].ix()) || covers(
            t.g,
            c.f.params[c.cfg.postorder[at].ix()][i].ix(),
            c.cfg.block_entry[c.cfg.postorder[at].ix()].ix(),
        ),
    ensures
        edges_live_in(c, t, at, end, 0),
        params_live(c, t.g, c.cfg.postorder[at], i + 1),
{
    let b = c.cfg.postorder[at];
    assert(b.0 < c.f.blocks);
    assert(block_ok(c.f, b.ix()));
    let v = c.f.params[b.ix()][i].ix();
    assert(takes_param(c.f, b, v as u32)) by {
        let _ = c.f.params[b.ix()][i];
    }
    lemma_in_same(c, s, t, at, end, 0);
    if s.live.contains(v) {
        lemma_in_live(c, s, at, end, 0, v);
        assert(covers(t.g, v, c.cfg.block_entry[b.ix()].ix()));
    }
    assert forall|k: int| 0 <= k < i + 1 implies covers(
        t.g,
        (#[trigger] c.f.params[b.ix()][k]).ix(),
        c.cfg.block_entry[b.ix()].ix(),
    ) by {
        if k < i {
            let w = c.f.params[b.ix()][k].ix();
            assert(covers(s.g, w, c.cfg.block_entry[b.ix()].ix()));
            assert(c.f.params[b.ix()][k].vreg < c.f.num_vregs);
        }
    }
}

} // verus!
