//! How the registers that are live travel over the blocks in a function in static single assignment
//! form: when the scan comes to a definition, the live range that it is at is one of the register.
use crate::cfg::{cfg_ok, lemma_reachable_step};
use crate::code_range::CodeRange;
use crate::dom::{
    def_in, defined_once, dominates, edges_agree, lemma_dominates_within, lemma_within_trans,
    ssa_form, use_in, within,
};
use crate::func::{block_ok, func_ok, inst_ok, operand_ok};
use crate::graph::{graph_ok, GraphState};
use crate::held::{held, others_listed};
use crate::index::{Block, Inst, LiveRangeIndex};
use crate::liveness::{
    def_pos, has_loop, live_out, loop_liveins, loop_start, min_position, noted, order_position,
    reused_input, use_pos, Ctx, PassState,
};
use crate::parts::covers;
use crate::reached::{defs_scanned, lemma_defs_operand, lemma_one_block};
use crate::spans::{
    edges_live, edges_live_in, lemma_blocks_apart, lemma_in_def, lemma_in_same, lemma_in_start,
    lemma_in_use, lemma_spans_same, spanned, spans_stay, spans_stay_but,
};
use crate::tree::tree_ok;
use vstd::prelude::*;

verus! {

/// The tree of the walk over the blocks.
pub open spec fn tree_of(c: Ctx) -> Seq<int> {
    choose|up: Seq<int>| tree_ok(c.f, c.cfg.postorder, up)
}

/// Is register `v` defined in the block at position `d` of the order, and the scan not past it?
pub open spec fn pending(c: Ctx, at: int, v: int, d: int) -> bool {
    0 <= at <= d < c.cfg.postorder.len() && def_in(c.f, v, c.cfg.postorder[d])
}

/// Is register `v` live at the start of the block at position `j` of the order?
pub open spec fn live_at(c: Ctx, liveins: Seq<Set<int>>, j: int, v: int) -> bool {
    liveins[c.cfg.postorder[j].ix()].contains(v)
}

/// Nothing is live at the start of blocks that are still to come. A register whose definition is
/// still to come is live below its definition only, and with a block it is live at the start of the
/// predecessors that follow it in the order.
pub open spec fn lists_flow(c: Ctx, liveins: Seq<Set<int>>, at: int) -> bool {
    let up = tree_of(c);
    let order = c.cfg.postorder;
    &&& forall|q: int, v: int|
        at <= q < order.len() ==> !#[trigger] live_at(c, liveins, q, v)
    &&& forall|v: int, d: int, j: int|
        #![trigger pending(c, at, v, d), live_at(c, liveins, j, v)]
        pending(c, at, v, d) && 0 <= j < at && live_at(c, liveins, j, v) ==> within(up, j, d)
    &&& forall|v: int, d: int, j: int, q: int|
        #![trigger pending(c, at, v, d), live_at(c, liveins, j, v), order[q]]
        pending(c, at, v, d) && 0 <= j < q < at && c.f.succs[order[q].ix()].contains(order[j])
            && live_at(c, liveins, j, v) ==> live_at(c, liveins, q, v)
}

/// Is register `v` live at the start of a block before position `at`?
pub open spec fn live_before(c: Ctx, liveins: Seq<Set<int>>, at: int, v: int) -> bool {
    exists|j: int| 0 <= j < at && #[trigger] live_at(c, liveins, j, v)
}

/// What holds between blocks: a register whose definition is still to come has a live range that
/// the scan is at only if it is live somewhere.
#[verifier::opaque]
pub open spec fn flow_ok(
    c: Ctx,
    liveins: Seq<Set<int>>,
    vreg_ranges: Seq<LiveRangeIndex>,
    at: int,
) -> bool {
    &&& lists_flow(c, liveins, at)
    &&& forall|v: int, d: int|
        #[trigger] pending(c, at, v, d) && vreg_ranges[v].is_valid() ==> live_before(
            c,
            liveins,
            at,
            v,
        )
}

/// What holds within the block at position `at`.
#[verifier::opaque]
pub open spec fn block_flow(
    c: Ctx,
    live: Set<int>,
    liveins: Seq<Set<int>>,
    vreg_ranges: Seq<LiveRangeIndex>,
    at: int,
) -> bool {
    let up = tree_of(c);
    let order = c.cfg.postorder;
    &&& lists_flow(c, liveins, at)
    &&& forall|v: int, d: int|
        #[trigger] pending(c, at, v, d) && live.contains(v) ==> within(up, at, d)
    &&& forall|v: int, d: int, j: int|
        #![trigger pending(c, at + 1, v, d), live_at(c, liveins, j, v)]
        pending(c, at + 1, v, d) && 0 <= j < at && c.f.succs[order[at].ix()].contains(order[j])
            && live_at(c, liveins, j, v) ==> live.contains(v)
    &&& forall|v: int, d: int|
        #[trigger] pending(c, at + 1, v, d) && vreg_ranges[v].is_valid() ==> live.contains(v)
            || live_before(c, liveins, at, v)
}

/// Do the definitions of register `v` in block `b` come before place `to`?
pub open spec fn defs_before(c: Ctx, b: Block, v: int, to: int) -> bool {
    forall|i: int, k: int|
        c.f.insns[b.ix()].has(i) && 0 <= k < c.f.operands[i].len() && (
        #[trigger] c.f.operands[i][k]).kind is Def && c.f.operands[i][k].vreg.vreg == v ==> def_pos(
            c.f.operands[i][k],
            Inst(i as u32),
        ).ix() < to
}

/// The live range is one of register `v`, and reaches from the start of block `b` past the
/// definition of the register in it.
pub open spec fn is_fresh(c: Ctx, g: GraphState, b: Block, v: int, lr: LiveRangeIndex) -> bool {
    &&& g.in_vreg[v].contains(lr.0)
    &&& lr.0 < g.ranges.len()
    &&& g.ranges[lr.ix()].vreg.0 == v
    &&& g.ranges[lr.ix()].range.from.ix() <= c.cfg.block_entry[b.ix()].ix()
    &&& defs_before(c, b, v, g.ranges[lr.ix()].range.to.ix())
}

/// The live range that the scan is at is one of the register, for the registers that the block
/// defines.
#[verifier::opaque]
pub open spec fn defs_fresh(
    c: Ctx,
    g: GraphState,
    vreg_ranges: Seq<LiveRangeIndex>,
    at: int,
) -> bool {
    let b = c.cfg.postorder[at];
    forall|v: int|
        #[trigger] def_in(c.f, v, b) && vreg_ranges[v].is_valid() ==> is_fresh(
            c,
            g,
            b,
            v,
            vreg_ranges[v],
        )
}

/// The definitions in a block come before its end.
pub proof fn lemma_defs_before_end(c: Ctx, b: Block, v: int, to: int)
    requires
        func_ok(c.f),
        cfg_ok(c.f, c.cfg),
        b.0 < c.f.blocks,
        c.cfg.block_exit[b.ix()].ix() < to,
    ensures
        defs_before(c, b, v, to),
{
    assert(block_ok(c.f, b.ix()));
}

/// The definition of a register in a block comes before a use in it.
pub proof fn lemma_defs_before_use(c: Ctx, b: Block, v: int, j: int, l: int, to: int)
    requires
        func_ok(c.f),
        ssa_form(c.f),
        b.0 < c.f.blocks,
        c.f.insns[b.ix()].has(j),
        0 <= l < c.f.operands[j].len(),
        c.f.operands[j][l].kind is Use,
        c.f.operands[j][l].vreg.vreg == v,
        2 * j < to,
    ensures
        defs_before(c, b, v, to),
{
    reveal(ssa_form);
    assert(block_ok(c.f, b.ix()));
    assert forall|i: int, k: int|
        c.f.insns[b.ix()].has(i) && 0 <= k < c.f.operands[i].len() && (
        #[trigger] c.f.operands[i][k]).kind is Def && c.f.operands[i][k].vreg.vreg
            == v implies def_pos(c.f.operands[i][k], Inst(i as u32)).ix() < to by {
        let _ = (c.f.insns[b.ix()], c.f.operands[i][k], c.f.operands[j][l]);
        assert(i < j);
    }
}

/// What is done for another register does no harm.
pub proof fn lemma_fresh_other(
    c: Ctx,
    g: GraphState,
    h: GraphState,
    b: Block,
    v: u32,
    x: int,
    lr: LiveRangeIndex,
)
    requires
        is_fresh(c, g, b, x, lr),
        others_listed(g, h, v),
        0 <= x < g.in_vreg.len(),
        x != v,
    ensures
        is_fresh(c, h, b, x, lr),
{
    assert(h.in_vreg[x] == g.in_vreg[x]);
    assert(h.ranges[lr.ix()].vreg == g.ranges[lr.ix()].vreg);
}

/// Registers that are defined exist.
pub proof fn lemma_def_in_below(c: Ctx, v: int, b: Block)
    requires
        func_ok(c.f),
        b.0 < c.f.blocks,
        def_in(c.f, v, b),
    ensures
        0 <= v < c.f.num_vregs,
{
    let (i, k) = choose|i: int, k: int|
        c.f.insns[b.ix()].has(i) && 0 <= k < c.f.operands[i].len() && (
        #[trigger] c.f.operands[i][k]).kind is Def && c.f.operands[i][k].vreg.vreg == v;
    assert(block_ok(c.f, b.ix()));
    assert(inst_ok(c.f, i));
    assert(operand_ok(c.f, i, c.f.operands[i][k]));
}

proof fn lemma_pending_below(c: Ctx, at: int)
    requires
        func_ok(c.f),
        cfg_ok(c.f, c.cfg),
    ensures
        forall|v: int, d: int| #[trigger] pending(c, at, v, d) ==> 0 <= v < c.f.num_vregs,
{
    assert forall|v: int, d: int| #[trigger] pending(c, at, v, d) implies 0 <= v < c.f.num_vregs by {
        assert(c.cfg.postorder[d].0 < c.f.blocks);
        lemma_def_in_below(c, v, c.cfg.postorder[d]);
    }
}

/// What is live at the end of a block is live at the start of a successor.
proof fn lemma_live_out_member(liveins: Seq<Set<int>>, succs: Seq<Block>, n: int, v: int)
    requires
        0 <= n <= succs.len(),
    ensures
        live_out(liveins, succs, n).contains(v) <==> exists|k: int|
            0 <= k < n && liveins[(#[trigger] succs[k]).ix()].contains(v),
    decreases n,
{
    if n > 0 {
        lemma_live_out_member(liveins, succs, n - 1, v);
        if liveins[succs[n - 1].ix()].contains(v) {
            assert(live_out(liveins, succs, n).contains(v));
        }
    }
}

/// A register that is live below the block that defines it is live at the start of a successor of
/// that block.
proof fn lemma_climb(c: Ctx, liveins: Seq<Set<int>>, at: int, v: int, j: int)
    requires
        cfg_ok(c.f, c.cfg),
        lists_flow(c, liveins, at),
        pending(c, at, v, at),
        0 <= j < at,
        live_at(c, liveins, j, v),
    ensures
        exists|k: int|
            0 <= k < at && c.f.succs[c.cfg.postorder[at].ix()].contains(c.cfg.postorder[k])
                && #[trigger] live_at(c, liveins, k, v),
    decreases at - j,
{
    let up = tree_of(c);
    assert(tree_ok(c.f, c.cfg.postorder, up));
    assert(within(up, j, at));
    let q = up[j];
    if q < at {
        assert(c.f.succs[c.cfg.postorder[q].ix()].contains(c.cfg.postorder[j]));
        assert(live_at(c, liveins, q, v));
        lemma_climb(c, liveins, at, v, q);
    }
}

/// The scan begins with the end of a block.
pub proof fn lemma_flow_begun(
    c: Ctx,
    liveins: Seq<Set<int>>,
    vreg_ranges: Seq<LiveRangeIndex>,
    at: int,
)
    requires
        func_ok(c.f),
        cfg_ok(c.f, c.cfg),
        0 <= at < c.cfg.postorder.len(),
        flow_ok(c, liveins, vreg_ranges, at),
    ensures
        ({
            let b = c.cfg.postorder[at];
            let succs = c.f.succs[b.ix()];
            let live = live_out(liveins, succs, succs.len() as int);
            &&& block_flow(c, live, liveins, vreg_ranges, at)
            &&& forall|v: int|
                #[trigger] def_in(c.f, v, b) && !live.contains(v) ==> !vreg_ranges[v].is_valid()
        }),
{
    reveal(flow_ok);
    reveal(block_flow);
    let up = tree_of(c);
    let order = c.cfg.postorder;
    let b = order[at];
    let succs = c.f.succs[b.ix()];
    let live = live_out(liveins, succs, succs.len() as int);
    assert(block_ok(c.f, b.ix()));
    assert(order.contains(b));
    assert forall|v: int, d: int| #[trigger] pending(c, at, v, d) && live.contains(v) implies within(
        up,
        at,
        d,
    ) by {
        lemma_live_out_member(liveins, succs, succs.len() as int, v);
        let k = choose|k: int|
            0 <= k < succs.len() && liveins[(#[trigger] succs[k]).ix()].contains(v);
        let x = succs[k];
        assert(c.f.succs[b.ix()][k].0 < c.f.blocks);
        assert(c.f.succs[b.ix()].contains(x));
        lemma_reachable_step(c.f, b, x);
        assert(order.contains(x));
        let j = choose|j: int| 0 <= j < order.len() && order[j] == x;
        assert(live_at(c, liveins, j, v));
        assert(within(up, j, d));
    }
    assert forall|v: int, j: int|
        0 <= j < order.len() && c.f.succs[order[at].ix()].contains(order[j]) && #[trigger] live_at(
            c,
            liveins,
            j,
            v,
        ) implies live.contains(v) by {
        lemma_live_out_member(liveins, succs, succs.len() as int, v);
        let k = choose|k: int| 0 <= k < succs.len() && succs[k] == order[j];
        assert(liveins[succs[k].ix()].contains(v));
    }
    assert forall|v: int, d: int|
        #[trigger] pending(c, at + 1, v, d) && vreg_ranges[v].is_valid() implies live.contains(v)
        || live_before(c, liveins, at, v) by {
        assert(pending(c, at, v, d));
    }
    assert forall|v: int| #[trigger] def_in(c.f, v, b) && !live.contains(v) implies !vreg_ranges[v].is_valid() by {
        assert(pending(c, at, v, at));
        if vreg_ranges[v].is_valid() {
            let j = choose|j: int| 0 <= j < at && #[trigger] live_at(c, liveins, j, v);
            lemma_climb(c, liveins, at, v, j);
        }
    }
}

/// The live ranges that the scan is at are noted.
pub proof fn lemma_flow_noted(
    c: Ctx,
    live: Set<int>,
    liveins: Seq<Set<int>>,
    before: Seq<LiveRangeIndex>,
    after: Seq<LiveRangeIndex>,
    at: int,
)
    requires
        func_ok(c.f),
        cfg_ok(c.f, c.cfg),
        block_flow(c, live, liveins, before, at),
        after.len() == c.f.num_vregs,
        forall|w: int|
            0 <= w < after.len() && !live.contains(w) ==> (#[trigger] after[w]) == before[w],
    ensures
        block_flow(c, live, liveins, after, at),
{
    reveal(block_flow);
    lemma_pending_below(c, at + 1);
}

/// A use in the block.
pub proof fn lemma_flow_use(
    c: Ctx,
    live: Set<int>,
    liveins: Seq<Set<int>>,
    vreg_ranges: Seq<LiveRangeIndex>,
    at: int,
    v: int,
    lr: LiveRangeIndex,
)
    requires
        func_ok(c.f),
        cfg_ok(c.f, c.cfg),
        ssa_form(c.f),
        0 <= at < c.cfg.postorder.len(),
        vreg_ranges.len() == c.f.num_vregs,
        0 <= v < vreg_ranges.len(),
        block_flow(c, live, liveins, vreg_ranges, at),
        use_in(c.f, v, c.cfg.postorder[at]),
    ensures
        block_flow(c, live.insert(v), liveins, vreg_ranges.update(v, lr), at),
{
    reveal(block_flow);
    reveal(ssa_form);
    let up = tree_of(c);
    let order = c.cfg.postorder;
    assert(tree_ok(c.f, order, up));
    assert(order.contains(order[at]));
    lemma_pending_below(c, at + 1);
    assert forall|w: int, d: int| #[trigger] pending(c, at, w, d) && live.insert(v).contains(w) implies within(
        up,
        at,
        d,
    ) by {
        if w == v {
            assert(order[d].0 < c.f.blocks);
            assert(dominates(c.f, order[d], order[at]));
            lemma_dominates_within(c.f, order, up, at, d);
        }
    }
}

/// A register is defined in one block of the order.
proof fn lemma_one_def_block(c: Ctx, v: int, a: int, b: int)
    requires
        func_ok(c.f),
        cfg_ok(c.f, c.cfg),
        defined_once(c.f),
        0 <= a < c.cfg.postorder.len(),
        0 <= b < c.cfg.postorder.len(),
        def_in(c.f, v, c.cfg.postorder[a]),
        def_in(c.f, v, c.cfg.postorder[b]),
    ensures
        a == b,
{
    let x = c.cfg.postorder[a];
    let y = c.cfg.postorder[b];
    let (i, k) = choose|i: int, k: int|
        c.f.insns[x.ix()].has(i) && 0 <= k < c.f.operands[i].len() && (
        #[trigger] c.f.operands[i][k]).kind is Def && c.f.operands[i][k].vreg.vreg == v;
    let (j, l) = choose|j: int, l: int|
        c.f.insns[y.ix()].has(j) && 0 <= l < c.f.operands[j].len() && (
        #[trigger] c.f.operands[j][l]).kind is Def && c.f.operands[j][l].vreg.vreg == v;
    assert(block_ok(c.f, x.ix()));
    assert(block_ok(c.f, y.ix()));
    assert(i == j);
    lemma_one_block(c, i, a, b);
}

/// A definition in the block.
pub proof fn lemma_flow_def(
    c: Ctx,
    live: Set<int>,
    liveins: Seq<Set<int>>,
    vreg_ranges: Seq<LiveRangeIndex>,
    at: int,
    v: int,
    lr: LiveRangeIndex,
)
    requires
        func_ok(c.f),
        cfg_ok(c.f, c.cfg),
        ssa_form(c.f),
        0 <= at < c.cfg.postorder.len(),
        vreg_ranges.len() == c.f.num_vregs,
        0 <= v < vreg_ranges.len(),
        block_flow(c, live, liveins, vreg_ranges, at),
        def_in(c.f, v, c.cfg.postorder[at]),
    ensures
        block_flow(c, live.remove(v), liveins, vreg_ranges.update(v, lr), at),
{
    reveal(block_flow);
    reveal(ssa_form);
    lemma_pending_below(c, at + 1);
    assert forall|w: int, d: int| #[trigger] pending(c, at + 1, w, d) implies w != v by {
        if w == v {
            lemma_one_def_block(c, v, at, d);
        }
    }
}

/// A parameter of the block is no longer live before it.
pub proof fn lemma_flow_param(
    c: Ctx,
    live: Set<int>,
    liveins: Seq<Set<int>>,
    vreg_ranges: Seq<LiveRangeIndex>,
    at: int,
    l: int,
)
    requires
        func_ok(c.f),
        cfg_ok(c.f, c.cfg),
        ssa_form(c.f),
        0 <= at < c.cfg.postorder.len(),
        0 <= l < c.f.params[c.cfg.postorder[at].ix()].len(),
        block_flow(c, live, liveins, vreg_ranges, at),
    ensures
        block_flow(
            c,
            live.remove(c.f.params[c.cfg.postorder[at].ix()][l].ix()),
            liveins,
            vreg_ranges,
            at,
        ),
{
    reveal(block_flow);
    reveal(ssa_form);
    let b = c.cfg.postorder[at];
    let p = c.f.params[b.ix()][l];
    assert(b.0 < c.f.blocks);
    assert forall|w: int, d: int| #[trigger] pending(c, at + 1, w, d) implies w != p.ix() by {
        let x = c.cfg.postorder[d];
        let (i, k) = choose|i: int, k: int|
            c.f.insns[x.ix()].has(i) && 0 <= k < c.f.operands[i].len() && (
            #[trigger] c.f.operands[i][k]).kind is Def && c.f.operands[i][k].vreg.vreg == w;
        assert(block_ok(c.f, x.ix()));
        assert(c.f.params[b.ix()][l].vreg != c.f.operands[i][k].vreg.vreg);
    }
}

proof fn lemma_order_position(blocks: Seq<Block>, b: Block, n: int)
    requires
        0 <= n <= blocks.len(),
    ensures
        order_position(blocks, b, n) matches Some(p) ==> 0 <= p < n && blocks[p] == b,
    decreases n,
{
    if n > 0 && blocks[n - 1] != b {
        lemma_order_position(blocks, b, n - 1);
    }
}

proof fn lemma_min_position(blocks: Seq<Block>, preds: Seq<Block>, n: int, min: int)
    requires
        0 <= n <= preds.len(),
    ensures
        ({
            let m = min_position(blocks, preds, n, min);
            &&& m <= min
            &&& m == min || 0 <= m < blocks.len() && preds.contains(blocks[m])
        }),
    decreases n,
{
    if n > 0 {
        lemma_min_position(blocks, preds, n - 1, min);
        lemma_order_position(blocks, preds[n - 1], blocks.len() as int);
        assert(preds.contains(preds[n - 1]));
    }
}

/// The blocks of a loop are below its last one.
proof fn lemma_loop_within(c: Ctx, at: int, i: int, min: int)
    requires
        cfg_ok(c.f, c.cfg),
        edges_agree(c.f),
        0 <= at < c.cfg.postorder.len(),
        i <= at,
        within(tree_of(c), min, at),
    ensures
        within(tree_of(c), loop_start(c, i, min), at),
    decreases i + 1,
{
    let up = tree_of(c);
    let order = c.cfg.postorder;
    if i >= min && i >= 0 {
        let b = order[i];
        let preds = c.f.preds[b.ix()];
        let m = min_position(order, preds, preds.len() as int, min);
        lemma_min_position(order, preds, preds.len() as int, min);
        assert(tree_ok(c.f, order, up));
        if m != min {
            let k = choose|k: int| 0 <= k < preds.len() && preds[k] == order[m];
            assert(b.0 < c.f.blocks);
            assert(c.f.succs[c.f.preds[b.ix()][k].ix()].contains(b));
            assert forall|x: int| m <= x < i implies (#[trigger] up[x]) <= i by {
                assert(c.f.succs[order[m].ix()].contains(order[i]));
            }
            assert(within(up, m, i));
            assert(within(up, i, at));
            lemma_within_trans(up, m, i, at);
        }
        lemma_loop_within(c, at, i - 1, m);
    }
}

pub proof fn lemma_loop_members(
    c: Ctx,
    liveins: Seq<Set<int>>,
    live: Set<int>,
    lo: int,
    hi: int,
    j: int,
    v: int,
)
    requires
        c.cfg.postorder.no_duplicates(),
        forall|i: int|
            0 <= i < c.cfg.postorder.len() ==> (#[trigger] c.cfg.postorder[i]).0 < liveins.len(),
        0 <= lo,
        hi <= c.cfg.postorder.len(),
        0 <= j < c.cfg.postorder.len(),
    ensures
        loop_liveins(c.cfg.postorder, liveins, live, lo, hi).len() == liveins.len(),
        live_at(c, loop_liveins(c.cfg.postorder, liveins, live, lo, hi), j, v) == (live_at(
            c,
            liveins,
            j,
            v,
        ) || lo <= j < hi && live.contains(v)),
    decreases hi - lo,
{
    if hi > lo {
        let order = c.cfg.postorder;
        lemma_loop_members(c, liveins, live, lo, hi - 1, j, v);
        assert(order[hi - 1].0 < liveins.len());
        assert(order[j].0 < liveins.len());
        if j != hi - 1 {
            assert(order[j] != order[hi - 1]);
            assert(order[j].ix() != order[hi - 1].ix());
        }
    }
}

/// The scan is done with a block.
pub proof fn lemma_flow_done(
    c: Ctx,
    live: Set<int>,
    liveins: Seq<Set<int>>,
    vreg_ranges: Seq<LiveRangeIndex>,
    at: int,
    lists: Seq<Set<int>>,
)
    requires
        func_ok(c.f),
        cfg_ok(c.f, c.cfg),
        ssa_form(c.f),
        0 <= at < c.cfg.postorder.len(),
        liveins.len() == c.f.blocks,
        block_flow(c, live, liveins, vreg_ranges, at),
        ({
            let min = loop_start(c, at, at);
            let b = c.cfg.postorder[at];
            let grown = if has_loop(c, at) {
                loop_liveins(c.cfg.postorder, liveins, live, min, at + 1)
            } else {
                liveins
            };
            lists == grown.update(b.ix(), live)
        }),
    ensures
        flow_ok(c, lists, vreg_ranges, at + 1),
{
    reveal(flow_ok);
    reveal(block_flow);
    reveal(ssa_form);
    let up = tree_of(c);
    let order = c.cfg.postorder;
    let b = order[at];
    let start = loop_start(c, at, at);
    let min = if start < at {
        start
    } else {
        at
    };
    lemma_loop_within(c, at, at, at);
    assert(0 <= start);
    assert forall|j: int, v: int| 0 <= j < order.len() implies #[trigger] live_at(c, lists, j, v) == (
    if j == at {
        live.contains(v)
    } else {
        live_at(c, liveins, j, v) || min <= j < at && live.contains(v)
    }) by {
        lemma_loop_members(c, liveins, live, start, at + 1, j, v);
        if j != at {
            assert(order[j].ix() != order[at].ix()) by {
                assert(order[j] != order[at]);
            }
        }
        assert(order[at].0 < liveins.len());
    }
    assert forall|v: int, d: int, j: int|
        #![trigger pending(c, at + 1, v, d), live_at(c, lists, j, v)]
        pending(c, at + 1, v, d) && 0 <= j < at + 1 && live_at(c, lists, j, v) implies within(
        up,
        j,
        d,
    ) by {
        assert(pending(c, at, v, d));
        if j < at && live_at(c, liveins, j, v) {
        } else {
            assert(live.contains(v));
            assert(within(up, at, d));
            if j < at {
                assert(within(up, start, at));
                assert(within(up, j, at));
                lemma_within_trans(up, j, at, d);
            }
        }
    }
    assert forall|v: int, d: int, j: int, q: int|
        #![trigger pending(c, at + 1, v, d), live_at(c, lists, j, v), order[q]]
        pending(c, at + 1, v, d) && 0 <= j < q < at + 1 && c.f.succs[order[q].ix()].contains(order[j])
            && live_at(c, lists, j, v) implies live_at(c, lists, q, v) by {
        assert(pending(c, at, v, d));
        if live_at(c, liveins, j, v) {
            if q < at {
                assert(live_at(c, liveins, q, v));
            }
        }
    }
    assert forall|v: int, d: int|
        #[trigger] pending(c, at + 1, v, d) && vreg_ranges[v].is_valid() implies live_before(
        c,
        lists,
        at + 1,
        v,
    ) by {
        if live.contains(v) {
            assert(live_at(c, lists, at, v));
        } else {
            let j = choose|j: int| 0 <= j < at && #[trigger] live_at(c, liveins, j, v);
            assert(live_at(c, lists, j, v));
        }
    }
}

/// Nothing was scanned yet.
pub proof fn lemma_flow_start(
    c: Ctx,
    liveins: Seq<Set<int>>,
    vreg_ranges: Seq<LiveRangeIndex>,
)
    requires
        cfg_ok(c.f, c.cfg),
        liveins.len() == c.f.blocks,
        forall|b: int, v: int| 0 <= b < liveins.len() ==> !(#[trigger] liveins[b].contains(v)),
        vreg_ranges.len() == c.f.num_vregs,
        forall|v: int| 0 <= v < vreg_ranges.len() ==> !(#[trigger] vreg_ranges[v]).is_valid(),
        func_ok(c.f),
    ensures
        flow_ok(c, liveins, vreg_ranges, 0),
{
    reveal(flow_ok);
    lemma_pending_below(c, 0);
}

/// The registers that are live, and the live ranges that the scan is at, stay.
pub open spec fn same_flow(s: PassState, t: PassState) -> bool {
    &&& t.live == s.live
    &&& t.liveins == s.liveins
    &&& t.vreg_ranges == s.vreg_ranges
    &&& t.g.in_vreg == s.g.in_vreg
    &&& t.g.ranges.len() >= s.g.ranges.len()
    &&& forall|r: int| 0 <= r < s.g.ranges.len() ==> #[trigger] t.g.ranges[r] == s.g.ranges[r]
    &&& t.g.defs == s.g.defs
    &&& t.g.uses == s.g.uses
}

/// What holds between blocks.
pub open spec fn flows(c: Ctx, s: PassState, at: int) -> bool {
    &&& ssa_form(c.f) ==> flow_ok(c, s.liveins, s.vreg_ranges, at)
    &&& held(c.f, s.g)
    &&& defs_scanned(c, s.g.defs, at, 0x1_0000_0000, 0)
    &&& edges_live(c, s, at)
}

/// What holds within a block, with its instructions from number `end` on entered, and of the one
/// before them the operands before `slot`.
pub open spec fn flows_in(c: Ctx, s: PassState, at: int, end: int, slot: int) -> bool {
    &&& ssa_form(c.f) ==> {
        &&& block_flow(c, s.live, s.liveins, s.vreg_ranges, at)
        &&& defs_fresh(c, s.g, s.vreg_ranges, at)
    }
    &&& held(c.f, s.g)
    &&& defs_scanned(c, s.g.defs, at, end, slot)
    &&& edges_live_in(c, s, at, end, slot)
}

/// A definition is entered.
pub proof fn lemma_flows_def(c: Ctx, s: PassState, w: PassState, at: int, i: int, k: int, hi: int)
    requires
        func_ok(c.f),
        cfg_ok(c.f, c.cfg),
        0 <= at < c.cfg.postorder.len(),
        c.f.insns[c.cfg.postorder[at].ix()].has(i),
        0 <= i < c.f.insts,
        0 <= k < c.f.operands[i].len(),
        c.f.operands[i][k].kind is Def,
        flows_in(c, s, at, i + 1, k),
        s.g.in_vreg.len() == c.f.num_vregs,
        s.vreg_ranges.len() == c.f.num_vregs,
        others_listed(s.g, w.g, c.f.operands[i][k].vreg.vreg),
        w.live == s.live.remove(c.f.operands[i][k].vreg.ix()),
        w.liveins == s.liveins,
        w.vreg_ranges == s.vreg_ranges.update(
            c.f.operands[i][k].vreg.ix(),
            LiveRangeIndex(u32::MAX),
        ),
        held(c.f, w.g),
        w.g.defs.len() == s.g.defs.len() + 1,
        w.g.defs.take(s.g.defs.len() as int) == s.g.defs,
        w.g.defs.last().pos.inst.ix() == i,
        w.g.defs.last().slot == k,
        spans_stay_but(
            s.g,
            w.g,
            c.f.operands[i][k].vreg.ix(),
            c.cfg.block_entry[c.cfg.postorder[at].ix()].ix(),
            hi,
        ),
        hi <= c.cfg.block_exit[c.cfg.postorder[at].ix()].ix(),
        hi == def_pos(c.f.operands[i][k], Inst(i as u32)).ix(),
    ensures
        flows_in(c, w, at, i + 1, k + 1),
{
    reveal(defs_fresh);
    let b = c.cfg.postorder[at];
    lemma_in_def(c, s, w, at, i, k, hi);
    let v = c.f.operands[i][k].vreg.vreg;
    assert(b.0 < c.f.blocks);
    lemma_defs_operand(c, s.g.defs, w.g.defs, at, i, k);
    assert(def_in(c.f, v as int, b));
    lemma_def_in_below(c, v as int, b);
    if ssa_form(c.f) {
        lemma_flow_def(
            c,
            s.live,
            s.liveins,
            s.vreg_ranges,
            at,
            v as int,
            LiveRangeIndex(u32::MAX),
        );
        assert forall|x: int| #[trigger] def_in(c.f, x, b) && w.vreg_ranges[x].is_valid() implies is_fresh(
            c,
            w.g,
            b,
            x,
            w.vreg_ranges[x],
        ) by {
            lemma_def_in_below(c, x, b);
            assert(s.vreg_ranges[x] == w.vreg_ranges[x]);
            lemma_fresh_other(c, s.g, w.g, b, v, x, s.vreg_ranges[x]);
        }
    }
}

/// A use is entered.
pub proof fn lemma_flows_use(
    c: Ctx,
    s: PassState,
    w: PassState,
    at: int,
    i: int,
    k: int,
    lr: LiveRangeIndex,
)
    requires
        func_ok(c.f),
        cfg_ok(c.f, c.cfg),
        0 <= at < c.cfg.postorder.len(),
        c.f.insns[c.cfg.postorder[at].ix()].has(i),
        0 <= i < c.f.insts,
        0 <= k < c.f.operands[i].len(),
        c.f.operands[i][k].kind is Use,
        c.f.operands[i][k].vreg.vreg < c.f.num_vregs,
        flows_in(c, s, at, i + 1, k),
        s.g.in_vreg.len() == c.f.num_vregs,
        s.vreg_ranges.len() == c.f.num_vregs,
        others_listed(s.g, w.g, c.f.operands[i][k].vreg.vreg),
        w.live == s.live.insert(c.f.operands[i][k].vreg.ix()),
        w.liveins == s.liveins,
        w.vreg_ranges == s.vreg_ranges.update(c.f.operands[i][k].vreg.ix(), lr),
        held(c.f, w.g),
        w.g.defs == s.g.defs,
        w.g.in_vreg[c.f.operands[i][k].vreg.ix()].contains(lr.0),
        lr.0 < w.g.ranges.len(),
        w.g.ranges[lr.ix()].vreg.0 == c.f.operands[i][k].vreg.vreg,
        w.g.ranges[lr.ix()].range.from.ix()
            <= c.cfg.block_entry[c.cfg.postorder[at].ix()].ix(),
        2 * i < w.g.ranges[lr.ix()].range.to.ix(),
        spans_stay(s.g, w.g),
        c.f.branches[i] ==> c.cfg.block_exit[c.cfg.postorder[at].ix()].ix()
            < w.g.ranges[lr.ix()].range.to.ix(),
        use_pos(
            c,
            c.cfg.postorder[at],
            Inst(i as u32),
            reused_input(c.f.operands[i], 0),
            k,
        ).ix() < w.g.ranges[lr.ix()].range.to.ix(),
    ensures
        flows_in(c, w, at, i + 1, k + 1),
{
    reveal(defs_fresh);
    let b = c.cfg.postorder[at];
    let v = c.f.operands[i][k].vreg.vreg;
    assert(b.0 < c.f.blocks);
    lemma_blocks_apart(c, b.ix(), b.ix());
    let n = choose|n: int|
        0 <= n < w.g.in_vreg[v as int].len() && w.g.in_vreg[v as int][n] == lr.0;
    assert(block_ok(c.f, b.ix()));
    assert(w.g.in_vreg[v as int][n] == lr.0);
    assert forall|p: int|
        c.cfg.block_entry[b.ix()].ix() <= p < w.g.ranges[lr.ix()].range.to.ix() implies #[trigger] covers(
        w.g,
        v as int,
        p,
    ) by {
        assert(w.g.in_vreg[v as int][n] == lr.0);
    }
    lemma_in_use(c, s, w, at, i, k);
    lemma_defs_operand(c, s.g.defs, w.g.defs, at, i, k);
    assert(use_in(c.f, v as int, b));
    if ssa_form(c.f) {
        lemma_flow_use(c, s.live, s.liveins, s.vreg_ranges, at, v as int, lr);
        assert forall|x: int| #[trigger] def_in(c.f, x, b) && w.vreg_ranges[x].is_valid() implies is_fresh(
            c,
            w.g,
            b,
            x,
            w.vreg_ranges[x],
        ) by {
            lemma_def_in_below(c, x, b);
            if x != v {
                assert(s.vreg_ranges[x] == w.vreg_ranges[x]);
                lemma_fresh_other(c, s.g, w.g, b, v, x, s.vreg_ranges[x]);
            } else {
                lemma_defs_before_use(c, b, x, i, k, w.g.ranges[lr.ix()].range.to.ix());
            }
        }
    }
}

/// What two steps leave of the live ranges of other registers.
pub proof fn lemma_listed_trans(g: GraphState, h: GraphState, k: GraphState, v: u32)
    requires
        others_listed(g, h, v),
        others_listed(h, k, v),
    ensures
        others_listed(g, k, v),
{
    assert forall|w: int| 0 <= w < g.in_vreg.len() && w != v implies #[trigger] k.in_vreg[w]
        == g.in_vreg[w] by {
        assert(h.in_vreg[w] == g.in_vreg[w]);
    }
    assert forall|r: int| 0 <= r < g.ranges.len() implies (#[trigger] k.ranges[r]).vreg
        == g.ranges[r].vreg && (g.ranges[r].vreg.0 != v ==> k.ranges[r].range == g.ranges[r].range) by {
        assert(h.ranges[r].vreg == g.ranges[r].vreg);
    }
}

/// When the scan comes to a definition, the live range that it is at is one of the register, and the
/// definition lies in it.
pub proof fn lemma_def_met(c: Ctx, s: PassState, at: int, i: int, k: int)
    requires
        func_ok(c.f),
        cfg_ok(c.f, c.cfg),
        ssa_form(c.f),
        0 <= at < c.cfg.postorder.len(),
        c.f.insns[c.cfg.postorder[at].ix()].has(i),
        0 <= i < c.f.insts,
        0 <= k < c.f.operands[i].len(),
        c.f.operands[i][k].kind is Def,
        flows_in(c, s, at, i + 1, k),
        s.vreg_ranges[c.f.operands[i][k].vreg.ix()].is_valid(),
    ensures
        ({
            let v = c.f.operands[i][k].vreg.ix();
            let lr = s.vreg_ranges[v];
            &&& s.g.in_vreg[v].contains(lr.0)
            &&& s.g.ranges[lr.ix()].range.has(def_pos(c.f.operands[i][k], Inst(i as u32)))
        }),
{
    reveal(defs_fresh);
    let b = c.cfg.postorder[at];
    let v = c.f.operands[i][k].vreg.ix();
    assert(b.0 < c.f.blocks);
    assert(block_ok(c.f, b.ix()));
    assert(def_in(c.f, v, b));
    assert(is_fresh(c, s.g, b, v, s.vreg_ranges[v]));
}

/// The scan of a block begins: what is live is noted.
pub proof fn lemma_flows_begun(c: Ctx, s: PassState, t: PassState, w: PassState, at: int)
    requires
        func_ok(c.f),
        cfg_ok(c.f, c.cfg),
        0 <= at < c.cfg.postorder.len(),
        flows(c, s, at),
        s.vreg_ranges.len() == c.f.num_vregs,
        t.vreg_ranges.len() == c.f.num_vregs,
        ({
            let b = c.cfg.postorder[at];
            let succs = c.f.succs[b.ix()];
            &&& t.live == live_out(s.liveins, succs, succs.len() as int)
            &&& t.liveins == s.liveins
            &&& t.g.defs == s.g.defs
            &&& forall|x: int|
                0 <= x < t.vreg_ranges.len() ==> if t.live.contains(x) {
                    noted(
                        t.g,
                        (CodeRange {
                            from: c.cfg.block_entry[b.ix()],
                            to: c.cfg.block_exit[b.ix()].succ(),
                        }),
                        x,
                        #[trigger] t.vreg_ranges[x],
                    )
                } else {
                    t.vreg_ranges[x] == s.vreg_ranges[x]
                }
        }),
        same_flow(t, w),
        held(c.f, w.g),
        s.g.in_vreg.len() == c.f.num_vregs,
        graph_ok(c.f, t.g),
        spans_stay(s.g, t.g),
        spanned(
            t.g,
            t.live,
            (CodeRange {
                from: c.cfg.block_entry[c.cfg.postorder[at].ix()],
                to: c.cfg.block_exit[c.cfg.postorder[at].ix()].succ(),
            }),
            c.f.num_vregs as int,
        ),
    ensures
        flows_in(c, w, at, 0x1_0000_0000, 0),
{
    let b = c.cfg.postorder[at];
    assert(b.0 < c.f.blocks);
    assert(block_ok(c.f, b.ix()));
    lemma_in_start(c, s, t, at);
    lemma_spans_same(c.f, t.g, w.g);
    lemma_in_same(c, t, w, at, 0x1_0000_0000, 0);
    if ssa_form(c.f) {
        lemma_flow_begun(c, s.liveins, s.vreg_ranges, at);
        lemma_flow_noted(c, t.live, t.liveins, s.vreg_ranges, t.vreg_ranges, at);
        assert(defs_fresh(c, w.g, w.vreg_ranges, at)) by {
            reveal(defs_fresh);
            assert forall|x: int| #[trigger] def_in(c.f, x, b) && w.vreg_ranges[x].is_valid() implies is_fresh(
                c,
                w.g,
                b,
                x,
                w.vreg_ranges[x],
            ) by {
                lemma_def_in_below(c, x, b);
                let lr = t.vreg_ranges[x];
                if t.live.contains(x) {
                    assert(w.g.ranges[lr.ix()] == t.g.ranges[lr.ix()]);
                    lemma_defs_before_end(c, b, x, w.g.ranges[lr.ix()].range.to.ix());
                } else {
                    assert(t.vreg_ranges[x] == s.vreg_ranges[x]);
                }
            }
        }
    }
}

/// What else the scan does, does no harm.
pub proof fn lemma_flows_same(c: Ctx, s: PassState, t: PassState, at: int, end: int, slot: int)
    requires
        func_ok(c.f),
        cfg_ok(c.f, c.cfg),
        0 <= at < c.cfg.postorder.len(),
        graph_ok(c.f, s.g),
        s.g.in_vreg.len() == c.f.num_vregs,
        flows_in(c, s, at, end, slot),
        same_flow(s, t),
        held(c.f, t.g),
    ensures
        flows_in(c, t, at, end, slot),
{
    lemma_spans_same(c.f, s.g, t.g);
    lemma_in_same(c, s, t, at, end, slot);
    if ssa_form(c.f) {
        reveal(defs_fresh);
        let b = c.cfg.postorder[at];
        assert forall|x: int| #[trigger] def_in(c.f, x, b) && t.vreg_ranges[x].is_valid() implies is_fresh(
            c,
            t.g,
            b,
            x,
            t.vreg_ranges[x],
        ) by {
            assert(is_fresh(c, s.g, b, x, s.vreg_ranges[x]));
            assert(t.g.ranges[s.vreg_ranges[x].ix()] == s.g.ranges[s.vreg_ranges[x].ix()]);
        }
    }
}

} // verus!
