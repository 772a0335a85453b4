//! What the edits do with the values of registers.
use crate::apply::{
    begins_with_def, defining_block, edge_place, range_alloc, start_of_block, ApplyIn,
};
use crate::assign::{hint_ok, AllocState};
use crate::carry::{
    crossing_move, enters, feeds, hands_over, is_param, kept_apart, law_arg_moved, law_edge_moved,
    law_edges_apart, law_split_moved, law_splits_apart, lemma_edge_of_place, lemma_range_located,
    on_edge, only_feeds, split_move, Crossing,
};
use crate::cfg::{lemma_reachable_step, reachable};
use crate::data::{InsertMovePrio, InsertedMove};
use crate::dom::{def_in, use_in};
use crate::fixup::pass_fix_all;
use crate::flow::live_at;
use crate::func::{block_ok, lemma_params_before, params_before, FuncModel};
use crate::graph::{mention_ok, range_ok, vreg_ok};
use crate::groups::{
    edits_at, law_group_in_parallel, lemma_pairs_at, lemma_place_key, lemma_self_kept, moves_at,
    pairs_of, points_fit, run_edits, scratch_of,
};
use crate::handed::{args_noted, law_all_handed, params_noted};
use crate::index::{Block, VRegIndex};
use crate::lists::{lemma_below, lemma_neq};
use crate::liveness::{
    branch_arg, ctx_ok, in_ok, is_arg, may_hold, out_ok, pass_blocks, passes, takes_param, Ctx,
    PassState,
};
use crate::locate::{apply_input, frame_done, law_locations_apart, search_done};
use crate::moves::dests_ok;
use crate::order::vregs_in_order;
use crate::parts::{covers, filled, in_some};
use crate::reg::{Allocation, OperandPolicy, ProgPoint};
use crate::resolve::{edits_all, place_key, PlacedModel};
use crate::run::{allocated, applied, apply_start, located, locations_sound};
use crate::setup::pass_start;
use crate::sort::{keys_sorted, law_stable_sort, HasKey};
use crate::spans::{comes_in, edges_live, is_read, joined, last_inst, lemma_read_below, wanted};
use crate::spill::SlotState;
use vstd::prelude::*;

verus! {

/// What the moves are made from.
pub open spec fn found(c: Ctx) -> ApplyIn {
    let (u, a, t) = located(c)->Ok_0;
    apply_input(c, u, a, t)
}

/// The moves.
pub open spec fn found_moves(c: Ctx) -> Seq<InsertedMove> {
    let (u, a, t) = located(c)->Ok_0;
    applied(c, u, a, t).moves
}

/// The edits with their places.
pub open spec fn found_edits(c: Ctx) -> Seq<PlacedModel> {
    let (u, a, t) = located(c)->Ok_0;
    let s = applied(c, u, a, t);
    edits_all(c, a.g.vregs, s.moves, s.params)->Ok_0
}

/// No scratch register is one that a class offers, and no operand demands one.
pub open spec fn scratch_free(c: Ctx) -> bool {
    &&& forall|k: int, n: int, i: int|
        #![trigger c.m.scratch_by_class[k], c.m.regs_by_class[n][i]]
        0 <= k < c.m.scratch_by_class.len() && 0 <= n < c.m.regs_by_class.len() && 0 <= i
            < c.m.regs_by_class[n].len() ==> c.m.regs_by_class[n][i].ix()
            != c.m.scratch_by_class[k].ix()
    &&& forall|k: int, i: int, j: int|
        #![trigger c.m.scratch_by_class[k], c.f.operands[i][j]]
        0 <= k < c.m.scratch_by_class.len() && 0 <= i < c.f.insts && 0 <= j
            < c.f.operands[i].len() ==> (c.f.operands[i][j].policy matches OperandPolicy::FixedReg(
            p,
        ) ==> p.ix() != c.m.scratch_by_class[k].ix())
}

/// No live range of a register is in a scratch register.
pub proof fn lemma_scratch_unused(c: Ctx, v: int, i: int, k: int)
    requires
        allocated(c) is Ok,
        locations_sound(c),
        scratch_free(c),
        0 <= v < found(c).g.in_vreg.len(),
        0 <= i < found(c).g.in_vreg[v].len(),
        0 <= k < c.m.scratch_by_class.len(),
    ensures
        range_alloc(found(c), found(c).g.in_vreg[v][i]) != Some(
            Allocation::Reg(c.m.scratch_by_class[k]),
        ),
{
    let (u, a, t) = located(c)->Ok_0;
    let x = found(c);
    let r = x.g.in_vreg[v][i];
    lemma_below(x.g.in_vreg, x.g.ranges.len() as int, v, i);
    assert(range_ok(c.f, x.g, r as int));
    assert(in_some(a.g.in_bundle, a.g.in_vreg[v][i]));
    let b = x.g.ranges[r as int].bundle.ix();
    assert(hint_ok(c, a.g.bundles[b].allocation.as_reg()));
    reveal(may_hold);
    let _ = c.m.scratch_by_class[k];
}

proof fn lemma_apart(
    c: Ctx,
    u: PassState,
    a: AllocState,
    t: SlotState,
    v: int,
    i: int,
    w: int,
    j: int,
)
    requires
        search_done(c, a),
        frame_done(c.f, a, t),
        filled(a.g),
        0 <= v < a.g.in_vreg.len(),
        0 <= i < a.g.in_vreg[v].len(),
        0 <= w < a.g.in_vreg.len(),
        0 <= j < a.g.in_vreg[w].len(),
        v != w || i != j,
        a.g.ranges[a.g.in_vreg[v][i] as int].range.meets(
            a.g.ranges[a.g.in_vreg[w][j] as int].range,
        ),
    ensures
        range_alloc(apply_input(c, u, a, t), a.g.in_vreg[v][i]) != range_alloc(
            apply_input(c, u, a, t),
            a.g.in_vreg[w][j],
        ),
{
    let r = a.g.in_vreg[v][i];
    let q = a.g.in_vreg[w][j];
    lemma_neq(a.g.in_vreg, a.g.ranges.len() as int, v, i, w, j);
    assert(in_some(a.g.in_bundle, a.g.in_vreg[v][i]));
    assert(in_some(a.g.in_bundle, a.g.in_vreg[w][j]));
    let (b, k) = choose|b: int, k: int|
        0 <= b < a.g.in_bundle.len() && 0 <= k < a.g.in_bundle[b].len()
            && #[trigger] a.g.in_bundle[b][k] == r;
    let (d, l) = choose|d: int, l: int|
        0 <= d < a.g.in_bundle.len() && 0 <= l < a.g.in_bundle[d].len()
            && #[trigger] a.g.in_bundle[d][l] == q;
    law_locations_apart(c, u, a, t, b as u32, k, d as u32, l);
}

/// Live ranges that have a point in common are in different locations.
pub proof fn lemma_kept_apart(c: Ctx)
    requires
        allocated(c) is Ok,
        locations_sound(c),
    ensures
        kept_apart(found(c)),
{
    let (u, a, t) = located(c)->Ok_0;
    let x = found(c);
    assert forall|v: int, i: int, w: int, j: int|
        #![trigger x.g.in_vreg[v][i], x.g.in_vreg[w][j]]
        0 <= v < x.g.in_vreg.len() && 0 <= i < x.g.in_vreg[v].len() && 0 <= w < x.g.in_vreg.len()
            && 0 <= j < x.g.in_vreg[w].len() && (v != w || i != j)
            && x.g.ranges[x.g.in_vreg[v][i] as int].range.meets(
            x.g.ranges[x.g.in_vreg[w][j] as int].range,
        ) implies range_alloc(x, x.g.in_vreg[v][i]) != range_alloc(x, x.g.in_vreg[w][j]) by {
        lemma_apart(c, u, a, t, v, i, w, j);
    }
}

/// The place of the moves between live ranges at a point within a block.
pub open spec fn split_place(pos: ProgPoint) -> int {
    place_key(pos.ix(), InsertMovePrio::Regular)
}

pub proof fn lemma_points_fit(c: Ctx)
    requires
        ctx_ok(c),
        allocated(c) is Ok,
        locations_sound(c),
    ensures
        points_fit(found_moves(c)),
{
    let (u, a, t) = located(c)->Ok_0;
    let moves = applied(c, u, a, t).moves;
    assert forall|i: int| 0 <= i < moves.len() implies (#[trigger] moves[i]).pos.ix() <= u32::MAX by {
        assert(moves[i].pos.inst.0 < c.f.insts);
    }
}

/// Moves at the place of a point within a block.
proof fn lemma_split_place(m: InsertedMove, pos: ProgPoint)
    requires
        m.key() == split_place(pos),
    ensures
        m.pos == pos,
        m.prio is Regular,
{
    lemma_place_key(
        m,
        InsertedMove {
            pos,
            prio: InsertMovePrio::Regular,
            from_alloc: m.from_alloc,
            to_alloc: m.to_alloc,
        },
    );
}

/// Every move at a point within a block goes to a live range that begins there.
proof fn lemma_split_pair(c: Ctx, pos: ProgPoint, n: int) -> (m: (int, int))
    requires
        ctx_ok(c),
        allocated(c) is Ok,
        locations_sound(c),
        0 <= n < pairs_of(moves_at(found_moves(c), split_place(pos))).len(),
    ensures
        ({
            let x = found(c);
            let (w, j) = m;
            let r = x.g.in_vreg[w][j];
            &&& 0 <= w < c.f.num_vregs
            &&& 0 < j < x.g.in_vreg[w].len()
            &&& x.g.ranges[r as int].range.from == pos
            &&& range_alloc(x, r) == Some(
                pairs_of(moves_at(found_moves(c), split_place(pos)))[n].1,
            )
            &&& range_alloc(x, x.g.in_vreg[w][j - 1]) != range_alloc(x, r)
        }),
{
    let (u, a, t) = located(c)->Ok_0;
    let x = found(c);
    let moves = found_moves(c);
    let k = split_place(pos);
    let pairs = pairs_of(moves_at(moves, k));
    lemma_kept_apart(c);
    law_splits_apart(x, apply_start(c.f), u.fixups);
    lemma_pairs_at(moves, k);
    let i = choose|i: int|
        #![trigger moves[i]]
        0 <= i < moves.len() && moves[i].key() == k && pairs[n] == (
            moves[i].from_alloc,
            moves[i].to_alloc,
        );
    lemma_split_place(moves[i], pos);
    let (w, j) = choose|w: int, j: int| #[trigger] split_move(x, moves[i], w, j);
    (w, j)
}

/// The moves at a point within a block go to different locations, none of them a scratch register.
proof fn lemma_split_dests(c: Ctx, pos: ProgPoint)
    requires
        ctx_ok(c),
        allocated(c) is Ok,
        locations_sound(c),
        scratch_free(c),
    ensures
        dests_ok(
            pairs_of(moves_at(found_moves(c), split_place(pos))),
            scratch_of(c, moves_at(found_moves(c), split_place(pos))),
        ),
{
    let (u, a, t) = located(c)->Ok_0;
    let x = found(c);
    let moves = found_moves(c);
    let k = split_place(pos);
    let group = moves_at(moves, k);
    let pairs = pairs_of(group);
    lemma_kept_apart(c);
    law_splits_apart(x, apply_start(c.f), u.fixups);
    lemma_pairs_at(moves, k);
    assert forall|i: int, j: int|
        #![trigger moves[i], moves[j]]
        0 <= i < j < moves.len() && moves[i].key() == k && moves[j].key() == k && moves[i].to_alloc
            == moves[j].to_alloc implies moves[i].from_alloc == moves[j].from_alloc by {
        lemma_split_place(moves[i], pos);
        lemma_split_place(moves[j], pos);
    }
    assert forall|n: int| 0 <= n < pairs.len() implies (#[trigger] pairs[n]).1 != scratch_of(
        c,
        group,
    ) by {
        let (w, j) = lemma_split_pair(c, pos, n);
        let class = group[0].from_alloc.class()->Some_0.ix();
        lemma_scratch_unused(c, w, j, class);
    }
}

/// What the locations hold after the moves at a point within a block.
pub open spec fn after_splits(c: Ctx, pos: ProgPoint, held: spec_fn(Allocation) -> int) -> spec_fn(
    Allocation,
) -> int {
    run_edits(edits_at(found_edits(c), split_place(pos)), held)
}

/// A location that no live range that begins at the point is in keeps what it holds.
#[verifier::rlimit(40)]
proof fn lemma_stays(
    c: Ctx,
    pos: ProgPoint,
    v: int,
    k: int,
    held: spec_fn(Allocation) -> int,
)
    requires
        ctx_ok(c),
        allocated(c) is Ok,
        locations_sound(c),
        scratch_free(c),
        0 <= v < c.f.num_vregs,
        0 <= k < found(c).g.in_vreg[v].len(),
        found(c).g.ranges[found(c).g.in_vreg[v][k] as int].range.has(pos),
        range_alloc(found(c), found(c).g.in_vreg[v][k]) is Some,
        forall|n: int|
            0 <= n < pairs_of(moves_at(found_moves(c), split_place(pos))).len() ==> (
            #[trigger] pairs_of(moves_at(found_moves(c), split_place(pos)))[n]).1 != range_alloc(
                found(c),
                found(c).g.in_vreg[v][k],
            )->Some_0,
    ensures
        ({
            let loc = range_alloc(found(c), found(c).g.in_vreg[v][k])->Some_0;
            after_splits(c, pos, held)(loc) == held(loc)
        }),
{
    let (u, a, t) = located(c)->Ok_0;
    let x = found(c);
    let s = applied(c, u, a, t);
    let group = moves_at(s.moves, split_place(pos));
    lemma_points_fit(c);
    lemma_split_dests(c, pos);
    law_group_in_parallel(c, a.g.vregs, s.moves, s.params, split_place(pos), held);
    let class = group[0].from_alloc.class()->Some_0.ix();
    lemma_scratch_unused(c, v, k, class);
}

/// A register that is live before and after a point within a block, in one live range, stays where
/// it is: the moves at the point leave its location as it is.
pub proof fn law_live_through(
    c: Ctx,
    pos: ProgPoint,
    v: int,
    k: int,
    held: spec_fn(Allocation) -> int,
)
    requires
        ctx_ok(c),
        allocated(c) is Ok,
        locations_sound(c),
        scratch_free(c),
        0 <= v < c.f.num_vregs,
        0 <= k < found(c).g.in_vreg[v].len(),
        found(c).g.ranges[found(c).g.in_vreg[v][k] as int].range.has(pos),
        found(c).g.ranges[found(c).g.in_vreg[v][k] as int].range.from.ix() < pos.ix(),
    ensures
        range_alloc(found(c), found(c).g.in_vreg[v][k]) is Some,
        ({
            let loc = range_alloc(found(c), found(c).g.in_vreg[v][k])->Some_0;
            after_splits(c, pos, held)(loc) == held(loc)
        }),
{
    let (u, a, t) = located(c)->Ok_0;
    let x = found(c);
    let r = x.g.in_vreg[v][k];
    lemma_range_located(x, apply_start(c.f), u.fixups, v as u32, k);
    let pairs = pairs_of(moves_at(found_moves(c), split_place(pos)));
    assert forall|n: int| 0 <= n < pairs.len() implies (#[trigger] pairs[n]).1 != range_alloc(
        x,
        r,
    )->Some_0 by {
        let (w, j) = lemma_split_pair(c, pos, n);
        lemma_kept_apart(c);
        lemma_below(x.g.in_vreg, x.g.ranges.len() as int, w, j);
        assert(range_ok(c.f, x.g, x.g.in_vreg[w][j] as int));
        assert(x.g.ranges[x.g.in_vreg[w][j] as int].range.meets(x.g.ranges[r as int].range));
        let _ = (x.g.in_vreg[w][j], x.g.in_vreg[v][k]);
    }
    lemma_stays(c, pos, v, k, held);
}

/// Where a live range of a register follows the one before it without a gap, within a block and not
/// where the register is defined, the moves at that point bring the value from the location of the
/// one to that of the other.
pub proof fn law_split_carried(c: Ctx, v: int, k: int, held: spec_fn(Allocation) -> int)
    requires
        ctx_ok(c),
        allocated(c) is Ok,
        locations_sound(c),
        scratch_free(c),
        0 <= v < c.f.num_vregs,
        0 < k < found(c).g.in_vreg[v].len(),
        ({
            let x = found(c);
            let q = x.g.in_vreg[v][k - 1];
            let r = x.g.in_vreg[v][k];
            let pos = x.g.ranges[r as int].range.from;
            &&& x.g.ranges[q as int].range.to == pos
            &&& !start_of_block(c, pos)
            &&& !begins_with_def(x.g, r)
        }),
    ensures
        ({
            let x = found(c);
            let q = range_alloc(x, x.g.in_vreg[v][k - 1]);
            let r = range_alloc(x, x.g.in_vreg[v][k]);
            let pos = x.g.ranges[x.g.in_vreg[v][k] as int].range.from;
            &&& q is Some
            &&& r is Some
            &&& after_splits(c, pos, held)(r->Some_0) == held(q->Some_0)
        }),
{
    let (u, a, t) = located(c)->Ok_0;
    let x = found(c);
    let s = applied(c, u, a, t);
    let r = x.g.in_vreg[v][k];
    let pos = x.g.ranges[r as int].range.from;
    law_split_moved(x, apply_start(c.f), u.fixups, v as u32, k);
    let m = InsertedMove {
        pos,
        prio: InsertMovePrio::Regular,
        from_alloc: range_alloc(x, x.g.in_vreg[v][k - 1])->Some_0,
        to_alloc: range_alloc(x, r)->Some_0,
    };
    if m.from_alloc != m.to_alloc {
        lemma_split_done(c, m, held);
    } else {
        lemma_not_overwritten(c, v, k);
        lemma_stays(c, pos, v, k, held);
    }
}

/// A move within a block brings the value from its source to its destination.
#[verifier::rlimit(40)]
proof fn lemma_split_done(c: Ctx, m: InsertedMove, held: spec_fn(Allocation) -> int)
    requires
        ctx_ok(c),
        allocated(c) is Ok,
        locations_sound(c),
        scratch_free(c),
        found_moves(c).contains(m),
        m.prio is Regular,
        m.from_alloc != m.to_alloc,
    ensures
        after_splits(c, m.pos, held)(m.to_alloc) == held(m.from_alloc),
{
    let (u, a, t) = located(c)->Ok_0;
    let s = applied(c, u, a, t);
    let key = split_place(m.pos);
    let pairs = pairs_of(moves_at(s.moves, key));
    lemma_pairs_at(s.moves, key);
    lemma_points_fit(c);
    lemma_split_dests(c, m.pos);
    let i = choose|i: int| 0 <= i < s.moves.len() && s.moves[i] == m;
    assert(s.moves[i].key() == key);
    assert(pairs.contains((m.from_alloc, m.to_alloc)));
    let n = choose|n: int| 0 <= n < pairs.len() && pairs[n] == (m.from_alloc, m.to_alloc);
    law_group_in_parallel(c, a.g.vregs, s.moves, s.params, key, held);
    assert(pairs[n].1 == m.to_alloc);
}

/// No move at the point goes to a live range that begins there in the location of the one before it.
proof fn lemma_not_overwritten(c: Ctx, v: int, k: int)
    requires
        ctx_ok(c),
        allocated(c) is Ok,
        locations_sound(c),
        0 <= v < c.f.num_vregs,
        0 < k < found(c).g.in_vreg[v].len(),
        range_alloc(found(c), found(c).g.in_vreg[v][k]) is Some,
        range_alloc(found(c), found(c).g.in_vreg[v][k]) == range_alloc(
            found(c),
            found(c).g.in_vreg[v][k - 1],
        ),
    ensures
        ({
            let pos = found(c).g.ranges[found(c).g.in_vreg[v][k] as int].range.from;
            &&& found(c).g.ranges[found(c).g.in_vreg[v][k] as int].range.has(pos)
            &&& forall|n: int|
                0 <= n < pairs_of(moves_at(found_moves(c), split_place(pos))).len() ==> (
                #[trigger] pairs_of(moves_at(found_moves(c), split_place(pos)))[n]).1
                    != range_alloc(found(c), found(c).g.in_vreg[v][k])->Some_0
        }),
{
    let x = found(c);
    let r = x.g.in_vreg[v][k];
    let pos = x.g.ranges[r as int].range.from;
    let pairs = pairs_of(moves_at(found_moves(c), split_place(pos)));
    lemma_below(x.g.in_vreg, x.g.ranges.len() as int, v, k);
    assert(range_ok(c.f, x.g, r as int));
    assert forall|n: int| 0 <= n < pairs.len() implies (#[trigger] pairs[n]).1 != range_alloc(
        x,
        r,
    )->Some_0 by {
        let (w, j) = lemma_split_pair(c, pos, n);
        lemma_kept_apart(c);
        lemma_below(x.g.in_vreg, x.g.ranges.len() as int, w, j);
        assert(range_ok(c.f, x.g, x.g.in_vreg[w][j] as int));
        assert(x.g.ranges[x.g.in_vreg[w][j] as int].range.meets(x.g.ranges[r as int].range));
        let _ = (x.g.in_vreg[w][j], x.g.in_vreg[v][k]);
    }
}

/// The place of the moves on an edge.
pub open spec fn edge_key(c: Ctx, from: int, to: int) -> int {
    let place = edge_place(c.f, from, to)->Some_0;
    place_key(place.0.ix(), place.1)
}

/// What the locations hold after the moves on an edge.
pub open spec fn after_edge(c: Ctx, from: int, to: int, held: spec_fn(Allocation) -> int) -> spec_fn(
    Allocation,
) -> int {
    run_edits(edits_at(found_edits(c), edge_key(c, from, to)), held)
}

/// Moves at the place of an edge.
proof fn lemma_edge_place(c: Ctx, from: int, to: int, m: InsertedMove)
    requires
        edge_place(c.f, from, to) is Some,
        m.key() == edge_key(c, from, to),
    ensures
        edge_place(c.f, from, to) == Some((m.pos, m.prio)),
        on_edge(m),
{
    let place = edge_place(c.f, from, to)->Some_0;
    lemma_place_key(
        m,
        InsertedMove {
            pos: place.0,
            prio: place.1,
            from_alloc: m.from_alloc,
            to_alloc: m.to_alloc,
        },
    );
}

/// Every move at the place of an edge goes to a location of a register that comes over the edge.
proof fn lemma_edge_pair(c: Ctx, from: Block, to: Block, n: int) -> (m: (Crossing, int))
    requires
        ctx_ok(c),
        allocated(c) is Ok,
        locations_sound(c),
        from.0 < c.f.blocks,
        to.0 < c.f.blocks,
        c.f.succs[from.ix()].contains(to),
        c.f.preds[to.ix()].contains(from),
        edge_place(c.f, from.ix(), to.ix()) is Some,
        0 <= n < pairs_of(moves_at(found_moves(c), edge_key(c, from.ix(), to.ix()))).len(),
    ensures
        m.0.from == from,
        m.0.to == to,
        enters(
            found(c),
            m.0,
            m.1,
            pairs_of(moves_at(found_moves(c), edge_key(c, from.ix(), to.ix())))[n].1,
        ),
{
    let (u, a, t) = located(c)->Ok_0;
    let x = found(c);
    let moves = found_moves(c);
    let k = edge_key(c, from.ix(), to.ix());
    let pairs = pairs_of(moves_at(moves, k));
    lemma_kept_apart(c);
    law_edges_apart(x, apply_start(c.f), u.fixups);
    lemma_pairs_at(moves, k);
    let i = choose|i: int|
        #![trigger moves[i]]
        0 <= i < moves.len() && moves[i].key() == k && pairs[n] == (
            moves[i].from_alloc,
            moves[i].to_alloc,
        );
    lemma_edge_place(c, from.ix(), to.ix(), moves[i]);
    let e = choose|e: Crossing| #[trigger] crossing_move(x, moves[i], e);
    lemma_edge_of_place(x, moves[i], e, from, to);
    let j = choose|j: int| #[trigger] enters(x, e, j, moves[i].to_alloc);
    (e, j)
}

/// The moves on an edge that go to one location come from one, and none goes to a scratch register.
proof fn lemma_edge_dests(c: Ctx, from: Block, to: Block)
    requires
        ctx_ok(c),
        allocated(c) is Ok,
        locations_sound(c),
        scratch_free(c),
        from.0 < c.f.blocks,
        to.0 < c.f.blocks,
        c.f.succs[from.ix()].contains(to),
        c.f.preds[to.ix()].contains(from),
        edge_place(c.f, from.ix(), to.ix()) is Some,
    ensures
        dests_ok(
            pairs_of(moves_at(found_moves(c), edge_key(c, from.ix(), to.ix()))),
            scratch_of(c, moves_at(found_moves(c), edge_key(c, from.ix(), to.ix()))),
        ),
{
    let (u, a, t) = located(c)->Ok_0;
    let x = found(c);
    let moves = found_moves(c);
    let k = edge_key(c, from.ix(), to.ix());
    let group = moves_at(moves, k);
    let pairs = pairs_of(group);
    lemma_kept_apart(c);
    law_edges_apart(x, apply_start(c.f), u.fixups);
    lemma_pairs_at(moves, k);
    assert forall|i: int, j: int|
        #![trigger moves[i], moves[j]]
        0 <= i < j < moves.len() && moves[i].key() == k && moves[j].key() == k && moves[i].to_alloc
            == moves[j].to_alloc implies moves[i].from_alloc == moves[j].from_alloc by {
        lemma_edge_place(c, from.ix(), to.ix(), moves[i]);
        lemma_edge_place(c, from.ix(), to.ix(), moves[j]);
    }
    assert forall|n: int| 0 <= n < pairs.len() implies (#[trigger] pairs[n]).1 != scratch_of(
        c,
        group,
    ) by {
        let (e, j) = lemma_edge_pair(c, from, to, n);
        let class = group[0].from_alloc.class()->Some_0.ix();
        lemma_scratch_unused(c, e.v as int, j, class);
    }
}

/// A location of a register after an edge keeps what it holds where no move goes to it.
#[verifier::rlimit(40)]
proof fn lemma_edge_stays(
    c: Ctx,
    from: Block,
    to: Block,
    v: int,
    k: int,
    held: spec_fn(Allocation) -> int,
)
    requires
        ctx_ok(c),
        allocated(c) is Ok,
        locations_sound(c),
        scratch_free(c),
        from.0 < c.f.blocks,
        to.0 < c.f.blocks,
        c.f.succs[from.ix()].contains(to),
        c.f.preds[to.ix()].contains(from),
        edge_place(c.f, from.ix(), to.ix()) is Some,
        0 <= v < c.f.num_vregs,
        0 <= k < found(c).g.in_vreg[v].len(),
        range_alloc(found(c), found(c).g.in_vreg[v][k]) is Some,
        forall|n: int|
            0 <= n < pairs_of(moves_at(found_moves(c), edge_key(c, from.ix(), to.ix()))).len()
                ==> (#[trigger] pairs_of(
                moves_at(found_moves(c), edge_key(c, from.ix(), to.ix())),
            )[n]).1 != range_alloc(found(c), found(c).g.in_vreg[v][k])->Some_0,
    ensures
        ({
            let loc = range_alloc(found(c), found(c).g.in_vreg[v][k])->Some_0;
            after_edge(c, from.ix(), to.ix(), held)(loc) == held(loc)
        }),
{
    let (u, a, t) = located(c)->Ok_0;
    let x = found(c);
    let s = applied(c, u, a, t);
    let key = edge_key(c, from.ix(), to.ix());
    let group = moves_at(s.moves, key);
    lemma_points_fit(c);
    lemma_edge_dests(c, from, to);
    lemma_edge_key(c, from.ix(), to.ix());
    law_group_in_parallel(c, a.g.vregs, s.moves, s.params, key, held);
    let class = group[0].from_alloc.class()->Some_0.ix();
    lemma_scratch_unused(c, v, k, class);
}

/// The place of the moves on an edge is not one of block parameters.
proof fn lemma_edge_key(c: Ctx, from: int, to: int)
    requires
        edge_place(c.f, from, to) is Some,
    ensures
        edge_key(c, from, to) % 8 != 1,
{
}

/// No move on the edge goes to the location that a move from it to itself is for.
#[verifier::rlimit(40)]
proof fn lemma_edge_kept(c: Ctx, from: Block, to: Block, i: int)
    requires
        ctx_ok(c),
        allocated(c) is Ok,
        locations_sound(c),
        edge_place(c.f, from.ix(), to.ix()) is Some,
        0 <= i < found_moves(c).len(),
        found_moves(c)[i].key() == edge_key(c, from.ix(), to.ix()),
        found_moves(c)[i].from_alloc == found_moves(c)[i].to_alloc,
    ensures
        forall|n: int|
            0 <= n < pairs_of(moves_at(found_moves(c), edge_key(c, from.ix(), to.ix()))).len()
                ==> (#[trigger] pairs_of(
                moves_at(found_moves(c), edge_key(c, from.ix(), to.ix())),
            )[n]).1 != found_moves(c)[i].to_alloc,
{
    let (u, a, t) = located(c)->Ok_0;
    let x = found(c);
    let moves = found_moves(c);
    let key = edge_key(c, from.ix(), to.ix());
    lemma_kept_apart(c);
    law_edges_apart(x, apply_start(c.f), u.fixups);
    lemma_edge_place(c, from.ix(), to.ix(), moves[i]);
    assert forall|j: int|
        0 <= j < moves.len() && (#[trigger] moves[j]).key() == key && moves[j].to_alloc
            == moves[i].to_alloc implies moves[j].from_alloc == moves[i].from_alloc by {
        lemma_edge_place(c, from.ix(), to.ix(), moves[j]);
        let _ = (moves[i], moves[j]);
    }
    lemma_self_kept(moves, key, i);
}

/// A move that is noted for an edge brings the value from its source to its destination.
#[verifier::rlimit(40)]
proof fn lemma_edge_done(
    c: Ctx,
    from: Block,
    to: Block,
    m: InsertedMove,
    v: int,
    k: int,
    held: spec_fn(Allocation) -> int,
)
    requires
        ctx_ok(c),
        allocated(c) is Ok,
        locations_sound(c),
        scratch_free(c),
        from.0 < c.f.blocks,
        to.0 < c.f.blocks,
        c.f.succs[from.ix()].contains(to),
        c.f.preds[to.ix()].contains(from),
        edge_place(c.f, from.ix(), to.ix()) == Some((m.pos, m.prio)),
        found_moves(c).contains(m),
        0 <= v < c.f.num_vregs,
        0 <= k < found(c).g.in_vreg[v].len(),
        range_alloc(found(c), found(c).g.in_vreg[v][k]) == Some(m.to_alloc),
    ensures
        after_edge(c, from.ix(), to.ix(), held)(m.to_alloc) == held(m.from_alloc),
{
    let (u, a, t) = located(c)->Ok_0;
    let x = found(c);
    let s = applied(c, u, a, t);
    let key = edge_key(c, from.ix(), to.ix());
    let pairs = pairs_of(moves_at(s.moves, key));
    let i = choose|i: int| 0 <= i < s.moves.len() && s.moves[i] == m;
    assert(s.moves[i].key() == key);
    lemma_pairs_at(s.moves, key);
    lemma_points_fit(c);
    lemma_edge_dests(c, from, to);
    lemma_edge_key(c, from.ix(), to.ix());
    if m.from_alloc != m.to_alloc {
        assert(pairs.contains((m.from_alloc, m.to_alloc)));
        let n = choose|n: int| 0 <= n < pairs.len() && pairs[n] == (m.from_alloc, m.to_alloc);
        law_group_in_parallel(c, a.g.vregs, s.moves, s.params, key, held);
        assert(pairs[n].1 == m.to_alloc);
    } else {
        lemma_edge_kept(c, from, to, i);
        lemma_edge_stays(c, from, to, v, k, held);
    }
}

/// The live ranges of registers are in order, and so are the lists of handed values and block
/// parameters.
pub proof fn lemma_orders(c: Ctx)
    requires
        allocated(c) is Ok,
        locations_sound(c),
    ensures
        vregs_in_order(found(c).g),
        keys_sorted(found(c).outs),
        keys_sorted(found(c).ins),
{
    let t = pass_blocks(c, pass_start(c), 0)->Ok_0;
    let s = pass_fix_all(t, 0, c.f.num_vregs as int)->Ok_0;
    law_stable_sort(s.outs);
    law_stable_sort(s.ins);
}

/// A live range of register `v` is in the location where the register leaves block `b`.
pub open spec fn leaves_in(c: Ctx, v: int, b: Block, loc: Allocation) -> bool {
    exists|q: int|
        0 <= q < found(c).g.in_vreg[v].len() && found(c).g.ranges[(
        #[trigger] found(c).g.in_vreg[v][q]) as int].range.has(c.cfg.block_exit[b.ix()])
            && range_alloc(found(c), found(c).g.in_vreg[v][q]) == Some(loc)
}

/// A live range of register `v` is in the location where the register enters block `b`.
pub open spec fn enters_in(c: Ctx, v: int, b: Block, loc: Allocation) -> bool {
    exists|r: int|
        0 <= r < found(c).g.in_vreg[v].len() && found(c).g.ranges[(
        #[trigger] found(c).g.in_vreg[v][r]) as int].range.has(c.cfg.block_entry[b.ix()])
            && range_alloc(found(c), found(c).g.in_vreg[v][r]) == Some(loc)
}

/// Is there an edge between the two blocks, known to both?
pub open spec fn is_edge(c: Ctx, from: Block, to: Block) -> bool {
    &&& from.0 < c.f.blocks
    &&& to.0 < c.f.blocks
    &&& c.f.succs[from.ix()].contains(to)
    &&& c.f.preds[to.ix()].contains(from)
}

/// No register that is live over an edge in one live range is moved or overwritten there.
#[verifier::rlimit(40)]
proof fn lemma_edge_through(
    c: Ctx,
    from: Block,
    to: Block,
    v: u32,
    k: int,
    held: spec_fn(Allocation) -> int,
)
    requires
        ctx_ok(c),
        allocated(c) is Ok,
        locations_sound(c),
        scratch_free(c),
        is_edge(c, from, to),
        edge_place(c.f, from.ix(), to.ix()) is Some,
        v < c.f.num_vregs,
        0 <= k < found(c).g.in_vreg[v as int].len(),
        found(c).g.ranges[found(c).g.in_vreg[v as int][k] as int].range.has(
            c.cfg.block_exit[from.ix()],
        ),
        found(c).g.ranges[found(c).g.in_vreg[v as int][k] as int].range.has(
            c.cfg.block_entry[to.ix()],
        ),
        range_alloc(found(c), found(c).g.in_vreg[v as int][k]) is Some,
        !is_param(found(c), Crossing { from, to, v }),
    ensures
        ({
            let loc = range_alloc(found(c), found(c).g.in_vreg[v as int][k])->Some_0;
            after_edge(c, from.ix(), to.ix(), held)(loc) == held(loc)
        }),
{
    let x = found(c);
    let r = x.g.in_vreg[v as int][k];
    let key = edge_key(c, from.ix(), to.ix());
    let pairs = pairs_of(moves_at(found_moves(c), key));
    assert forall|n: int| 0 <= n < pairs.len() implies (#[trigger] pairs[n]).1 != range_alloc(
        x,
        r,
    )->Some_0 by {
        let (e, j) = lemma_edge_pair(c, from, to, n);
        lemma_kept_apart(c);
        let q = x.g.in_vreg[e.v as int][j];
        if e.v == v && j == k {
            assert(e == (Crossing { from, to, v }));
        } else {
            assert(x.g.ranges[q as int].range.meets(x.g.ranges[r as int].range));
            let _ = (x.g.in_vreg[e.v as int][j], x.g.in_vreg[v as int][k]);
        }
    }
    lemma_edge_stays(c, from, to, v as int, k, held);
}

/// Where the scan found a register to be live a live range of it has a location.
pub proof fn lemma_place_of(c: Ctx, v: u32, p: ProgPoint) -> (q: int)
    requires
        ctx_ok(c),
        allocated(c) is Ok,
        locations_sound(c),
        v < c.f.num_vregs,
        covers(located(c)->Ok_0.0.g, v as int, p.ix()),
    ensures
        0 <= q < found(c).g.in_vreg[v as int].len(),
        found(c).g.ranges[found(c).g.in_vreg[v as int][q] as int].range.has(p),
        range_alloc(found(c), found(c).g.in_vreg[v as int][q]) is Some,
{
    let (u, a, t) = located(c)->Ok_0;
    let x = found(c);
    assert(covers(a.g, v as int, p.ix()));
    let q = choose|q: int|
        0 <= q < x.g.in_vreg[v as int].len() && ({
            let range = x.g.ranges[(#[trigger] x.g.in_vreg[v as int][q]) as int].range;
            range.from.ix() <= p.ix() < range.to.ix()
        });
    lemma_range_located(x, apply_start(c.f), u.fixups, v, q);
    q
}

/// The place of a block that can be reached in the order.
pub proof fn lemma_in_order_at(c: Ctx, b: Block) -> (j: int)
    requires
        ctx_ok(c),
        b.0 < c.f.blocks,
        reachable(c.f, b),
    ensures
        0 <= j < c.cfg.postorder.len(),
        c.cfg.postorder[j] == b,
{
    assert(c.cfg.postorder.contains(b));
    choose|j: int| 0 <= j < c.cfg.postorder.len() && c.cfg.postorder[j] == b
}

/// A register that is live at the start of a block has a location there, and at the end of each
/// block before it.
pub proof fn law_live_over_edge(c: Ctx, from: Block, to: Block, v: u32)
    requires
        ctx_ok(c),
        allocated(c) is Ok,
        locations_sound(c),
        is_edge(c, from, to),
        reachable(c.f, from),
        v < c.f.num_vregs,
        found(c).liveins[to.ix()].contains(v as int),
    ensures
        exists|loc: Allocation| leaves_in(c, v as int, from, loc),
        exists|loc: Allocation| enters_in(c, v as int, to, loc),
{
    let (u, a, t) = located(c)->Ok_0;
    let x = found(c);
    lemma_reachable_step(c.f, from, to);
    let k = lemma_in_order_at(c, from);
    let j = lemma_in_order_at(c, to);
    reveal(edges_live);
    assert(live_at(c, u.liveins, j, v as int));
    let q = lemma_place_of(c, v, c.cfg.block_exit[c.cfg.postorder[k].ix()]);
    let r = lemma_place_of(c, v, c.cfg.block_entry[to.ix()]);
    assert(leaves_in(c, v as int, from, range_alloc(x, x.g.in_vreg[v as int][q])->Some_0));
    assert(enters_in(c, v as int, to, range_alloc(x, x.g.in_vreg[v as int][r])->Some_0));
}

/// A register that a block uses, and neither defines nor takes as a parameter, is live at its start.
pub proof fn law_used_comes_in(c: Ctx, b: Block, v: u32)
    requires
        ctx_ok(c),
        allocated(c) is Ok,
        locations_sound(c),
        b.0 < c.f.blocks,
        reachable(c.f, b),
        use_in(c.f, v as int, b),
        comes_in(c.f, v as int, b),
    ensures
        found(c).liveins[b.ix()].contains(v as int),
{
    let (u, a, t) = located(c)->Ok_0;
    let j = lemma_in_order_at(c, b);
    reveal(edges_live);
    reveal(wanted);
    assert(use_in(c.f, v as int, c.cfg.postorder[j]));
    assert(live_at(c, u.liveins, j, v as int));
}

/// A register that is live at the start of a block is live at the start of each block before it that
/// neither defines it nor takes it as a parameter.
pub proof fn law_live_comes_in(c: Ctx, from: Block, to: Block, v: u32)
    requires
        ctx_ok(c),
        allocated(c) is Ok,
        locations_sound(c),
        is_edge(c, from, to),
        reachable(c.f, from),
        found(c).liveins[to.ix()].contains(v as int),
        comes_in(c.f, v as int, from),
    ensures
        found(c).liveins[from.ix()].contains(v as int),
{
    let (u, a, t) = located(c)->Ok_0;
    lemma_reachable_step(c.f, from, to);
    let k = lemma_in_order_at(c, from);
    let j = lemma_in_order_at(c, to);
    reveal(edges_live);
    reveal(wanted);
    assert(live_at(c, u.liveins, j, v as int));
    assert(joined(c.f, c.cfg.postorder[k], c.cfg.postorder[j]));
    assert(live_at(c, u.liveins, k, v as int));
}

/// The branch at the end of block `from` reads register `arg` and hands it to the parameter of block
/// `to`.
pub open spec fn reads_arg(f: FuncModel, from: Block, to: Block, arg: u32, param: u32) -> bool {
    &&& f.branches[last_inst(f, from)]
    &&& exists|k: int, j: int|
        #[trigger] is_arg(f, from, to, param, k, j) && branch_arg(f, from, k, j).vreg.vreg == arg
            && branch_arg(f, from, k, j).kind is Use
}

/// A register that a branch hands to a parameter has a location where the branch is, and the
/// parameter has one at the start of its block.
pub proof fn law_arg_over_edge(c: Ctx, from: Block, to: Block, arg: u32, param: u32)
    requires
        ctx_ok(c),
        allocated(c) is Ok,
        locations_sound(c),
        is_edge(c, from, to),
        reachable(c.f, from),
        reads_arg(c.f, from, to, arg, param),
    ensures
        exists|loc: Allocation| leaves_in(c, arg as int, from, loc),
        exists|loc: Allocation| enters_in(c, param as int, to, loc),
{
    let (u, a, t) = located(c)->Ok_0;
    let x = found(c);
    lemma_reachable_step(c.f, from, to);
    let n = lemma_in_order_at(c, from);
    let m = lemma_in_order_at(c, to);
    reveal(edges_live);
    let (k, j) = choose|k: int, j: int|
        #[trigger] is_arg(c.f, from, to, param, k, j) && branch_arg(c.f, from, k, j).vreg.vreg
            == arg && branch_arg(c.f, from, k, j).kind is Use;
    assert(block_ok(c.f, from.ix()));
    assert(block_ok(c.f, to.ix()));
    lemma_params_before(c.f, c.f.succs[from.ix()], k, c.f.succs[from.ix()].len() as int);
    let i = params_before(c.f, c.f.succs[from.ix()], k) + j;
    assert(is_read(c.f, c.cfg.postorder[n], i));
    lemma_read_below(c.f, from, i);
    let _ = c.f.params[c.cfg.postorder[m].ix()][j];
    let q = lemma_place_of(c, arg, c.cfg.block_exit[from.ix()]);
    let r = lemma_place_of(c, param, c.cfg.block_entry[to.ix()]);
    assert(leaves_in(c, arg as int, from, range_alloc(x, x.g.in_vreg[arg as int][q])->Some_0));
    assert(enters_in(c, param as int, to, range_alloc(x, x.g.in_vreg[param as int][r])->Some_0));
}

/// Location `after` holds after the edge what location `before` held before it. Where there is no
/// place for moves the two are one.
pub open spec fn brought(
    c: Ctx,
    from: Block,
    to: Block,
    before: Allocation,
    after: Allocation,
    held: spec_fn(Allocation) -> int,
) -> bool {
    if edge_place(c.f, from.ix(), to.ix()) is Some {
        after_edge(c, from.ix(), to.ix(), held)(after) == held(before)
    } else {
        after == before
    }
}

/// A register that the scan found in no definition of a block, nor among its parameters, is not
/// defined in it.
proof fn lemma_defined_elsewhere(c: Ctx, v: u32, b: Block)
    requires
        ctx_ok(c),
        allocated(c) is Ok,
        locations_sound(c),
        v < c.f.num_vregs,
        b.0 < c.f.blocks,
        !takes_param(c.f, b, v),
        !def_in(c.f, v as int, b),
    ensures
        defining_block(found(c), v as int) != b,
{
    let (u, a, t) = located(c)->Ok_0;
    let x = found(c);
    assert(vreg_ok(c.f, x.g, v as int));
    let d = x.g.vregs[v as int].def;
    if d.is_valid() {
        let def = u.g.defs[d.ix()];
        assert(mention_ok(c.f, x.g.defs[d.ix()].pos, x.g.defs[d.ix()].slot));
        assert(c.f.operands[def.pos.inst.ix()][def.slot as int].kind is Def);
        let _ = c.cfg.insn_block[def.pos.inst.ix()];
    }
}

#[verifier::rlimit(40)]
proof fn lemma_edge_brought(
    c: Ctx,
    from: Block,
    to: Block,
    v: u32,
    before: Allocation,
    after: Allocation,
    held: spec_fn(Allocation) -> int,
)
    requires
        ctx_ok(c),
        allocated(c) is Ok,
        locations_sound(c),
        scratch_free(c),
        is_edge(c, from, to),
        v < c.f.num_vregs,
        found(c).liveins[to.ix()].contains(v as int),
        comes_in(c.f, v as int, to),
        leaves_in(c, v as int, from, before),
        enters_in(c, v as int, to, after),
    ensures
        brought(c, from, to, before, after, held),
{
    let (u, a, t) = located(c)->Ok_0;
    let x = found(c);
    let list = x.g.in_vreg[v as int];
    let e = Crossing { from, to, v };
    lemma_orders(c);
    lemma_defined_elsewhere(c, v, to);
    assert(only_feeds(x, v, e)) by {
        assert forall|w: u32| #[trigger] feeds(x, w, e) implies w == v by {
            if w != v {
                let i = choose|i: int| 0 <= i < x.outs.len() && hands_over(#[trigger] x.outs[i], w, e);
                assert(out_ok(c.f, x.outs[i]));
            }
        }
    }
    assert(!is_param(x, e)) by {
        if is_param(x, e) {
            let n = choose|n: int|
                0 <= n < x.ins.len() && (#[trigger] x.ins[n]).0.0 == e.v && x.ins[n].1 == e.to
                    && x.ins[n].2 == e.from;
            assert(in_ok(c.f, x.ins[n]));
        }
    }
    let q = choose|q: int|
        0 <= q < list.len() && x.g.ranges[(#[trigger] x.g.in_vreg[v as int][q]) as int].range.has(
            c.cfg.block_exit[from.ix()],
        ) && range_alloc(x, x.g.in_vreg[v as int][q]) == Some(before);
    let r = choose|r: int|
        0 <= r < list.len() && x.g.ranges[(#[trigger] x.g.in_vreg[v as int][r]) as int].range.has(
            c.cfg.block_entry[to.ix()],
        ) && range_alloc(x, x.g.in_vreg[v as int][r]) == Some(after);
    let j = choose|j: int| 0 <= j < c.f.succs[from.ix()].len() && c.f.succs[from.ix()][j] == to;
    let p = choose|p: int| 0 <= p < c.f.preds[to.ix()].len() && c.f.preds[to.ix()][p] == from;
    if q == r {
        if edge_place(c.f, from.ix(), to.ix()) is Some {
            lemma_edge_through(c, from, to, v, q, held);
        }
    } else {
        assert(from == Block(from.ix() as u32));
        law_edge_moved(x, apply_start(c.f), u.fixups, v, from.ix(), j, p, q, r);
        let place = edge_place(c.f, from.ix(), to.ix())->Some_0;
        let m = InsertedMove {
            pos: place.0,
            prio: place.1,
            from_alloc: before,
            to_alloc: after,
        };
        lemma_edge_done(c, from, to, m, v as int, r, held);
    }
}

/// A register that is live at the start of a block, and neither a parameter of it nor defined in
/// it, has its value where it is to be after each edge to the block: the moves on the edge bring it
/// from the location that it has before the edge to the one that it has after it.
pub proof fn law_edge_carried(
    c: Ctx,
    from: Block,
    to: Block,
    v: u32,
    held: spec_fn(Allocation) -> int,
)
    requires
        ctx_ok(c),
        allocated(c) is Ok,
        locations_sound(c),
        scratch_free(c),
        is_edge(c, from, to),
        reachable(c.f, from),
        v < c.f.num_vregs,
        found(c).liveins[to.ix()].contains(v as int),
        comes_in(c.f, v as int, to),
    ensures
        exists|before: Allocation| leaves_in(c, v as int, from, before),
        exists|after: Allocation| enters_in(c, v as int, to, after),
        forall|before: Allocation, after: Allocation|
            leaves_in(c, v as int, from, before) && enters_in(c, v as int, to, after)
                ==> #[trigger] brought(c, from, to, before, after, held),
{
    law_live_over_edge(c, from, to, v);
    assert forall|before: Allocation, after: Allocation|
        leaves_in(c, v as int, from, before) && enters_in(
            c,
            v as int,
            to,
            after,
        ) implies #[trigger] brought(c, from, to, before, after, held) by {
        lemma_edge_brought(c, from, to, v, before, after, held);
    }
}

/// What is handed to a parameter, and the parameter, are noted.
proof fn lemma_arg_noted(c: Ctx, from: Block, to: Block, arg: u32, param: u32)
    requires
        ctx_ok(c),
        allocated(c) is Ok,
        locations_sound(c),
        is_edge(c, from, to),
        reachable(c.f, from),
        reads_arg(c.f, from, to, arg, param),
    ensures
        found(c).outs.contains((VRegIndex(arg), from, to, VRegIndex(param))),
        found(c).ins.contains((VRegIndex(param), to, from)),
{
    let n = lemma_in_order_at(c, from);
    lemma_reachable_step(c.f, from, to);
    let m = lemma_in_order_at(c, to);
    law_all_handed(c, pass_start(c));
    let (k, j) = choose|k: int, j: int|
        #[trigger] is_arg(c.f, from, to, param, k, j) && branch_arg(c.f, from, k, j).vreg.vreg
            == arg && branch_arg(c.f, from, k, j).kind is Use;
    assert(args_noted(c.f, found(c).outs, c.cfg.postorder[n]));
    assert(params_noted(c, located(c)->Ok_0.0, c.cfg.postorder[m], 0));
    let p = choose|p: int| 0 <= p < c.f.preds[to.ix()].len() && c.f.preds[to.ix()][p] == from;
    let _ = (c.f.params[to.ix()][j], c.f.preds[to.ix()][p]);
}

#[verifier::rlimit(40)]
proof fn lemma_arg_brought(
    c: Ctx,
    from: Block,
    to: Block,
    arg: u32,
    param: u32,
    before: Allocation,
    after: Allocation,
    held: spec_fn(Allocation) -> int,
)
    requires
        ctx_ok(c),
        allocated(c) is Ok,
        locations_sound(c),
        scratch_free(c),
        is_edge(c, from, to),
        found(c).outs.contains((VRegIndex(arg), from, to, VRegIndex(param))),
        found(c).ins.contains((VRegIndex(param), to, from)),
        forall|w: u32| #[trigger] passes(c.f, from, to, w, param) ==> w == arg,
        !found(c).liveins[to.ix()].contains(param as int),
        leaves_in(c, arg as int, from, before),
        enters_in(c, param as int, to, after),
    ensures
        edge_place(c.f, from.ix(), to.ix()) is Some,
        brought(c, from, to, before, after, held),
{
    let (u, a, t) = located(c)->Ok_0;
    let x = found(c);
    let e = Crossing { from, to, v: param };
    lemma_orders(c);
    let o = choose|o: int|
        0 <= o < x.outs.len() && x.outs[o] == (VRegIndex(arg), from, to, VRegIndex(param));
    let n = choose|n: int| 0 <= n < x.ins.len() && x.ins[n] == (VRegIndex(param), to, from);
    assert(out_ok(c.f, x.outs[o]));
    assert(only_feeds(x, arg, e)) by {
        assert forall|w: u32| #[trigger] feeds(x, w, e) implies w == arg by {
            let i = choose|i: int| 0 <= i < x.outs.len() && hands_over(#[trigger] x.outs[i], w, e);
            assert(out_ok(c.f, x.outs[i]));
            assert(passes(c.f, from, to, w, param));
        }
    }
    let q = choose|q: int|
        0 <= q < x.g.in_vreg[arg as int].len() && x.g.ranges[(
        #[trigger] x.g.in_vreg[arg as int][q]) as int].range.has(c.cfg.block_exit[from.ix()])
            && range_alloc(x, x.g.in_vreg[arg as int][q]) == Some(before);
    let r = choose|r: int|
        0 <= r < x.g.in_vreg[param as int].len() && x.g.ranges[(
        #[trigger] x.g.in_vreg[param as int][r]) as int].range.has(c.cfg.block_entry[to.ix()])
            && range_alloc(x, x.g.in_vreg[param as int][r]) == Some(after);
    law_arg_moved(x, apply_start(c.f), u.fixups, o, n, q, r);
    let place = edge_place(c.f, from.ix(), to.ix())->Some_0;
    let m = InsertedMove { pos: place.0, prio: place.1, from_alloc: before, to_alloc: after };
    lemma_edge_done(c, from, to, m, param as int, r, held);
}

/// A block parameter has the value that is handed to it where it is to be after the edge: the moves
/// on the edge bring it there from the location of the register that the branch hands over.
pub proof fn law_arg_carried(
    c: Ctx,
    from: Block,
    to: Block,
    arg: u32,
    param: u32,
    held: spec_fn(Allocation) -> int,
)
    requires
        ctx_ok(c),
        allocated(c) is Ok,
        locations_sound(c),
        scratch_free(c),
        is_edge(c, from, to),
        reachable(c.f, from),
        reads_arg(c.f, from, to, arg, param),
        forall|w: u32| #[trigger] passes(c.f, from, to, w, param) ==> w == arg,
        !found(c).liveins[to.ix()].contains(param as int),
    ensures
        edge_place(c.f, from.ix(), to.ix()) is Some,
        exists|before: Allocation| leaves_in(c, arg as int, from, before),
        exists|after: Allocation| enters_in(c, param as int, to, after),
        forall|before: Allocation, after: Allocation|
            leaves_in(c, arg as int, from, before) && enters_in(c, param as int, to, after)
                ==> #[trigger] brought(c, from, to, before, after, held),
{
    law_arg_over_edge(c, from, to, arg, param);
    lemma_arg_noted(c, from, to, arg, param);
    let before = choose|before: Allocation| leaves_in(c, arg as int, from, before);
    let after = choose|after: Allocation| enters_in(c, param as int, to, after);
    lemma_arg_brought(c, from, to, arg, param, before, after, held);
    assert forall|before: Allocation, after: Allocation|
        leaves_in(c, arg as int, from, before) && enters_in(
            c,
            param as int,
            to,
            after,
        ) implies #[trigger] brought(c, from, to, before, after, held) by {
        lemma_arg_brought(c, from, to, arg, param, before, after, held);
    }
}

} // verus!
