//! What the edits that come out do, point by point, with the values that instructions read.
use crate::announced::lemma_said_moves_nothing;
use crate::apply::{begins_with_def, edge_place, operand_place, range_alloc, start_of_block};
use crate::carried::{
    after_splits, brought, enters_in, found, found_edits, found_moves, is_edge, law_arg_carried,
    law_edge_carried, law_live_through, law_split_carried, leaves_in, lemma_kept_apart,
    lemma_points_fit, reads_arg, scratch_free,
};
use crate::carry::{
    crossing_move, law_edges_apart, law_splits_apart, lemma_kinds, on_edge, split_move, Crossing,
};
use crate::cfg::{lemma_reachable_step, reachable};
use crate::copied::{
    after_reuse, first_allocs, holds_operand, in_reach, law_live_through_reuse, law_reuse_copied,
    law_reuse_spares, lemma_def_owner, lemma_reuse_leaves, lemma_reusing_output, location_of,
    range_of,
};
use crate::copies::{input_upto, is_copied};
use crate::data::{InsertMovePrio, InsertedMove};
use crate::demands::lemma_none_reused;
use crate::dom::ssa_form;
use crate::fixed::{
    after_fixups, copy_serves, copy_source, copy_target, found_fixups, law_fixup_copied,
    law_live_through_fixups, law_target_available, lemma_demand_copied, lemma_fixup_exists,
    lemma_same_preg, lemma_target_not_scratch, targets_agree,
};
use crate::func::block_ok;
use crate::graph::{mention_ok, range_ok};
use crate::groups::{edits_at, edits_of, law_group_edits, lemma_place_key, moves_at, run_edits};
use crate::index::{Block, Inst};
use crate::lists::lemma_below;
use crate::liveness::{ctx_ok, inst_range, lemma_demanded, passes, Ctx};
use crate::moves::after_move;
use crate::needed::{
    alloc_of, early, late, law_input_sits, law_needed_sits, law_output_sits, law_still_inside,
    lemma_alloc_of, lemma_begins_written, lemma_block_ends, lemma_fits, lemma_follows, lemma_holder,
    lemma_holder_sits, lemma_input_not_written, lemma_needed_live, lemma_neighbours, needed,
    not_written, read_from, sits, succeeds, written_by,
};
use crate::operands::reuse_clean;
use crate::reg::{Allocation, EditModel, OperandPolicy, PReg, ProgPoint};
use crate::resolve::{edits_moves, edits_params, place_key, PlacedModel};
use crate::run::{allocated, applied, apply_start, edit_points, located};
use crate::sort::{has_key, keys_sorted, law_stable_sort, lemma_filter_none, stable_sort, HasKey};
use crate::spans::{comes_in, joined};
use vstd::prelude::*;

verus! {

/// What the locations hold after the edits at a point, done in the order in which they come out.
pub open spec fn done_at(
    edits: Seq<(ProgPoint, EditModel)>,
    pos: ProgPoint,
    held: spec_fn(Allocation) -> int,
) -> spec_fn(Allocation) -> int
    decreases edits.len(),
{
    if edits.len() == 0 {
        held
    } else {
        let after = done_at(edits.drop_last(), pos, held);
        match edits.last().1 {
            EditModel::Move { from, to } => if edits.last().0 == pos {
                |loc: Allocation|
                    if loc == to {
                        after(from)
                    } else {
                        after(loc)
                    }
            } else {
                after
            },
            EditModel::BlockParams { .. } => after,
        }
    }
}

/// What the locations hold after the edits that come out at a point.
pub open spec fn after_point(c: Ctx, pos: ProgPoint, held: spec_fn(Allocation) -> int) -> spec_fn(
    Allocation,
) -> int {
    done_at(allocated(c)->Ok_0.edits, pos, held)
}

/// What the locations hold after the edits of one kind.
spec fn after_kind(
    s: Seq<PlacedModel>,
    pos: ProgPoint,
    prio: InsertMovePrio,
    held: spec_fn(Allocation) -> int,
) -> spec_fn(Allocation) -> int {
    run_edits(edits_at(s, place_key(pos.ix(), prio)), held)
}

/// What the locations hold after the edits of all kinds, one kind after the other.
spec fn after_kinds(s: Seq<PlacedModel>, pos: ProgPoint, held: spec_fn(Allocation) -> int) -> spec_fn(
    Allocation,
) -> int {
    let a = after_kind(s, pos, InsertMovePrio::InEdgeMoves, held);
    let b = after_kind(s, pos, InsertMovePrio::BlockParam, a);
    let d = after_kind(s, pos, InsertMovePrio::Regular, b);
    let e = after_kind(s, pos, InsertMovePrio::MultiFixedReg, d);
    let f = after_kind(s, pos, InsertMovePrio::ReusedInput, e);
    after_kind(s, pos, InsertMovePrio::OutEdgeMoves, f)
}

/// One more edit, of another place.
proof fn lemma_kind_same(s: Seq<PlacedModel>, pos: ProgPoint, prio: InsertMovePrio)
    requires
        s.len() > 0,
        s.last().key() != place_key(pos.ix(), prio),
    ensures
        edits_at(s, place_key(pos.ix(), prio)) == edits_at(
            s.drop_last(),
            place_key(pos.ix(), prio),
        ),
{
    reveal(Seq::filter);
}

/// One more edit, of the place.
proof fn lemma_kind_more(
    s: Seq<PlacedModel>,
    pos: ProgPoint,
    prio: InsertMovePrio,
    held: spec_fn(Allocation) -> int,
)
    requires
        s.len() > 0,
        s.last().key() == place_key(pos.ix(), prio),
    ensures
        after_kind(s, pos, prio, held) == (match s.last().edit {
            EditModel::Move { from, to } => after_move(
                (from, to),
                after_kind(s.drop_last(), pos, prio, held),
            ),
            _ => after_kind(s.drop_last(), pos, prio, held),
        }),
{
    let k = place_key(pos.ix(), prio);
    reveal(Seq::filter);
    let t = edits_at(s.drop_last(), k);
    assert(edits_at(s, k) == t.push(s.last()));
    assert(t.push(s.last()).drop_last() =~= t);
}

/// No edit is of a place behind those of all edits.
proof fn lemma_kind_none(
    s: Seq<PlacedModel>,
    pos: ProgPoint,
    prio: InsertMovePrio,
    held: spec_fn(Allocation) -> int,
)
    requires
        forall|i: int| 0 <= i < s.len() ==> (#[trigger] s[i]).key() < place_key(pos.ix(), prio),
    ensures
        after_kind(s, pos, prio, held) == held,
{
    lemma_filter_none(s, has_key::<PlacedModel>(place_key(pos.ix(), prio)));
}

proof fn lemma_done(s: Seq<PlacedModel>, pos: ProgPoint, held: spec_fn(Allocation) -> int)
    requires
        keys_sorted(s),
    ensures
        done_at(edit_points(s), pos, held) == after_kinds(s, pos, held),
    decreases s.len(),
{
    let all = edit_points(s);
    if s.len() == 0 {
        lemma_kinds_none(s, pos, held, 0);
    } else {
        let t = s.drop_last();
        let last = s.last();
        lemma_done(t, pos, held);
        assert(all.drop_last() =~= edit_points(t));
        assert(all.last() == (ProgPoint::at(last.pos as int), last.edit));
        assert(ProgPoint::at(last.pos as int).ix() == last.pos);
        pos.law_ix_injective(ProgPoint::at(last.pos as int));
        let before = done_at(edit_points(t), pos, held);
        if last.pos != pos.ix() {
            lemma_kind_same(s, pos, InsertMovePrio::InEdgeMoves);
            lemma_kind_same(s, pos, InsertMovePrio::BlockParam);
            lemma_kind_same(s, pos, InsertMovePrio::Regular);
            lemma_kind_same(s, pos, InsertMovePrio::MultiFixedReg);
            lemma_kind_same(s, pos, InsertMovePrio::ReusedInput);
            lemma_kind_same(s, pos, InsertMovePrio::OutEdgeMoves);
        } else {
            if let EditModel::Move { from, to } = last.edit {
                assert(after_move((from, to), before) =~= done_at(all, pos, held));
            }
            lemma_kinds_push(s, pos, held);
        }
    }
}

/// No edit is of the kinds from number `n` on.
proof fn lemma_kinds_none(s: Seq<PlacedModel>, pos: ProgPoint, held: spec_fn(Allocation) -> int, n: int)
    requires
        0 <= n,
        forall|i: int| 0 <= i < s.len() ==> (#[trigger] s[i]).key() < pos.ix() * 8 + n,
    ensures
        forall|prio: InsertMovePrio, h: spec_fn(Allocation) -> int|
            prio.rank() >= n ==> #[trigger] after_kind(s, pos, prio, h) == h,
        n == 0 ==> after_kinds(s, pos, held) == held,
{
    assert forall|prio: InsertMovePrio, h: spec_fn(Allocation) -> int|
        prio.rank() >= n implies #[trigger] after_kind(s, pos, prio, h) == h by {
        lemma_kind_none(s, pos, prio, h);
    }
}

proof fn lemma_kinds_push(s: Seq<PlacedModel>, pos: ProgPoint, held: spec_fn(Allocation) -> int)
    requires
        keys_sorted(s),
        s.len() > 0,
        s.last().pos == pos.ix(),
    ensures
        after_kinds(s, pos, held) == (match s.last().edit {
            EditModel::Move { from, to } => after_move(
                (from, to),
                after_kinds(s.drop_last(), pos, held),
            ),
            _ => after_kinds(s.drop_last(), pos, held),
        }),
{
    let t = s.drop_last();
    let last = s.last();
    let r = last.prio.rank() as int;
    assert forall|i: int| 0 <= i < s.len() implies (#[trigger] s[i]).key() < pos.ix() * 8 + r + 1 by {
        if i < s.len() - 1 {
            assert(s[i].key() <= s[s.len() - 1].key());
        }
    }
    assert forall|i: int| 0 <= i < t.len() implies (#[trigger] t[i]).key() < pos.ix() * 8 + r + 1 by {
        assert(t[i] == s[i]);
    }
    lemma_kinds_none(s, pos, held, r + 1);
    lemma_kinds_none(t, pos, held, r + 1);
    assert forall|prio: InsertMovePrio, h: spec_fn(Allocation) -> int|
        prio.rank() < r implies #[trigger] after_kind(s, pos, prio, h) == after_kind(
        t,
        pos,
        prio,
        h,
    ) by {
        lemma_kind_same(s, pos, prio);
    }
    assert forall|h: spec_fn(Allocation) -> int| #[trigger]
        after_kind(s, pos, last.prio, h) == (match last.edit {
            EditModel::Move { from, to } => after_move((from, to), after_kind(t, pos, last.prio, h)),
            _ => after_kind(t, pos, last.prio, h),
        }) by {
        lemma_kind_more(s, pos, last.prio, h);
    }
}

/// The edits that come out at a point are done kind by kind: first those of an edge that comes in,
/// then those between live ranges, copies to given registers, copies of reused inputs, and those of
/// an edge that goes out.
proof fn lemma_point(c: Ctx, pos: ProgPoint, held: spec_fn(Allocation) -> int)
    requires
        succeeds(c),
    ensures
        ({
            let s = found_edits(c);
            let a = after_kind(s, pos, InsertMovePrio::InEdgeMoves, held);
            let d = after_kind(s, pos, InsertMovePrio::Regular, a);
            let e = after_kind(s, pos, InsertMovePrio::MultiFixedReg, d);
            let f = after_kind(s, pos, InsertMovePrio::ReusedInput, e);
            after_point(c, pos, held) == after_kind(s, pos, InsertMovePrio::OutEdgeMoves, f)
        }),
{
    let s = found_edits(c);
    assert(keys_sorted(s) && allocated(c)->Ok_0.edits == edit_points(s)) by {
        reveal(succeeds);
        lemma_sorted_edits(c);
    }
    lemma_done(s, pos, held);
    lemma_said_moves_nothing(
        c,
        pos.ix(),
        after_kind(s, pos, InsertMovePrio::InEdgeMoves, held),
    );
}

proof fn lemma_sorted_edits(c: Ctx)
    requires
        allocated(c) is Ok,
    ensures
        keys_sorted(found_edits(c)),
{
    let (u, a, t) = located(c)->Ok_0;
    let s = applied(c, u, a, t);
    let moves = edits_moves(c, stable_sort(s.moves), 0, Seq::empty())->Ok_0;
    law_stable_sort(edits_params(c, a.g.vregs, stable_sort(s.params), 0, moves)->Ok_0);
}

/// No move stands at the point with the kind.
spec fn none_of(c: Ctx, pos: ProgPoint, prio: InsertMovePrio) -> bool {
    forall|j: int|
        0 <= j < found_moves(c).len() ==> !((#[trigger] found_moves(c)[j]).pos == pos
            && found_moves(c)[j].prio == prio)
}

proof fn lemma_kind_empty(
    c: Ctx,
    pos: ProgPoint,
    prio: InsertMovePrio,
    held: spec_fn(Allocation) -> int,
)
    requires
        succeeds(c),
        !(prio is BlockParam),
        none_of(c, pos, prio),
    ensures
        after_kind(found_edits(c), pos, prio, held) == held,
{
    let k = place_key(pos.ix(), prio);
    let moves = found_moves(c);
    assert(edits_at(found_edits(c), k) == edits_of(c, moves_at(moves, k))) by {
        reveal(succeeds);
        let (u, a, t) = located(c)->Ok_0;
        let s = applied(c, u, a, t);
        lemma_points_fit(c);
        law_group_edits(c, a.g.vregs, s.moves, s.params, k);
    }
    let f = has_key::<InsertedMove>(k);
    assert forall|j: int| 0 <= j < moves.len() implies !f(#[trigger] moves[j]) by {
        if moves[j].key() == k {
            lemma_place_key(moves[j], InsertedMove { pos, prio, ..moves[j] });
        }
    }
    lemma_filter_none(moves, f);
}

/// The block of an instruction.
proof fn lemma_block_at(c: Ctx, b: Block, i: int)
    requires
        ctx_ok(c),
        b.0 < c.f.blocks,
        c.f.insns[b.ix()].has(i),
        0 <= i < c.f.insts,
    ensures
        c.cfg.insn_block[i] == b,
{
    let d = c.cfg.insn_block[i];
    assert(block_ok(c.f, b.ix()) && block_ok(c.f, d.ix()));
    let _ = (c.f.insns[b.ix()], c.f.insns[d.ix()]);
}

/// Moves on edges stand at the start of a block that they come into, or at the end of one that they
/// go out of.
proof fn lemma_edge_moves(c: Ctx, j: int) -> (e: Crossing)
    requires
        succeeds(c),
        0 <= j < found_moves(c).len(),
        on_edge(found_moves(c)[j]),
    ensures
        e.from.0 < c.f.blocks,
        e.to.0 < c.f.blocks,
        joined(c.f, e.from, e.to),
        edge_place(c.f, e.from.ix(), e.to.ix()) == Some(
            (found_moves(c)[j].pos, found_moves(c)[j].prio),
        ),
{
    reveal(succeeds);
    let (u, a, t) = located(c)->Ok_0;
    lemma_kept_apart(c);
    law_edges_apart(found(c), apply_start(c.f), u.fixups);
    choose|e: Crossing| #[trigger] crossing_move(found(c), found_moves(c)[j], e)
}

/// Within a block no moves on edges stand.
proof fn lemma_inside(c: Ctx, b: Block, pos: ProgPoint)
    requires
        succeeds(c),
        b.0 < c.f.blocks,
        c.f.insns[b.ix()].has(pos.inst.ix()),
    ensures
        pos.ix() != early(c.f.insns[b.ix()].from.0 as int) ==> none_of(
            c,
            pos,
            InsertMovePrio::InEdgeMoves,
        ),
        pos.ix() != late(c.f.insns[b.ix()].to.0 - 1) ==> none_of(
            c,
            pos,
            InsertMovePrio::OutEdgeMoves,
        ),
{
    lemma_fits(c);
    lemma_block_ends(c, b);
    lemma_block_at(c, b, pos.inst.ix());
    assert forall|j: int|
        0 <= j < found_moves(c).len() && (#[trigger] found_moves(c)[j]).pos == pos && on_edge(
            found_moves(c)[j],
        ) implies (found_moves(c)[j].prio is InEdgeMoves && pos.ix() == early(
        c.f.insns[b.ix()].from.0 as int,
    )) || (found_moves(c)[j].prio is OutEdgeMoves && pos.ix() == late(
        c.f.insns[b.ix()].to.0 - 1,
    )) by {
        let e = lemma_edge_moves(c, j);
        lemma_block_ends(c, e.to);
        lemma_block_ends(c, e.from);
        if found_moves(c)[j].prio is InEdgeMoves {
            lemma_block_at(c, e.to, pos.inst.ix());
        } else {
            lemma_block_at(c, e.from, pos.inst.ix());
        }
    }
}

/// Moves between live ranges stand before instructions that a block does not begin with, and copies
/// of reused inputs before instructions.
proof fn lemma_other_moves(c: Ctx, pos: ProgPoint)
    requires
        succeeds(c),
    ensures
        pos.pos is After || start_of_block(c, pos) ==> none_of(c, pos, InsertMovePrio::Regular),
        pos.pos is After ==> none_of(c, pos, InsertMovePrio::ReusedInput),
{
    reveal(succeeds);
    let (u, a, t) = located(c)->Ok_0;
    let moves = found_moves(c);
    lemma_kept_apart(c);
    law_splits_apart(found(c), apply_start(c.f), u.fixups);
    lemma_kinds(found(c), apply_start(c.f), u.fixups);
    assert forall|j: int| 0 <= j < moves.len() && (#[trigger] moves[j]).prio is Regular implies !(
    moves[j].pos.pos is After) && !start_of_block(c, moves[j].pos) by {
        let (w, y) = choose|w: int, y: int| #[trigger] split_move(found(c), moves[j], w, y);
    }
}

/// Where a register stays live from one instruction to the next within a block, the moves between
/// live ranges bring its value from the one location to the other.
proof fn lemma_carried_on(
    c: Ctx,
    b: Block,
    i: int,
    v: int,
    from: Allocation,
    to: Allocation,
    held: spec_fn(Allocation) -> int,
)
    requires
        succeeds(c),
        ssa_form(c.f),
        scratch_free(c),
        in_reach(c, b, i),
        c.f.insns[b.ix()].from.0 < i,
        not_written(c.f, i, v),
        sits(c, v, late(i - 1), from),
        sits(c, v, early(i), to),
    ensures
        after_splits(c, ProgPoint::before(Inst(i as u32)), held)(to) == held(from),
{
    let x = found(c);
    let pos = ProgPoint::before(Inst(i as u32));
    let y = choose|y: int|
        0 <= y < x.g.in_vreg[v].len() && #[trigger] range_of(c, v, y).from.ix() <= late(i - 1)
            < range_of(c, v, y).to.ix() && range_alloc(x, x.g.in_vreg[v][y]) == Some(from);
    let z = choose|z: int|
        0 <= z < x.g.in_vreg[v].len() && #[trigger] range_of(c, v, z).from.ix() <= early(i)
            < range_of(c, v, z).to.ix() && range_alloc(x, x.g.in_vreg[v][z]) == Some(to);
    lemma_fits(c);
    lemma_block_ends(c, b);
    lemma_block_at(c, b, i);
    assert(v < c.f.num_vregs) by {
        reveal(succeeds);
    }
    if y == z {
        assert(range_of(c, v, z).has(pos));
        lemma_through(c, pos, v, z, held);
    } else {
        lemma_neighbours(c, v, y, z, late(i - 1));
        range_of(c, v, z).from.law_ix_injective(pos);
        range_of(c, v, y).to.law_ix_injective(pos);
        lemma_begins_written(c, v, z, i);
        assert(!start_of_block(c, pos));
        lemma_split(c, v, z, held);
    }
}

proof fn lemma_through(c: Ctx, pos: ProgPoint, v: int, k: int, held: spec_fn(Allocation) -> int)
    requires
        succeeds(c),
        scratch_free(c),
        0 <= v < c.f.num_vregs,
        0 <= k < found(c).g.in_vreg[v].len(),
        range_of(c, v, k).has(pos),
        range_of(c, v, k).from.ix() < pos.ix(),
    ensures
        range_alloc(found(c), found(c).g.in_vreg[v][k]) matches Some(loc) && after_splits(
            c,
            pos,
            held,
        )(loc) == held(loc),
{
    reveal(succeeds);
    law_live_through(c, pos, v, k, held);
}

proof fn lemma_split(c: Ctx, v: int, k: int, held: spec_fn(Allocation) -> int)
    requires
        succeeds(c),
        scratch_free(c),
        0 <= v < c.f.num_vregs,
        0 < k < found(c).g.in_vreg[v].len(),
        range_of(c, v, k - 1).to == range_of(c, v, k).from,
        !start_of_block(c, range_of(c, v, k).from),
        !begins_with_def(found(c).g, found(c).g.in_vreg[v][k]),
    ensures
        ({
            let q = range_alloc(found(c), found(c).g.in_vreg[v][k - 1]);
            let r = range_alloc(found(c), found(c).g.in_vreg[v][k]);
            &&& q is Some
            &&& r is Some
            &&& after_splits(c, range_of(c, v, k).from, held)(r->Some_0) == held(q->Some_0)
        }),
{
    reveal(succeeds);
    law_split_carried(c, v, k, held);
}

/// Copies to given registers leave registers that are live at the instruction where they are.
proof fn lemma_past_fixups(
    c: Ctx,
    pos: ProgPoint,
    v: int,
    p: int,
    loc: Allocation,
    held: spec_fn(Allocation) -> int,
)
    requires
        succeeds(c),
        scratch_free(c),
        targets_agree(found_fixups(c), pos),
        pos.inst.0 < c.f.insts,
        p == early(pos.inst.ix()) || p == late(pos.inst.ix()),
        sits(c, v, p, loc),
    ensures
        after_fixups(c, pos, held)(loc) == held(loc),
{
    let x = found(c);
    let y = choose|y: int|
        0 <= y < x.g.in_vreg[v].len() && #[trigger] range_of(c, v, y).from.ix() <= p < range_of(
            c,
            v,
            y,
        ).to.ix() && range_alloc(x, x.g.in_vreg[v][y]) == Some(loc);
    assert(range_of(c, v, y).meets(inst_range(pos.inst))) by {
        lemma_fits(c);
    }
    reveal(succeeds);
    law_live_through_fixups(c, pos, v, y, held);
}

/// The edits before an instruction within a block.
proof fn lemma_before(c: Ctx, b: Block, i: int, held: spec_fn(Allocation) -> int)
    requires
        succeeds(c),
        in_reach(c, b, i),
        c.f.insns[b.ix()].from.0 < i,
    ensures
        ({
            let pos = ProgPoint::before(Inst(i as u32));
            after_point(c, pos, held) == after_reuse(
                c,
                Inst(i as u32),
                after_fixups(c, pos, after_splits(c, pos, held)),
            )
        }),
{
    let pos = ProgPoint::before(Inst(i as u32));
    lemma_fits(c);
    lemma_block_ends(c, b);
    lemma_point(c, pos, held);
    lemma_inside(c, b, pos);
    lemma_kind_empty(c, pos, InsertMovePrio::InEdgeMoves, held);
    let e = after_fixups(c, pos, after_splits(c, pos, held));
    lemma_kind_empty(
        c,
        pos,
        InsertMovePrio::OutEdgeMoves,
        after_reuse(c, Inst(i as u32), e),
    );
}

/// What an instruction within a block reads is where it reads it: the edits before the instruction
/// bring the value of the register there from the location that it has after the instruction before.
pub proof fn law_input_arrives(
    c: Ctx,
    b: Block,
    i: int,
    k: int,
    from: Allocation,
    held: spec_fn(Allocation) -> int,
)
    requires
        succeeds(c),
        ssa_form(c.f),
        scratch_free(c),
        in_reach(c, b, i),
        c.f.insns[b.ix()].from.0 < i,
        reuse_clean(c.f, Inst(i as u32)),
        targets_agree(found_fixups(c), ProgPoint::before(Inst(i as u32))),
        0 <= k < c.f.operands[i].len(),
        c.f.operands[i][k].kind is Use,
        !input_upto(c.f, Inst(i as u32), k, c.f.operands[i].len() as int),
        sits(c, c.f.operands[i][k].vreg.vreg as int, late(i - 1), from),
    ensures
        after_point(c, ProgPoint::before(Inst(i as u32)), held)(alloc_of(c, i, k)) == held(from),
{
    let v = c.f.operands[i][k].vreg.vreg as int;
    let pos = ProgPoint::before(Inst(i as u32));
    let loc = alloc_of(c, i, k);
    lemma_fits(c);
    lemma_before(c, b, i, held);
    lemma_input_not_written(c.f, b, i, k);
    law_input_sits(c, b, i, k);
    let d = after_splits(c, pos, held);
    lemma_carried_on(c, b, i, v, from, loc, held);
    lemma_past_fixups(c, pos, v, early(i), loc, d);
    lemma_past_reuse(c, b, i, k, after_fixups(c, pos, d));
}

proof fn lemma_past_reuse(c: Ctx, b: Block, i: int, k: int, held: spec_fn(Allocation) -> int)
    requires
        succeeds(c),
        ssa_form(c.f),
        scratch_free(c),
        in_reach(c, b, i),
        reuse_clean(c.f, Inst(i as u32)),
        0 <= k < c.f.operands[i].len(),
        c.f.operands[i][k].kind is Use,
        !input_upto(c.f, Inst(i as u32), k, c.f.operands[i].len() as int),
    ensures
        after_reuse(c, Inst(i as u32), held)(alloc_of(c, i, k)) == held(alloc_of(c, i, k)),
{
    lemma_alloc_of(c, i, k);
    reveal(succeeds);
    law_reuse_spares(c, b, i, k, held);
}

/// A register that an instruction within a block reads has a location after the instruction before.
pub proof fn law_input_comes(c: Ctx, b: Block, i: int, k: int)
    requires
        succeeds(c),
        ssa_form(c.f),
        in_reach(c, b, i),
        c.f.insns[b.ix()].from.0 < i,
        0 <= k < c.f.operands[i].len(),
        c.f.operands[i][k].kind is Use,
    ensures
        exists|from: Allocation| #[trigger]
            sits(c, c.f.operands[i][k].vreg.vreg as int, late(i - 1), from),
{
    let v = c.f.operands[i][k].vreg.vreg;
    lemma_fits(c);
    lemma_block_ends(c, b);
    lemma_input_not_written(c.f, b, i, k);
    assert(written_by(c.f, b, v as int, late(i - 1))) by {
        reveal(ssa_form);
        assert forall|j: int, l: int|
            c.f.insns[b.ix()].has(j) && 0 <= l < c.f.operands[j].len() && (
            #[trigger] c.f.operands[j][l]).kind is Def && c.f.operands[j][l].vreg.vreg
                == v implies j < i by {
            let _ = (c.f.insns[b.ix()], c.f.operands[j][l], c.f.operands[i][k]);
        }
    }
    assert(read_from(c.f, b, v as int, late(i - 1)));
    law_needed_sits(c, b, v, late(i - 1), 0);
}

/// An input that an output reuses is where the output is to be: the edits before the instruction bring
/// its value there from the location that the register has after the instruction before.
pub proof fn law_reused_arrives(
    c: Ctx,
    b: Block,
    i: int,
    p: int,
    k: int,
    from: Allocation,
    held: spec_fn(Allocation) -> int,
)
    requires
        succeeds(c),
        ssa_form(c.f),
        scratch_free(c),
        in_reach(c, b, i),
        c.f.insns[b.ix()].from.0 < i,
        reuse_clean(c.f, Inst(i as u32)),
        targets_agree(found_fixups(c), ProgPoint::before(Inst(i as u32))),
        0 <= p < c.f.operands[i].len(),
        0 <= k < c.f.operands[i].len(),
        k <= usize::MAX,
        c.f.operands[i][p].policy == OperandPolicy::Reuse(k as usize),
        c.f.operands[i][k].kind is Use,
        sits(c, c.f.operands[i][k].vreg.vreg as int, late(i - 1), from),
    ensures
        after_point(c, ProgPoint::before(Inst(i as u32)), held)(alloc_of(c, i, p)) == held(from),
{
    let v = c.f.operands[i][k].vreg.vreg as int;
    let pos = ProgPoint::before(Inst(i as u32));
    lemma_fits(c);
    lemma_before(c, b, i, held);
    lemma_input_not_written(c.f, b, i, k);
    let y = lemma_holder(c, b, i, k);
    lemma_holder_sits(c, b, i, k, y);
    let loc = location_of(c, v, y);
    let d = after_splits(c, pos, held);
    lemma_carried_on(c, b, i, v, from, loc, held);
    lemma_past_fixups(c, pos, v, early(i), loc, d);
    let e = after_fixups(c, pos, d);
    lemma_alloc_of(c, i, p);
    assert(after_reuse(c, Inst(i as u32), e)(alloc_of(c, i, p)) == e(loc)) by {
        reveal(succeeds);
        law_reuse_copied(c, b, i, p, k, e);
    }
}

/// A register that an instruction within a block does not write, and that is live on, is after the
/// instruction where the edits before it bring its value.
pub proof fn law_live_arrives(
    c: Ctx,
    b: Block,
    i: int,
    v: int,
    from: Allocation,
    at: Allocation,
    to: Allocation,
    held: spec_fn(Allocation) -> int,
)
    requires
        succeeds(c),
        ssa_form(c.f),
        scratch_free(c),
        in_reach(c, b, i),
        c.f.insns[b.ix()].from.0 < i,
        reuse_clean(c.f, Inst(i as u32)),
        targets_agree(found_fixups(c), ProgPoint::before(Inst(i as u32))),
        not_written(c.f, i, v),
        sits(c, v, late(i - 1), from),
        sits(c, v, early(i), at),
        sits(c, v, late(i), to),
    ensures
        after_point(c, ProgPoint::before(Inst(i as u32)), held)(to) == held(from),
{
    let pos = ProgPoint::before(Inst(i as u32));
    lemma_fits(c);
    lemma_before(c, b, i, held);
    law_still_inside(c, i, v, at, to);
    let d = after_splits(c, pos, held);
    lemma_carried_on(c, b, i, v, from, to, held);
    lemma_past_fixups(c, pos, v, early(i), to, d);
    lemma_live_past_reuse(c, b, i, v, to, after_fixups(c, pos, d));
}

proof fn lemma_live_past_reuse(
    c: Ctx,
    b: Block,
    i: int,
    v: int,
    loc: Allocation,
    held: spec_fn(Allocation) -> int,
)
    requires
        succeeds(c),
        ssa_form(c.f),
        scratch_free(c),
        in_reach(c, b, i),
        reuse_clean(c.f, Inst(i as u32)),
        not_written(c.f, i, v),
        sits(c, v, late(i), loc),
    ensures
        after_reuse(c, Inst(i as u32), held)(loc) == held(loc),
{
    let x = found(c);
    let y = choose|y: int|
        0 <= y < x.g.in_vreg[v].len() && #[trigger] range_of(c, v, y).from.ix() <= late(i)
            < range_of(c, v, y).to.ix() && range_alloc(x, x.g.in_vreg[v][y]) == Some(loc);
    assert(range_of(c, v, y).has(ProgPoint::after(Inst(i as u32))));
    reveal(succeeds);
    law_live_through_reuse(c, b, i, v, y, held);
}

/// The edits after an instruction that does not end its block leave every register where it is.
pub proof fn law_stays_after(
    c: Ctx,
    b: Block,
    i: int,
    v: int,
    loc: Allocation,
    held: spec_fn(Allocation) -> int,
)
    requires
        succeeds(c),
        scratch_free(c),
        in_reach(c, b, i),
        i < c.f.insns[b.ix()].to.0 - 1,
        targets_agree(found_fixups(c), ProgPoint::after(Inst(i as u32))),
        sits(c, v, late(i), loc),
    ensures
        after_point(c, ProgPoint::after(Inst(i as u32)), held)(loc) == held(loc),
{
    let pos = ProgPoint::after(Inst(i as u32));
    lemma_fits(c);
    lemma_block_ends(c, b);
    lemma_point(c, pos, held);
    lemma_inside(c, b, pos);
    lemma_other_moves(c, pos);
    lemma_kind_empty(c, pos, InsertMovePrio::InEdgeMoves, held);
    lemma_kind_empty(c, pos, InsertMovePrio::Regular, held);
    let e = after_fixups(c, pos, held);
    lemma_kind_empty(c, pos, InsertMovePrio::ReusedInput, e);
    lemma_kind_empty(c, pos, InsertMovePrio::OutEdgeMoves, e);
    lemma_past_fixups(c, pos, v, late(i), loc, held);
}

/// What the locations hold after the edge between two blocks: after the edits at the end of the one and
/// those at the start of the other.
pub open spec fn after_crossing(
    c: Ctx,
    from: Block,
    to: Block,
    held: spec_fn(Allocation) -> int,
) -> spec_fn(Allocation) -> int {
    let last = Inst((c.f.insns[from.ix()].to.0 - 1) as u32);
    let first = c.f.insns[to.ix()].from;
    after_point(c, ProgPoint::before(first), after_point(c, ProgPoint::after(last), held))
}

/// Where the moves on an edge stand, no moves on other edges do.
proof fn lemma_ends(c: Ctx, from: Block, to: Block)
    requires
        succeeds(c),
        is_edge(c, from, to),
    ensures
        ({
            let last = ProgPoint::after(Inst((c.f.insns[from.ix()].to.0 - 1) as u32));
            let first = ProgPoint::before(c.f.insns[to.ix()].from);
            let place = edge_place(c.f, from.ix(), to.ix());
            &&& place == Some((last, InsertMovePrio::OutEdgeMoves)) || none_of(
                c,
                last,
                InsertMovePrio::OutEdgeMoves,
            )
            &&& place == Some((first, InsertMovePrio::InEdgeMoves)) || none_of(
                c,
                first,
                InsertMovePrio::InEdgeMoves,
            )
            &&& none_of(c, last, InsertMovePrio::InEdgeMoves)
            &&& none_of(c, first, InsertMovePrio::OutEdgeMoves)
            &&& place matches Some((pos, prio)) ==> place == Some(
                (last, InsertMovePrio::OutEdgeMoves),
            ) || place == Some((first, InsertMovePrio::InEdgeMoves))
        }),
{
    let last = ProgPoint::after(Inst((c.f.insns[from.ix()].to.0 - 1) as u32));
    let first = ProgPoint::before(c.f.insns[to.ix()].from);
    let place = edge_place(c.f, from.ix(), to.ix());
    let moves = found_moves(c);
    lemma_fits(c);
    lemma_block_ends(c, from);
    lemma_block_ends(c, to);
    lemma_block_at(c, from, last.inst.ix());
    lemma_block_at(c, to, first.inst.ix());
    assert forall|j: int|
        0 <= j < moves.len() && on_edge(#[trigger] moves[j]) && moves[j].pos == last implies place
        == Some((last, InsertMovePrio::OutEdgeMoves)) && moves[j].prio is OutEdgeMoves by {
        let e = lemma_edge_moves(c, j);
        lemma_block_ends(c, e.from);
        lemma_block_ends(c, e.to);
        lemma_block_at(c, e.from, c.f.insns[e.from.ix()].to.0 - 1);
        assert(moves[j].prio is OutEdgeMoves);
        assert(e.from == from);
        assert(c.f.succs[from.ix()].len() <= 1);
        assert(e.to == to);
    }
    assert forall|j: int|
        0 <= j < moves.len() && on_edge(#[trigger] moves[j]) && moves[j].pos == first implies place
        == Some((first, InsertMovePrio::InEdgeMoves)) && moves[j].prio is InEdgeMoves by {
        let e = lemma_edge_moves(c, j);
        lemma_block_ends(c, e.from);
        lemma_block_ends(c, e.to);
        lemma_block_at(c, e.to, c.f.insns[e.to.ix()].from.0 as int);
        assert(moves[j].prio is InEdgeMoves);
        assert(e.to == to);
    }
}

/// What the moves on an edge bring from location `before` to location `after` is there before the
/// copies for the first instruction of the block.
proof fn lemma_crossing(
    c: Ctx,
    from: Block,
    to: Block,
    w: int,
    before: Allocation,
    after: Allocation,
    held: spec_fn(Allocation) -> int,
) -> (then_held: spec_fn(Allocation) -> int)
    requires
        succeeds(c),
        scratch_free(c),
        is_edge(c, from, to),
        targets_agree(
            found_fixups(c),
            ProgPoint::after(Inst((c.f.insns[from.ix()].to.0 - 1) as u32)),
        ),
        sits(c, w, late(c.f.insns[from.ix()].to.0 - 1), before),
        forall|h: spec_fn(Allocation) -> int| #[trigger] brought(c, from, to, before, after, h),
    ensures
        then_held(after) == held(before),
        ({
            let first = c.f.insns[to.ix()].from;
            after_crossing(c, from, to, held) == after_reuse(
                c,
                first,
                after_fixups(c, ProgPoint::before(first), then_held),
            )
        }),
{
    let last = Inst((c.f.insns[from.ix()].to.0 - 1) as u32);
    let first = c.f.insns[to.ix()].from;
    let (p, q) = (ProgPoint::after(last), ProgPoint::before(first));
    let s = found_edits(c);
    lemma_fits(c);
    lemma_block_ends(c, from);
    lemma_block_ends(c, to);
    lemma_block_at(c, to, first.ix());
    lemma_ends(c, from, to);
    lemma_other_moves(c, p);
    lemma_other_moves(c, q);
    assert(start_of_block(c, q));
    lemma_point(c, p, held);
    lemma_kind_empty(c, p, InsertMovePrio::InEdgeMoves, held);
    lemma_kind_empty(c, p, InsertMovePrio::Regular, held);
    let e = after_fixups(c, p, held);
    lemma_past_fixups(c, p, w, late(last.ix()), before, held);
    lemma_kind_empty(c, p, InsertMovePrio::ReusedInput, e);
    let g = after_kind(s, p, InsertMovePrio::OutEdgeMoves, e);
    assert(after_point(c, p, held) == g);
    lemma_point(c, q, g);
    let h = after_kind(s, q, InsertMovePrio::InEdgeMoves, g);
    lemma_kind_empty(c, q, InsertMovePrio::Regular, h);
    let d = after_fixups(c, q, h);
    lemma_kind_empty(c, q, InsertMovePrio::OutEdgeMoves, after_reuse(c, first, d));
    assert(brought(c, from, to, before, after, e));
    assert(brought(c, from, to, before, after, g));
    let place = edge_place(c.f, from.ix(), to.ix());
    if place == Some((p, InsertMovePrio::OutEdgeMoves)) {
        lemma_kind_empty(c, q, InsertMovePrio::InEdgeMoves, g);
    } else if place == Some((q, InsertMovePrio::InEdgeMoves)) {
        lemma_kind_empty(c, p, InsertMovePrio::OutEdgeMoves, e);
    } else {
        lemma_kind_empty(c, p, InsertMovePrio::OutEdgeMoves, e);
        lemma_kind_empty(c, q, InsertMovePrio::InEdgeMoves, g);
    }
    h
}

proof fn lemma_leaves(c: Ctx, v: int, b: Block, loc: Allocation)
    requires
        ctx_ok(c),
        b.0 < c.f.blocks,
        sits(c, v, late(c.f.insns[b.ix()].to.0 - 1), loc),
    ensures
        leaves_in(c, v, b, loc),
{
    lemma_block_ends(c, b);
    let p = late(c.f.insns[b.ix()].to.0 - 1);
    let y = choose|y: int|
        0 <= y < found(c).g.in_vreg[v].len() && #[trigger] range_of(c, v, y).from.ix() <= p
            < range_of(c, v, y).to.ix() && range_alloc(found(c), found(c).g.in_vreg[v][y]) == Some(
            loc,
        );
    assert(found(c).g.ranges[found(c).g.in_vreg[v][y] as int].range.has(c.cfg.block_exit[b.ix()]));
}

proof fn lemma_enters(c: Ctx, v: int, b: Block, loc: Allocation)
    requires
        ctx_ok(c),
        b.0 < c.f.blocks,
        sits(c, v, early(c.f.insns[b.ix()].from.0 as int), loc),
    ensures
        enters_in(c, v, b, loc),
{
    lemma_block_ends(c, b);
    let p = early(c.f.insns[b.ix()].from.0 as int);
    let y = choose|y: int|
        0 <= y < found(c).g.in_vreg[v].len() && #[trigger] range_of(c, v, y).from.ix() <= p
            < range_of(c, v, y).to.ix() && range_alloc(found(c), found(c).g.in_vreg[v][y]) == Some(
            loc,
        );
    assert(found(c).g.ranges[found(c).g.in_vreg[v][y] as int].range.has(c.cfg.block_entry[b.ix()]));
}

/// A register that comes into a block is brought from where it is at the end of the block before to
/// where it is at the start.
proof fn lemma_brought(
    c: Ctx,
    from: Block,
    to: Block,
    v: u32,
    n: nat,
    before: Allocation,
    after: Allocation,
)
    requires
        succeeds(c),
        scratch_free(c),
        is_edge(c, from, to),
        reachable(c.f, from),
        v < c.f.num_vregs,
        comes_in(c.f, v as int, to),
        needed(c.f, to, v as int, early(c.f.insns[to.ix()].from.0 as int), n),
        sits(c, v as int, late(c.f.insns[from.ix()].to.0 - 1), before),
        sits(c, v as int, early(c.f.insns[to.ix()].from.0 as int), after),
    ensures
        forall|h: spec_fn(Allocation) -> int| #[trigger] brought(c, from, to, before, after, h),
{
    lemma_fits(c);
    lemma_reachable_step(c.f, from, to);
    lemma_needed_live(c, to, v, n);
    lemma_leaves(c, v as int, from, before);
    lemma_enters(c, v as int, to, after);
    assert forall|h: spec_fn(Allocation) -> int| #[trigger]
        brought(c, from, to, before, after, h) by {
        lemma_one_brought(c, from, to, v, before, after, h);
    }
}

proof fn lemma_one_brought(
    c: Ctx,
    from: Block,
    to: Block,
    v: u32,
    before: Allocation,
    after: Allocation,
    held: spec_fn(Allocation) -> int,
)
    requires
        succeeds(c),
        scratch_free(c),
        is_edge(c, from, to),
        reachable(c.f, from),
        v < c.f.num_vregs,
        found(c).liveins[to.ix()].contains(v as int),
        comes_in(c.f, v as int, to),
        leaves_in(c, v as int, from, before),
        enters_in(c, v as int, to, after),
    ensures
        brought(c, from, to, before, after, held),
{
    reveal(succeeds);
    law_edge_carried(c, from, to, v, held);
}

/// What the first instruction of a block reads is where it reads it: the edits on each edge to the
/// block bring the value of the register there from the location that it has at the end of the block
/// before.
pub proof fn law_input_crosses(
    c: Ctx,
    from: Block,
    to: Block,
    k: int,
    before: Allocation,
    held: spec_fn(Allocation) -> int,
)
    requires
        succeeds(c),
        ssa_form(c.f),
        scratch_free(c),
        is_edge(c, from, to),
        reachable(c.f, from),
        reuse_clean(c.f, c.f.insns[to.ix()].from),
        targets_agree(
            found_fixups(c),
            ProgPoint::after(Inst((c.f.insns[from.ix()].to.0 - 1) as u32)),
        ),
        targets_agree(found_fixups(c), ProgPoint::before(c.f.insns[to.ix()].from)),
        ({
            let first = c.f.insns[to.ix()].from;
            let ops = c.f.operands[first.ix()];
            &&& 0 <= k < ops.len()
            &&& ops[k].kind is Use
            &&& !input_upto(c.f, first, k, ops.len() as int)
            &&& comes_in(c.f, ops[k].vreg.vreg as int, to)
            &&& sits(c, ops[k].vreg.vreg as int, late(c.f.insns[from.ix()].to.0 - 1), before)
        }),
    ensures
        after_crossing(c, from, to, held)(
            alloc_of(c, c.f.insns[to.ix()].from.0 as int, k),
        ) == held(before),
{
    let first = c.f.insns[to.ix()].from;
    let i = first.0 as int;
    let v = c.f.operands[i][k].vreg.vreg;
    let loc = alloc_of(c, i, k);
    lemma_fits(c);
    lemma_block_ends(c, to);
    lemma_reachable_step(c.f, from, to);
    lemma_input_not_written(c.f, to, i, k);
    law_input_sits(c, to, i, k);
    assert(read_from(c.f, to, v as int, early(i)));
    lemma_brought(c, from, to, v, 0, before, loc);
    let h = lemma_crossing(c, from, to, v as int, before, loc, held);
    let pos = ProgPoint::before(first);
    lemma_past_fixups(c, pos, v as int, early(i), loc, h);
    lemma_past_reuse(c, to, i, k, after_fixups(c, pos, h));
}

/// A block parameter is where it is to be after the first instruction of the block, if that does not
/// write it: the edits on each edge bring there what the branch hands over.
pub proof fn law_arg_crosses(
    c: Ctx,
    from: Block,
    to: Block,
    arg: u32,
    param: u32,
    before: Allocation,
    after: Allocation,
    held: spec_fn(Allocation) -> int,
)
    requires
        succeeds(c),
        ssa_form(c.f),
        scratch_free(c),
        is_edge(c, from, to),
        reachable(c.f, from),
        reuse_clean(c.f, c.f.insns[to.ix()].from),
        targets_agree(
            found_fixups(c),
            ProgPoint::after(Inst((c.f.insns[from.ix()].to.0 - 1) as u32)),
        ),
        targets_agree(found_fixups(c), ProgPoint::before(c.f.insns[to.ix()].from)),
        reads_arg(c.f, from, to, arg, param),
        forall|w: u32| #[trigger] passes(c.f, from, to, w, param) ==> w == arg,
        !found(c).liveins[to.ix()].contains(param as int),
        not_written(c.f, c.f.insns[to.ix()].from.0 as int, param as int),
        sits(c, arg as int, late(c.f.insns[from.ix()].to.0 - 1), before),
        sits(c, param as int, early(c.f.insns[to.ix()].from.0 as int), after),
        sits(c, param as int, late(c.f.insns[to.ix()].from.0 as int), after),
    ensures
        after_crossing(c, from, to, held)(after) == held(before),
{
    let first = c.f.insns[to.ix()].from;
    let i = first.0 as int;
    lemma_fits(c);
    lemma_block_ends(c, to);
    lemma_reachable_step(c.f, from, to);
    lemma_leaves(c, arg as int, from, before);
    lemma_enters(c, param as int, to, after);
    assert forall|h: spec_fn(Allocation) -> int| #[trigger]
        brought(c, from, to, before, after, h) by {
        reveal(succeeds);
        law_arg_carried(c, from, to, arg, param, h);
    }
    let h = lemma_crossing(c, from, to, arg as int, before, after, held);
    let pos = ProgPoint::before(first);
    lemma_past_fixups(c, pos, param as int, early(i), after, h);
    lemma_live_past_reuse(c, to, i, param as int, after, after_fixups(c, pos, h));
}

/// A copy to a given register before an instruction within a block brings there the value of the
/// register that the operand reads, from the location that it has after the instruction before.
pub proof fn law_copy_arrives(
    c: Ctx,
    b: Block,
    n: int,
    y: int,
    k: int,
    from: Allocation,
    held: spec_fn(Allocation) -> int,
)
    requires
        succeeds(c),
        ssa_form(c.f),
        scratch_free(c),
        0 <= n < found_fixups(c).len(),
        found_fixups(c)[n].0.pos is Before,
        in_reach(c, b, found_fixups(c)[n].0.inst.ix()),
        c.f.insns[b.ix()].from.0 < found_fixups(c)[n].0.inst.0,
        reuse_clean(c.f, found_fixups(c)[n].0.inst),
        targets_agree(found_fixups(c), found_fixups(c)[n].0),
        ({
            let i = found_fixups(c)[n].0.inst.ix();
            let v = c.f.operands[i][k].vreg.vreg as int;
            &&& c.f.operands[i][k].kind is Use
            &&& copy_serves(c, found_fixups(c)[n], v, y, k)
            &&& sits(c, v, late(i - 1), from)
        }),
    ensures
        after_point(c, found_fixups(c)[n].0, held)(copy_target(c, found_fixups(c)[n])) == held(
            from,
        ),
{
    let x = found_fixups(c)[n];
    let i = x.0.inst.ix();
    let pos = ProgPoint::before(Inst(i as u32));
    assert(x.0 == pos);
    let v = c.f.operands[i][k].vreg.vreg as int;
    lemma_fits(c);
    lemma_before(c, b, i, held);
    lemma_input_not_written(c.f, b, i, k);
    assert(sits(c, v, early(i), copy_source(c, x)));
    lemma_carried_on(c, b, i, v, from, copy_source(c, x), held);
    let d = after_splits(c, pos, held);
    assert(after_fixups(c, pos, d)(copy_target(c, x)) == d(copy_source(c, x))) by {
        reveal(succeeds);
        law_fixup_copied(c, n, d);
    }
    lemma_target_left(c, b, n, after_fixups(c, pos, d));
}

/// Copies of reused inputs leave the registers that copies to given registers go to.
proof fn lemma_target_left(c: Ctx, b: Block, n: int, held: spec_fn(Allocation) -> int)
    requires
        succeeds(c),
        ssa_form(c.f),
        scratch_free(c),
        0 <= n < found_fixups(c).len(),
        in_reach(c, b, found_fixups(c)[n].0.inst.ix()),
        reuse_clean(c.f, found_fixups(c)[n].0.inst),
        c.f.operands[found_fixups(c)[n].0.inst.ix()].len() > 0,
    ensures
        after_reuse(c, found_fixups(c)[n].0.inst, held)(copy_target(c, found_fixups(c)[n])) == held(
            copy_target(c, found_fixups(c)[n]),
        ),
{
    reveal(succeeds);
    let x = found_fixups(c)[n];
    let i = x.0.inst.ix();
    let loc = copy_target(c, x);
    lemma_fixup_exists(c, n);
    assert forall|k: int| 0 <= k < c.m.scratch_by_class.len() implies loc != Allocation::Reg(
        #[trigger] c.m.scratch_by_class[k],
    ) by {
        lemma_target_not_scratch(c, x, k);
    }
    assert forall|p: int| #[trigger]
        is_copied(c.f, first_allocs(c), Inst(i as u32), p) implies first_allocs(c)[operand_place(
        c.f,
        Inst(i as u32),
        p,
    )] != loc by {
        let (w, z) = lemma_reusing_output(c, b, i, p);
        assert(range_of(c, w, z).meets(inst_range(x.0.inst)));
        law_target_available(c, n, w, z);
    }
    lemma_reuse_leaves(c, b, i, loc, held);
}

/// An output that is written early is after the instruction where it was written.
pub proof fn law_early_output_stays(c: Ctx, b: Block, i: int, k: int, loc: Allocation)
    requires
        succeeds(c),
        ssa_form(c.f),
        in_reach(c, b, i),
        reuse_clean(c.f, Inst(i as u32)),
        0 <= k < c.f.operands[i].len(),
        c.f.operands[i][k].kind is Def,
        c.f.operands[i][k].pos is Before || c.f.operands[i][k].pos is Both,
        !input_upto(c.f, Inst(i as u32), k, c.f.operands[i].len() as int),
        sits(c, c.f.operands[i][k].vreg.vreg as int, late(i), loc),
    ensures
        loc == alloc_of(c, i, k),
{
    law_output_sits(c, b, i, k);
    let x = found(c);
    let v = c.f.operands[i][k].vreg.vreg as int;
    let y = choose|y: int|
        0 <= y < x.g.in_vreg[v].len() && #[trigger] range_of(c, v, y).from.ix() <= early(i)
            < range_of(c, v, y).to.ix() && range_alloc(x, x.g.in_vreg[v][y]) == Some(
            alloc_of(c, i, k),
        );
    let z = choose|z: int|
        0 <= z < x.g.in_vreg[v].len() && #[trigger] range_of(c, v, z).from.ix() <= late(i)
            < range_of(c, v, z).to.ix() && range_alloc(x, x.g.in_vreg[v][z]) == Some(loc);
    if y != z {
        lemma_neighbours(c, v, y, z, early(i));
        let from = range_of(c, v, z).from;
        from.law_ix_injective(range_of(c, v, y).to);
        assert(from.pos is After && from.inst.0 == i);
        lemma_begins_early(c, v, z, i, k);
        lemma_follows(c, v, z);
    }
}

/// A live range of a register that is written early does not begin with a definition in the middle of
/// the instruction.
proof fn lemma_begins_early(c: Ctx, v: int, z: int, i: int, k: int)
    requires
        succeeds(c),
        ssa_form(c.f),
        0 <= i < c.f.insts,
        0 <= k < c.f.operands[i].len(),
        c.f.operands[i][k].kind is Def,
        !(c.f.operands[i][k].pos is After),
        v == c.f.operands[i][k].vreg.vreg,
        0 <= v < found(c).g.in_vreg.len(),
        0 <= z < found(c).g.in_vreg[v].len(),
        range_of(c, v, z).from.inst.0 == i,
        range_of(c, v, z).from.pos is After,
    ensures
        !begins_with_def(found(c).g, found(c).g.in_vreg[v][z]),
{
    reveal(succeeds);
    let (u, a, t) = located(c)->Ok_0;
    let g = found(c).g;
    let r = g.in_vreg[v][z];
    if begins_with_def(g, r) {
        lemma_def_owner(c, v, z);
        lemma_below(g.in_vreg, g.ranges.len() as int, v, z);
        assert(range_ok(c.f, g, r as int));
        let d = g.ranges[r as int].def.ix();
        assert(mention_ok(c.f, g.defs[d].pos, g.defs[d].slot));
        assert(u.g.defs[d] == g.defs[d]);
        let slot = u.g.defs[d].slot as int;
        assert(c.f.operands[i][slot].kind is Def);
        assert(slot == k) by {
            reveal(ssa_form);
            let _ = (c.f.operands[i][slot], c.f.operands[i][k]);
        }
    }
}

/// Copies of reused inputs leave every location where none is reused.
proof fn lemma_none_copied(
    c: Ctx,
    b: Block,
    i: int,
    loc: Allocation,
    held: spec_fn(Allocation) -> int,
)
    requires
        succeeds(c),
        ssa_form(c.f),
        scratch_free(c),
        in_reach(c, b, i),
        c.f.operands[i].len() > 0,
        forall|p: int|
            0 <= p < c.f.operands[i].len() ==> !((#[trigger] c.f.operands[i][p]).policy is Reuse),
        forall|k: int|
            0 <= k < c.m.scratch_by_class.len() ==> loc != Allocation::Reg(
                #[trigger] c.m.scratch_by_class[k],
            ),
    ensures
        after_reuse(c, Inst(i as u32), held)(loc) == held(loc),
{
    reveal(succeeds);
    assert(reuse_clean(c.f, Inst(i as u32)));
    assert forall|p: int| #[trigger]
        is_copied(c.f, first_allocs(c), Inst(i as u32), p) implies first_allocs(c)[operand_place(
        c.f,
        Inst(i as u32),
        p,
    )] != loc by {
        let _ = c.f.operands[i][p];
    }
    lemma_reuse_leaves(c, b, i, loc, held);
}

/// An early input that names a given register is read there: the edits before the instruction, within a
/// block and where no input is reused, bring the value of the register to it from the location that it
/// has after the instruction before, though the input may come out in another location.
pub proof fn law_given_register_arrives(
    c: Ctx,
    b: Block,
    i: int,
    k: int,
    p: PReg,
    from: Allocation,
    held: spec_fn(Allocation) -> int,
)
    requires
        succeeds(c),
        ssa_form(c.f),
        scratch_free(c),
        in_reach(c, b, i),
        c.f.insns[b.ix()].from.0 < i,
        !c.f.branches[i],
        forall|q: int|
            0 <= q < c.f.operands[i].len() ==> !((#[trigger] c.f.operands[i][q]).policy is Reuse),
        targets_agree(found_fixups(c), ProgPoint::before(Inst(i as u32))),
        0 <= k < c.f.operands[i].len(),
        c.f.operands[i][k].kind is Use,
        c.f.operands[i][k].pos is Before,
        c.f.operands[i][k].policy == OperandPolicy::FixedReg(p),
        sits(c, c.f.operands[i][k].vreg.vreg as int, late(i - 1), from),
    ensures
        after_point(c, ProgPoint::before(Inst(i as u32)), held)(Allocation::Reg(p)) == held(from),
{
    let v = c.f.operands[i][k].vreg.vreg as int;
    let pos = ProgPoint::before(Inst(i as u32));
    lemma_fits(c);
    lemma_input_not_written(c.f, b, i, k);
    let y = lemma_holder(c, b, i, k);
    lemma_holder_sits(c, b, i, k, y);
    assert(reuse_clean(c.f, Inst(i as u32))) by {
        let ops = c.f.operands[Inst(i as u32).ix()];
        assert forall|x: int, z: int|
            #![trigger ops[x], ops[z]]
            0 <= x < ops.len() && 0 <= z < ops.len() implies !(ops[x].policy is Reuse) by {
            let _ = c.f.operands[i][x];
        }
    }
    if location_of(c, v, y) == Allocation::Reg(p) {
        let d = after_splits(c, pos, held);
        lemma_before(c, b, i, held);
        lemma_carried_on(c, b, i, v, from, Allocation::Reg(p), held);
        lemma_past_fixups(c, pos, v, early(i), Allocation::Reg(p), d);
        assert forall|n: int| 0 <= n < c.m.scratch_by_class.len() implies Allocation::Reg(p)
            != Allocation::Reg(#[trigger] c.m.scratch_by_class[n]) by {
            let _ = c.f.operands[i][k];
        }
        lemma_none_copied(c, b, i, Allocation::Reg(p), after_fixups(c, pos, d));
    } else {
        let n = lemma_copy_of(c, i, k, p, v, y);
        assert(found_fixups(c)[n].0 == pos);
        law_copy_arrives(c, b, n, y, k, from, held);
    }
}

proof fn lemma_copy_of(c: Ctx, i: int, k: int, p: PReg, v: int, y: int) -> (n: int)
    requires
        succeeds(c),
        ssa_form(c.f),
        0 <= i < c.f.insts,
        !c.f.branches[i],
        forall|q: int|
            0 <= q < c.f.operands[i].len() ==> !((#[trigger] c.f.operands[i][q]).policy is Reuse),
        0 <= k < c.f.operands[i].len(),
        c.f.operands[i][k].kind is Use,
        c.f.operands[i][k].pos is Before,
        c.f.operands[i][k].policy == OperandPolicy::FixedReg(p),
        holds_operand(c, v, y, i, k),
        range_alloc(found(c), found(c).g.in_vreg[v][y]) == Some(location_of(c, v, y)),
        location_of(c, v, y) != Allocation::Reg(p),
    ensures
        0 <= n < found_fixups(c).len(),
        copy_serves(c, found_fixups(c)[n], v, y, k),
        found_fixups(c)[n].0.inst.ix() == i,
        found_fixups(c)[n].0.pos is Before,
        copy_target(c, found_fixups(c)[n]) == Allocation::Reg(p),
{
    reveal(succeeds);
    lemma_none_reused(c.f.operands[i], 0);
    let n = lemma_demand_copied(c, v, y, i, k, p);
    lemma_demanded(c, i, k);
    lemma_fixup_exists(c, n);
    lemma_same_preg(c, p, p.ix());
    n
}

/// A register that comes into a block, and that is needed there or behind it, is after the first
/// instruction of the block, if that does not write it, where the edits on each edge bring its value.
pub proof fn law_live_crosses(
    c: Ctx,
    from: Block,
    to: Block,
    v: u32,
    n: nat,
    before: Allocation,
    at: Allocation,
    after: Allocation,
    held: spec_fn(Allocation) -> int,
)
    requires
        succeeds(c),
        ssa_form(c.f),
        scratch_free(c),
        is_edge(c, from, to),
        reachable(c.f, from),
        reuse_clean(c.f, c.f.insns[to.ix()].from),
        targets_agree(
            found_fixups(c),
            ProgPoint::after(Inst((c.f.insns[from.ix()].to.0 - 1) as u32)),
        ),
        targets_agree(found_fixups(c), ProgPoint::before(c.f.insns[to.ix()].from)),
        v < c.f.num_vregs,
        comes_in(c.f, v as int, to),
        needed(c.f, to, v as int, early(c.f.insns[to.ix()].from.0 as int), n),
        not_written(c.f, c.f.insns[to.ix()].from.0 as int, v as int),
        sits(c, v as int, late(c.f.insns[from.ix()].to.0 - 1), before),
        sits(c, v as int, early(c.f.insns[to.ix()].from.0 as int), at),
        sits(c, v as int, late(c.f.insns[to.ix()].from.0 as int), after),
    ensures
        after_crossing(c, from, to, held)(after) == held(before),
{
    let first = c.f.insns[to.ix()].from;
    let i = first.0 as int;
    lemma_fits(c);
    lemma_block_ends(c, to);
    lemma_reachable_step(c.f, from, to);
    law_still_inside(c, i, v as int, at, after);
    lemma_brought(c, from, to, v, n, before, after);
    let h = lemma_crossing(c, from, to, v as int, before, after, held);
    let pos = ProgPoint::before(first);
    lemma_past_fixups(c, pos, v as int, early(i), after, h);
    lemma_live_past_reuse(c, to, i, v as int, after, after_fixups(c, pos, h));
}

/// A block parameter that the first instruction of the block reads is where it reads it: the edits on
/// each edge bring there what the branch hands over.
pub proof fn law_arg_read_crosses(
    c: Ctx,
    from: Block,
    to: Block,
    arg: u32,
    k: int,
    before: Allocation,
    held: spec_fn(Allocation) -> int,
)
    requires
        succeeds(c),
        ssa_form(c.f),
        scratch_free(c),
        is_edge(c, from, to),
        reachable(c.f, from),
        reuse_clean(c.f, c.f.insns[to.ix()].from),
        targets_agree(
            found_fixups(c),
            ProgPoint::after(Inst((c.f.insns[from.ix()].to.0 - 1) as u32)),
        ),
        targets_agree(found_fixups(c), ProgPoint::before(c.f.insns[to.ix()].from)),
        ({
            let first = c.f.insns[to.ix()].from;
            let ops = c.f.operands[first.ix()];
            let param = ops[k].vreg.vreg;
            &&& 0 <= k < ops.len()
            &&& ops[k].kind is Use
            &&& !input_upto(c.f, first, k, ops.len() as int)
            &&& reads_arg(c.f, from, to, arg, param)
            &&& forall|w: u32| #[trigger] passes(c.f, from, to, w, param) ==> w == arg
            &&& !found(c).liveins[to.ix()].contains(param as int)
        }),
        sits(c, arg as int, late(c.f.insns[from.ix()].to.0 - 1), before),
    ensures
        after_crossing(c, from, to, held)(
            alloc_of(c, c.f.insns[to.ix()].from.0 as int, k),
        ) == held(before),
{
    let first = c.f.insns[to.ix()].from;
    let i = first.0 as int;
    let param = c.f.operands[i][k].vreg.vreg;
    let loc = alloc_of(c, i, k);
    lemma_fits(c);
    lemma_block_ends(c, to);
    lemma_reachable_step(c.f, from, to);
    law_input_sits(c, to, i, k);
    lemma_leaves(c, arg as int, from, before);
    lemma_enters(c, param as int, to, loc);
    assert forall|h: spec_fn(Allocation) -> int| #[trigger]
        brought(c, from, to, before, loc, h) by {
        reveal(succeeds);
        law_arg_carried(c, from, to, arg, param, h);
    }
    let h = lemma_crossing(c, from, to, arg as int, before, loc, held);
    let pos = ProgPoint::before(first);
    lemma_past_fixups(c, pos, param as int, early(i), loc, h);
    lemma_past_reuse(c, to, i, k, after_fixups(c, pos, h));
}

} // verus!
