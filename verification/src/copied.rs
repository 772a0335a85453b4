//! What the copies of reused inputs and of further fixed-register demands do with values.
use crate::apply::{apply_ok, lemma_place, operand_place, range_alloc};
use crate::carried::{
    found, found_edits, found_moves, lemma_kept_apart, lemma_orders, lemma_points_fit,
    lemma_scratch_unused, scratch_free,
};
use crate::carry::lemma_range_located;
use crate::cfg::reachable;
use crate::code_range::CodeRange;
use crate::copies::{
    copies_at, input_upto, is_copied, lemma_no_reuse_moves, lemma_reuse_moves, reuse_done,
    reuse_move, reuse_open,
};
use crate::data::{InsertMovePrio, InsertedMove};
use crate::dom::ssa_form;
use crate::func::{inst_ok, operand_ok};
use crate::graph::{mention_ok, range_ok};
use crate::groups::{
    edits_at, law_group_edits, law_group_in_parallel, lemma_pairs_at, lemma_place_key, moves_at,
    pairs_of, run_edits, scratch_of,
};
use crate::held::{def_of, defines, held, marks};
use crate::index::{Block, Inst};
use crate::lists::{lemma_below, lemma_distinct};
use crate::liveness::{ctx_ok, def_pos, reused_input, Ctx};
use crate::meets::{law_defs_covered, law_uses_covered, lemma_places_apart};
use crate::moves::dests_ok;
use crate::operands::{
    before_reuse, defines_reuse, is_mentioned, law_reused_inputs, lemma_before_reuse,
    lemma_reuse_noted, located_among, reuse_clean, use_at,
};
use crate::order::in_order;
use crate::parts::mentions;
use crate::reached::{has_def, has_use, reached};
use crate::reg::{Allocation, Operand, OperandPolicy, ProgPoint};
use crate::resolve::place_key;
use crate::run::{
    allocated, applied, apply_start, located, locations_sound, scan_sound, scan_tables,
};
use crate::sort::{has_key, HasKey};
use crate::uses::{defined_first, use_named};
use vstd::prelude::*;

verus! {

/// Does live range `y` of register `v` hold operand `k` of instruction `i`?
pub open spec fn holds_operand(c: Ctx, v: int, y: int, i: int, k: int) -> bool {
    let x = found(c);
    &&& 0 <= v < x.g.in_vreg.len()
    &&& 0 <= y < x.g.in_vreg[v].len()
    &&& is_mentioned(x, x.g.in_vreg[v][y], operand_place(c.f, Inst(i as u32), k))
}

/// The range of a live range of a register.
pub open spec fn range_of(c: Ctx, v: int, y: int) -> CodeRange {
    found(c).g.ranges[found(c).g.in_vreg[v][y] as int].range
}

/// The location of a live range of a register.
pub open spec fn location_of(c: Ctx, v: int, y: int) -> Allocation {
    range_alloc(found(c), found(c).g.in_vreg[v][y])->Some_0
}

/// The locations of the operands before reused inputs are copied.
pub open spec fn first_allocs(c: Ctx) -> Seq<Allocation> {
    before_reuse(found(c), apply_start(c.f), located(c)->Ok_0.0.fixups).allocs
}

/// The use by which a live range holds an operand that uses its register.
pub proof fn lemma_use_site(c: Ctx, v: int, y: int, i: int, k: int) -> (j: int)
    requires
        ctx_ok(c),
        allocated(c) is Ok,
        locations_sound(c),
        0 <= i < c.f.insts,
        0 <= k < c.f.operands[i].len(),
        c.f.operands[i][k].kind is Use,
        holds_operand(c, v, y, i, k),
    ensures
        ({
            let g = found(c).g;
            let r = g.in_vreg[v][y];
            &&& r < g.ranges.len()
            &&& 0 <= j < g.in_range[r as int].len()
            &&& g.in_range[r as int][j] < g.uses.len()
            &&& g.uses[g.in_range[r as int][j] as int].pos.inst.ix() == i
            &&& g.uses[g.in_range[r as int][j] as int].slot == k
        }),
{
    let (u, a, t) = located(c)->Ok_0;
    let x = found(c);
    let r = x.g.in_vreg[v][y];
    let place = operand_place(c.f, Inst(i as u32), k);
    let d = x.g.ranges[r as int].def;
    let list = x.g.in_range[r as int];
    lemma_below(x.g.in_vreg, x.g.ranges.len() as int, v, y);
    assert(range_ok(c.f, x.g, r as int));
    if d.is_valid() && operand_place(
        c.f,
        x.g.defs[d.ix()].pos.inst,
        x.g.defs[d.ix()].slot as int,
    ) == place {
        let def = x.g.defs[d.ix()];
        assert(mention_ok(c.f, def.pos, def.slot));
        lemma_places_apart(c.f, def.pos.inst.ix(), def.slot as int, i, k);
        assert(u.g.defs[d.ix()] == def);
    }
    let j = choose|j: int|
        0 <= j < list.len() && ({
            let use_j = x.g.uses[(#[trigger] list[j]) as int];
            operand_place(x.c.f, use_j.pos.inst, use_j.slot as int) == place
        });
    lemma_below(x.g.in_range, x.g.uses.len() as int, r as int, j);
    let e = list[j] as int;
    assert(mention_ok(c.f, x.g.uses[e].pos, x.g.uses[e].slot));
    lemma_places_apart(c.f, x.g.uses[e].pos.inst.ix(), x.g.uses[e].slot as int, i, k);
    j
}

/// An operand that uses its register is held by one live range.
pub proof fn lemma_one_use(c: Ctx, v: int, y: int, w: int, z: int, i: int, k: int)
    requires
        ctx_ok(c),
        allocated(c) is Ok,
        locations_sound(c),
        0 <= i < c.f.insts,
        0 <= k < c.f.operands[i].len(),
        c.f.operands[i][k].kind is Use,
        holds_operand(c, v, y, i, k),
        holds_operand(c, w, z, i, k),
    ensures
        found(c).g.in_vreg[v][y] == found(c).g.in_vreg[w][z],
{
    let (u, a, t) = located(c)->Ok_0;
    let g = found(c).g;
    let j = lemma_use_site(c, v, y, i, k);
    let l = lemma_use_site(c, w, z, i, k);
    let r = g.in_vreg[v][y];
    let q = g.in_vreg[w][z];
    let m = g.in_range[r as int][j];
    let n = g.in_range[q as int][l];
    let _ = (u.g.uses[m as int], u.g.uses[n as int]);
    assert(g.uses == u.g.uses);
    assert(m == n) by {
        if m < n {
            assert(u.g.uses[m as int].pos.inst != u.g.uses[n as int].pos.inst
                || u.g.uses[m as int].slot != u.g.uses[n as int].slot);
        } else if n < m {
            assert(u.g.uses[n as int].pos.inst != u.g.uses[m as int].pos.inst
                || u.g.uses[n as int].slot != u.g.uses[m as int].slot);
        }
    }
    lemma_distinct(g.in_range, g.uses.len() as int, r as int, j, q as int, l);
}

/// A live range with a definition is one of the register that is defined.
pub proof fn lemma_def_owner(c: Ctx, v: int, y: int)
    requires
        ctx_ok(c),
        allocated(c) is Ok,
        locations_sound(c),
        ssa_form(c.f),
        0 <= v < found(c).g.in_vreg.len(),
        0 <= y < found(c).g.in_vreg[v].len(),
        found(c).g.ranges[found(c).g.in_vreg[v][y] as int].def.is_valid(),
    ensures
        found(c).g.defs[found(c).g.ranges[found(c).g.in_vreg[v][y] as int].def.ix()].operand.vreg.vreg
            == v,
{
    let (u, a, t) = located(c)->Ok_0;
    let d = a.g.ranges[a.g.in_vreg[v][y] as int].def;
    assert(defines(a.g, v, d.0)) by {
        assert(a.g.ranges[a.g.in_vreg[v][y] as int].def.0 == d.0);
    }
    assert(defines(u.g, v, d.0));
    lemma_defined_by(c, v, d.0);
}

proof fn lemma_defined_by(c: Ctx, v: int, d: u32)
    requires
        scan_sound(c, located(c)->Ok_0.0),
        ssa_form(c.f),
        0 <= v < located(c)->Ok_0.0.g.in_vreg.len(),
        d != u32::MAX,
        defines(located(c)->Ok_0.0.g, v, d),
    ensures
        located(c)->Ok_0.0.g.defs[d as int].operand.vreg.vreg == v,
{
    reveal(marks);
    reveal(scan_tables);
    let g = located(c)->Ok_0.0.g;
    let z = choose|z: int|
        0 <= z < g.in_vreg[v].len() && g.ranges[(#[trigger] g.in_vreg[v][z]) as int].def.0 == d;
    lemma_below(g.in_vreg, g.ranges.len() as int, v, z);
    assert(g.ranges[g.in_vreg[v][z] as int].vreg.0 == v);
    assert(range_ok(c.f, g, g.in_vreg[v][z] as int));
    assert(def_of(g, v));
}

/// The definition by which a live range holds an operand that defines its register.
pub proof fn lemma_def_site(c: Ctx, v: int, y: int, i: int, k: int)
    requires
        ctx_ok(c),
        allocated(c) is Ok,
        locations_sound(c),
        ssa_form(c.f),
        0 <= i < c.f.insts,
        0 <= k < c.f.operands[i].len(),
        c.f.operands[i][k].kind is Def,
        holds_operand(c, v, y, i, k),
    ensures
        ({
            let g = found(c).g;
            let r = g.in_vreg[v][y];
            let d = g.ranges[r as int].def;
            &&& r < g.ranges.len()
            &&& d.is_valid()
            &&& d.ix() < g.defs.len()
            &&& g.defs[d.ix()].pos == def_pos(
                c.f.operands[i][k],
                Inst(i as u32),
            )
            &&& g.defs[d.ix()].operand == c.f.operands[i][k]
            &&& g.ranges[r as int].range.has(g.defs[d.ix()].pos)
            &&& v == c.f.operands[i][k].vreg.vreg
        }),
{
    let (u, a, t) = located(c)->Ok_0;
    let x = found(c);
    let r = x.g.in_vreg[v][y];
    let place = operand_place(c.f, Inst(i as u32), k);
    let d = x.g.ranges[r as int].def;
    let list = x.g.in_range[r as int];
    lemma_below(x.g.in_vreg, x.g.ranges.len() as int, v, y);
    assert(range_ok(c.f, x.g, r as int));
    if use_at(x, list, 0, place) {
        let j = choose|j: int|
            0 <= j < list.len() && ({
                let use_j = x.g.uses[(#[trigger] list[j]) as int];
                operand_place(x.c.f, use_j.pos.inst, use_j.slot as int) == place
            });
        lemma_below(x.g.in_range, x.g.uses.len() as int, r as int, j);
        let e = list[j] as int;
        assert(mention_ok(c.f, x.g.uses[e].pos, x.g.uses[e].slot));
        lemma_places_apart(c.f, x.g.uses[e].pos.inst.ix(), x.g.uses[e].slot as int, i, k);
        assert(use_named(c.f, u.g.uses[e]));
    }
    let def = x.g.defs[d.ix()];
    assert(mention_ok(c.f, def.pos, def.slot));
    lemma_places_apart(c.f, def.pos.inst.ix(), def.slot as int, i, k);
    assert(u.g.defs[d.ix()] == def);
    law_defs_covered(c);
    assert(x.g.ranges[r as int].range.has(def.pos));
    lemma_def_owner(c, v, y);
}

/// An operand that defines its register is held by one live range.
proof fn lemma_one_def(c: Ctx, v: int, y: int, w: int, z: int, i: int, k: int)
    requires
        ctx_ok(c),
        allocated(c) is Ok,
        locations_sound(c),
        ssa_form(c.f),
        0 <= i < c.f.insts,
        0 <= k < c.f.operands[i].len(),
        c.f.operands[i][k].kind is Def,
        holds_operand(c, v, y, i, k),
        holds_operand(c, w, z, i, k),
    ensures
        v == w,
        y == z,
{
    let g = found(c).g;
    lemma_def_site(c, v, y, i, k);
    lemma_def_site(c, w, z, i, k);
    lemma_orders(c);
    assert(in_order(g.ranges, g.in_vreg[v]));
    let _ = (g.in_vreg[v][y], g.in_vreg[v][z]);
}

/// Before reused inputs are copied an operand is where the live range is that holds it.
pub proof fn lemma_first_alloc(c: Ctx, v: int, y: int, i: int, k: int)
    requires
        ctx_ok(c),
        allocated(c) is Ok,
        locations_sound(c),
        ssa_form(c.f),
        0 <= i < c.f.insts,
        0 <= k < c.f.operands[i].len(),
        holds_operand(c, v, y, i, k),
    ensures
        range_alloc(found(c), found(c).g.in_vreg[v][y]) is Some,
        first_allocs(c)[operand_place(c.f, Inst(i as u32), k)] == location_of(c, v, y),
{
    let (u, a, t) = located(c)->Ok_0;
    let x = found(c);
    let place = operand_place(c.f, Inst(i as u32), k);
    let loc = location_of(c, v, y);
    let locs = Set::empty().insert(loc);
    lemma_place(c.f, Inst(i as u32), k);
    lemma_range_located(x, apply_start(c.f), u.fixups, v as u32, y);
    assert(located_among(x, place, locs)) by {
        assert forall|w: int, z: int|
            0 <= w < x.g.in_vreg.len() && 0 <= z < x.g.in_vreg[w].len() && is_mentioned(
                x,
                #[trigger] x.g.in_vreg[w][z],
                place,
            ) implies (range_alloc(x, x.g.in_vreg[w][z]) matches Some(l) ==> locs.contains(l)) by {
            assert(holds_operand(c, w, z, i, k));
            if c.f.operands[i][k].kind is Use {
                lemma_one_use(c, v, y, w, z, i, k);
            } else {
                lemma_one_def(c, v, y, w, z, i, k);
            }
        }
    }
    lemma_before_reuse(x, apply_start(c.f), u.fixups, v, y, place, locs);
}

/// The live range that holds an operand of a block that can be reached.
pub proof fn lemma_held(c: Ctx, b: Block, i: int, k: int) -> (m: (int, int))
    requires
        ctx_ok(c),
        allocated(c) is Ok,
        locations_sound(c),
        ssa_form(c.f),
        b.0 < c.f.blocks,
        reachable(c.f, b),
        c.f.insns[b.ix()].has(i),
        0 <= i < c.f.insts,
        0 <= k < c.f.operands[i].len(),
    ensures
        holds_operand(c, m.0, m.1, i, k),
{
    let (u, a, t) = located(c)->Ok_0;
    let x = found(c);
    let place = operand_place(c.f, Inst(i as u32), k);
    assert(defined_first(c.f)) by {
        reveal(ssa_form);
    }
    assert(reached(c, c.cfg.postorder.len() as int, 0x1_0000_0000, 0, i, k)) by {
        assert(c.cfg.postorder.contains(b));
        let j = choose|j: int| 0 <= j < c.cfg.postorder.len() && c.cfg.postorder[j] == b;
        assert(c.f.insns[c.cfg.postorder[j].ix()].has(i));
    }
    if c.f.operands[i][k].kind is Use {
        let uses = u.g.uses;
        assert(has_use(uses, i, k));
        let n = choose|n: int|
            0 <= n < uses.len() && (#[trigger] uses[n]).pos.inst.ix() == i && uses[n].slot == k;
        let v = uses[n].operand.vreg.vreg as int;
        assert(mentions(u.g, v, n as u32));
        assert(mentions(a.g, v, n as u32));
        let y = choose|y: int|
            0 <= y < a.g.in_vreg[v].len() && a.g.in_range[(
            #[trigger] a.g.in_vreg[v][y]) as int].contains(n as u32);
        let list = a.g.in_range[a.g.in_vreg[v][y] as int];
        let j = choose|j: int| 0 <= j < list.len() && list[j] == n as u32;
        assert(use_at(x, list, 0, place)) by {
            assert(x.g.uses[list[j] as int] == uses[n]);
            assert(uses[n].pos.inst == Inst(i as u32));
        }
        (v, y)
    } else {
        let defs = u.g.defs;
        assert(has_def(defs, i, k));
        let n = choose|n: int|
            0 <= n < defs.len() && (#[trigger] defs[n]).pos.inst.ix() == i && defs[n].slot == k;
        let v = defs[n].operand.vreg.vreg as int;
        assert(defines(u.g, v, n as u32) && v < u.g.in_vreg.len()) by {
            reveal(held);
        }
        assert(defines(a.g, v, n as u32));
        let y = choose|y: int|
            0 <= y < a.g.in_vreg[v].len() && a.g.ranges[(
            #[trigger] a.g.in_vreg[v][y]) as int].def.0 == n as u32;
        assert(is_mentioned(x, a.g.in_vreg[v][y], place)) by {
            assert(a.g.defs[n] == defs[n]);
            assert(defs[n].pos.inst == Inst(i as u32));
        }
        (v, y)
    }
}

/// The place of the copies of reused inputs at an instruction.
pub open spec fn reuse_key(inst: Inst) -> int {
    place_key(ProgPoint::before(inst).ix(), InsertMovePrio::ReusedInput)
}

/// What the locations hold after the copies of reused inputs at an instruction.
pub open spec fn after_reuse(c: Ctx, inst: Inst, held: spec_fn(Allocation) -> int) -> spec_fn(
    Allocation,
) -> int {
    run_edits(edits_at(found_edits(c), reuse_key(inst)), held)
}

/// What is asked of a block and an instruction of it.
pub open spec fn in_reach(c: Ctx, b: Block, i: int) -> bool {
    &&& b.0 < c.f.blocks
    &&& reachable(c.f, b)
    &&& c.f.insns[b.ix()].has(i)
    &&& 0 <= i < c.f.insts
}

/// The moves at an instruction that copy reused inputs, and the locations of its operands.
proof fn lemma_reuse_state(c: Ctx, b: Block, i: int)
    requires
        ctx_ok(c),
        allocated(c) is Ok,
        locations_sound(c),
        ssa_form(c.f),
        in_reach(c, b, i),
        reuse_clean(c.f, Inst(i as u32)),
        c.f.operands[i].len() > 0,
    ensures
        ({
            let (u, a, t) = located(c)->Ok_0;
            let s = applied(c, u, a, t);
            let inst = Inst(i as u32);
            &&& reuse_done(c.f, first_allocs(c), s, inst) || reuse_open(
                c.f,
                first_allocs(c),
                s,
                inst,
            )
            &&& (exists|p: int|
                0 <= p < c.f.operands[i].len() && (
                #[trigger] c.f.operands[i][p]).policy is Reuse) ==> reuse_done(
                c.f,
                first_allocs(c),
                s,
                inst,
            )
        }),
{
    let (u, a, t) = located(c)->Ok_0;
    let x = found(c);
    let inst = Inst(i as u32);
    lemma_place(c.f, inst, 0);
    if exists|p: int|
        0 <= p < c.f.operands[i].len() && (#[trigger] c.f.operands[i][p]).policy is Reuse {
        let p = choose|p: int|
            0 <= p < c.f.operands[i].len() && (#[trigger] c.f.operands[i][p]).policy is Reuse;
        assert(inst_ok(c.f, i));
        assert(operand_ok(c.f, i, c.f.operands[i][p]));
        let (v, y) = lemma_held(c, b, i, p);
        lemma_def_site(c, v, y, i, p);
        assert(defines_reuse(x, x.g.in_vreg[v][y], inst));
        lemma_reuse_noted(x, apply_start(c.f), u.fixups, v, inst);
        assert(exists|z: int|
            0 <= z < x.g.in_vreg[v].len() && defines_reuse(x, #[trigger] x.g.in_vreg[v][z], inst));
    } else {
        lemma_reuse_noted(x, apply_start(c.f), u.fixups, -1, inst);
    }
    lemma_reuse_moves(x, apply_start(c.f), u.fixups, inst);
}

/// The live range of an output that reuses an input: it is live after the instruction.
proof fn lemma_output(c: Ctx, b: Block, i: int, p: int) -> (m: (int, int))
    requires
        ctx_ok(c),
        allocated(c) is Ok,
        locations_sound(c),
        ssa_form(c.f),
        in_reach(c, b, i),
        0 <= p < c.f.operands[i].len(),
        c.f.operands[i][p].policy is Reuse,
    ensures
        holds_operand(c, m.0, m.1, i, p),
        m.0 == c.f.operands[i][p].vreg.vreg,
        range_of(c, m.0, m.1).has(ProgPoint::after(Inst(i as u32))),
        range_alloc(found(c), found(c).g.in_vreg[m.0][m.1]) is Some,
        first_allocs(c)[operand_place(c.f, Inst(i as u32), p)] == location_of(c, m.0, m.1),
{
    assert(inst_ok(c.f, i));
    assert(operand_ok(c.f, i, c.f.operands[i][p]));
    let (v, y) = lemma_held(c, b, i, p);
    lemma_def_site(c, v, y, i, p);
    lemma_first_alloc(c, v, y, i, p);
    (v, y)
}

/// Every copy of a reused input goes to the location of an output.
proof fn lemma_reuse_pair(c: Ctx, b: Block, i: int, j: int) -> (p: int)
    requires
        ctx_ok(c),
        allocated(c) is Ok,
        locations_sound(c),
        ssa_form(c.f),
        in_reach(c, b, i),
        reuse_clean(c.f, Inst(i as u32)),
        c.f.operands[i].len() > 0,
        0 <= j < found_moves(c).len(),
        found_moves(c)[j].key() == reuse_key(Inst(i as u32)),
    ensures
        is_copied(c.f, first_allocs(c), Inst(i as u32), p),
        found_moves(c)[j] == reuse_move(c.f, first_allocs(c), Inst(i as u32), p),
{
    let inst = Inst(i as u32);
    let moves = found_moves(c);
    lemma_reuse_state(c, b, i);
    lemma_place_key(
        moves[j],
        InsertedMove {
            pos: ProgPoint::before(inst),
            prio: InsertMovePrio::ReusedInput,
            from_alloc: Allocation::Nowhere,
            to_alloc: Allocation::Nowhere,
        },
    );
    assert(copies_at(moves[j], inst));
    choose|p: int|
        p < c.f.operands[i].len() && #[trigger] is_copied(c.f, first_allocs(c), inst, p) && moves[j]
            == reuse_move(c.f, first_allocs(c), inst, p)
}

/// Outputs that reuse inputs are in different locations.
proof fn lemma_outputs_apart(c: Ctx, b: Block, i: int, p: int, q: int)
    requires
        ctx_ok(c),
        allocated(c) is Ok,
        locations_sound(c),
        ssa_form(c.f),
        in_reach(c, b, i),
        0 <= p < c.f.operands[i].len(),
        0 <= q < c.f.operands[i].len(),
        c.f.operands[i][p].policy is Reuse,
        c.f.operands[i][q].policy is Reuse,
        p != q,
    ensures
        first_allocs(c)[operand_place(c.f, Inst(i as u32), p)]
            != first_allocs(c)[operand_place(c.f, Inst(i as u32), q)],
{
    let x = found(c);
    let (v, y) = lemma_output(c, b, i, p);
    let (w, z) = lemma_output(c, b, i, q);
    assert(v != w) by {
        reveal(ssa_form);
        assert(inst_ok(c.f, i));
        assert(operand_ok(c.f, i, c.f.operands[i][p]));
        assert(operand_ok(c.f, i, c.f.operands[i][q]));
        let _ = (c.f.operands[i][p], c.f.operands[i][q]);
    }
    lemma_kept_apart(c);
    let _ = (x.g.in_vreg[v][y], x.g.in_vreg[w][z]);
    assert(range_of(c, v, y).meets(range_of(c, w, z)));
}

/// The copies of reused inputs at an instruction can be done in parallel.
proof fn lemma_reuse_dests(c: Ctx, b: Block, i: int)
    requires
        ctx_ok(c),
        allocated(c) is Ok,
        locations_sound(c),
        scratch_free(c),
        ssa_form(c.f),
        in_reach(c, b, i),
        reuse_clean(c.f, Inst(i as u32)),
        c.f.operands[i].len() > 0,
    ensures
        dests_ok(
            pairs_of(moves_at(found_moves(c), reuse_key(Inst(i as u32)))),
            scratch_of(c, moves_at(found_moves(c), reuse_key(Inst(i as u32)))),
        ),
{
    let inst = Inst(i as u32);
    let moves = found_moves(c);
    let key = reuse_key(inst);
    let group = moves_at(moves, key);
    let pairs = pairs_of(group);
    lemma_pairs_at(moves, key);
    assert forall|j: int, k: int|
        #![trigger moves[j], moves[k]]
        0 <= j < k < moves.len() && moves[j].key() == key && moves[k].key() == key
            && moves[j].to_alloc == moves[k].to_alloc implies moves[j].from_alloc
        == moves[k].from_alloc by {
        let p = lemma_reuse_pair(c, b, i, j);
        let q = lemma_reuse_pair(c, b, i, k);
        if p != q {
            lemma_outputs_apart(c, b, i, p, q);
        }
    }
    assert forall|n: int| 0 <= n < pairs.len() implies (#[trigger] pairs[n]).1 != scratch_of(
        c,
        group,
    ) by {
        let j = choose|j: int|
            #![trigger moves[j]]
            0 <= j < moves.len() && moves[j].key() == key && moves[j].from_alloc
                != moves[j].to_alloc && pairs[n] == (moves[j].from_alloc, moves[j].to_alloc);
        let p = lemma_reuse_pair(c, b, i, j);
        let (v, y) = lemma_output(c, b, i, p);
        let class = group[0].from_alloc.class()->Some_0.ix();
        lemma_scratch_unused(c, v, y, class);
    }
}

/// What the copies of reused inputs at an instruction do with the locations.
proof fn lemma_reuse_moved(c: Ctx, b: Block, i: int, held: spec_fn(Allocation) -> int)
    requires
        ctx_ok(c),
        allocated(c) is Ok,
        locations_sound(c),
        scratch_free(c),
        ssa_form(c.f),
        in_reach(c, b, i),
        reuse_clean(c.f, Inst(i as u32)),
        c.f.operands[i].len() > 0,
    ensures
        forall|p: int| #[trigger]
            is_copied(c.f, first_allocs(c), Inst(i as u32), p) ==> after_reuse(
                c,
                Inst(i as u32),
                held,
            )(first_allocs(c)[operand_place(c.f, Inst(i as u32), p)]) == held(
                reuse_move(c.f, first_allocs(c), Inst(i as u32), p).from_alloc,
            ),
        forall|v: int, y: int|
            0 <= v < found(c).g.in_vreg.len() && 0 <= y < found(c).g.in_vreg[v].len() && range_alloc(
                found(c),
                #[trigger] found(c).g.in_vreg[v][y],
            ) is Some && (forall|p: int| #[trigger]
                is_copied(c.f, first_allocs(c), Inst(i as u32), p)
                    ==> first_allocs(c)[operand_place(c.f, Inst(i as u32), p)] != location_of(
                    c,
                    v,
                    y,
                )) ==> after_reuse(c, Inst(i as u32), held)(location_of(c, v, y)) == held(
                location_of(c, v, y),
            ),
{
    let (u, a, t) = located(c)->Ok_0;
    let s = applied(c, u, a, t);
    let inst = Inst(i as u32);
    let moves = found_moves(c);
    let key = reuse_key(inst);
    let group = moves_at(moves, key);
    let pairs = pairs_of(group);
    lemma_points_fit(c);
    lemma_reuse_dests(c, b, i);
    lemma_pairs_at(moves, key);
    lemma_reuse_state(c, b, i);
    law_group_in_parallel(c, a.g.vregs, s.moves, s.params, key, held);
    assert forall|p: int| #[trigger] is_copied(c.f, first_allocs(c), inst, p) implies after_reuse(
        c,
        inst,
        held,
    )(first_allocs(c)[operand_place(c.f, inst, p)]) == held(
        reuse_move(c.f, first_allocs(c), inst, p).from_alloc,
    ) by {
        let m = reuse_move(c.f, first_allocs(c), inst, p);
        assert(c.f.operands[i][p].policy is Reuse);
        assert(moves.contains(m));
        let j = choose|j: int| 0 <= j < moves.len() && moves[j] == m;
        assert(moves[j].key() == key);
        assert(pairs.contains((m.from_alloc, m.to_alloc)));
        let n = choose|n: int| 0 <= n < pairs.len() && pairs[n] == (m.from_alloc, m.to_alloc);
        assert(pairs[n].1 == m.to_alloc);
    }
    assert forall|v: int, y: int|
        0 <= v < found(c).g.in_vreg.len() && 0 <= y < found(c).g.in_vreg[v].len() && range_alloc(
            found(c),
            #[trigger] found(c).g.in_vreg[v][y],
        ) is Some && (forall|p: int| #[trigger]
            is_copied(c.f, first_allocs(c), inst, p) ==> first_allocs(c)[operand_place(
                c.f,
                inst,
                p,
            )] != location_of(c, v, y)) implies after_reuse(c, inst, held)(location_of(c, v, y))
        == held(location_of(c, v, y)) by {
        let loc = location_of(c, v, y);
        let class = group[0].from_alloc.class()->Some_0.ix();
        lemma_scratch_unused(c, v, y, class);
        assert forall|n: int| 0 <= n < pairs.len() implies (#[trigger] pairs[n]).1 != loc by {
            let j = choose|j: int|
                #![trigger moves[j]]
                0 <= j < moves.len() && moves[j].key() == key && moves[j].from_alloc
                    != moves[j].to_alloc && pairs[n] == (moves[j].from_alloc, moves[j].to_alloc);
            let p = lemma_reuse_pair(c, b, i, j);
            assert(is_copied(c.f, first_allocs(c), inst, p));
        }
    }
}

/// The copies of reused inputs before an instruction leave a location as it is that no output with a
/// copy is in, and that is no scratch register.
pub proof fn lemma_reuse_leaves(
    c: Ctx,
    b: Block,
    i: int,
    loc: Allocation,
    held: spec_fn(Allocation) -> int,
)
    requires
        ctx_ok(c),
        allocated(c) is Ok,
        locations_sound(c),
        scratch_free(c),
        ssa_form(c.f),
        in_reach(c, b, i),
        reuse_clean(c.f, Inst(i as u32)),
        c.f.operands[i].len() > 0,
        forall|k: int|
            0 <= k < c.m.scratch_by_class.len() ==> loc != Allocation::Reg(
                #[trigger] c.m.scratch_by_class[k],
            ),
        forall|p: int| #[trigger]
            is_copied(c.f, first_allocs(c), Inst(i as u32), p) ==> first_allocs(c)[operand_place(
                c.f,
                Inst(i as u32),
                p,
            )] != loc,
    ensures
        after_reuse(c, Inst(i as u32), held)(loc) == held(loc),
{
    let (u, a, t) = located(c)->Ok_0;
    let s = applied(c, u, a, t);
    let inst = Inst(i as u32);
    let moves = found_moves(c);
    let key = reuse_key(inst);
    let group = moves_at(moves, key);
    let pairs = pairs_of(group);
    lemma_points_fit(c);
    lemma_reuse_dests(c, b, i);
    lemma_pairs_at(moves, key);
    lemma_reuse_state(c, b, i);
    law_group_in_parallel(c, a.g.vregs, s.moves, s.params, key, held);
    let _ = c.m.scratch_by_class[group[0].from_alloc.class()->Some_0.ix()];
    assert forall|n: int| 0 <= n < pairs.len() implies (#[trigger] pairs[n]).1 != loc by {
        let j = choose|j: int|
            #![trigger moves[j]]
            0 <= j < moves.len() && moves[j].key() == key && moves[j].from_alloc
                != moves[j].to_alloc && pairs[n] == (moves[j].from_alloc, moves[j].to_alloc);
        let p = lemma_reuse_pair(c, b, i, j);
        assert(is_copied(c.f, first_allocs(c), inst, p));
    }
}

/// The output that reuses an input is live after the instruction, where it comes out.
pub proof fn lemma_reusing_output(c: Ctx, b: Block, i: int, p: int) -> (m: (int, int))
    requires
        ctx_ok(c),
        allocated(c) is Ok,
        locations_sound(c),
        ssa_form(c.f),
        in_reach(c, b, i),
        0 <= p < c.f.operands[i].len(),
        c.f.operands[i][p].policy is Reuse,
    ensures
        0 <= m.0 < found(c).g.in_vreg.len(),
        0 <= m.1 < found(c).g.in_vreg[m.0].len(),
        range_of(c, m.0, m.1).has(ProgPoint::after(Inst(i as u32))),
        range_alloc(found(c), found(c).g.in_vreg[m.0][m.1]) == Some(
            first_allocs(c)[operand_place(c.f, Inst(i as u32), p)],
        ),
{
    lemma_output(c, b, i, p)
}

/// Where an output that reuses an input comes out.
pub proof fn lemma_output_stays(c: Ctx, b: Block, i: int, p: int)
    requires
        ctx_ok(c),
        allocated(c) is Ok,
        locations_sound(c),
        ssa_form(c.f),
        in_reach(c, b, i),
        reuse_clean(c.f, Inst(i as u32)),
        0 <= p < c.f.operands[i].len(),
        !input_upto(c.f, Inst(i as u32), p, c.f.operands[i].len() as int),
    ensures
        allocated(c)->Ok_0.allocs[operand_place(c.f, Inst(i as u32), p)]
            == first_allocs(c)[operand_place(c.f, Inst(i as u32), p)],
{
    lemma_reuse_state(c, b, i);
    let _ = operand_place(c.f, Inst(i as u32), p);
}

/// An output that reuses an input has the value of that input where it comes out: the copies before
/// the instruction bring it there from the location of the live range that holds the input.
pub proof fn law_reuse_copied(
    c: Ctx,
    b: Block,
    i: int,
    p: int,
    k: int,
    held: spec_fn(Allocation) -> int,
)
    requires
        ctx_ok(c),
        allocated(c) is Ok,
        locations_sound(c),
        scratch_free(c),
        ssa_form(c.f),
        in_reach(c, b, i),
        reuse_clean(c.f, Inst(i as u32)),
        0 <= p < c.f.operands[i].len(),
        0 <= k < c.f.operands[i].len(),
        c.f.operands[i][p].policy == OperandPolicy::Reuse(k as usize),
        k <= usize::MAX,
    ensures
        exists|v: int, y: int| #[trigger] holds_operand(c, v, y, i, k),
        forall|v: int, y: int| #[trigger]
            holds_operand(c, v, y, i, k) ==> range_alloc(found(c), found(c).g.in_vreg[v][y]) is Some
                && after_reuse(c, Inst(i as u32), held)(
                allocated(c)->Ok_0.allocs[operand_place(c.f, Inst(i as u32), p)],
            ) == held(location_of(c, v, y)),
{
    let inst = Inst(i as u32);
    let n = c.f.operands[i].len() as int;
    let (v0, y0) = lemma_held(c, b, i, k);
    assert(holds_operand(c, v0, y0, i, k));
    assert(!input_upto(c.f, inst, p, n)) by {
        let ops = c.f.operands[i];
        if input_upto(c.f, inst, p, n) {
            let q = choose|q: int|
                0 <= q < n && q < ops.len() && ((
                #[trigger] ops[q]).policy matches OperandPolicy::Reuse(l) && l == p);
            let _ = (ops[q], ops[p]);
        }
    }
    lemma_output_stays(c, b, i, p);
    lemma_reuse_moved(c, b, i, held);
    assert forall|v: int, y: int| #[trigger] holds_operand(c, v, y, i, k) implies range_alloc(
        found(c),
        found(c).g.in_vreg[v][y],
    ) is Some && after_reuse(c, inst, held)(
        allocated(c)->Ok_0.allocs[operand_place(c.f, inst, p)],
    ) == held(location_of(c, v, y)) by {
        lemma_first_alloc(c, v, y, i, k);
        let (w, z) = lemma_output(c, b, i, p);
        if is_copied(c.f, first_allocs(c), inst, p) {
            assert(reuse_move(c.f, first_allocs(c), inst, p).from_alloc == location_of(c, v, y));
        } else {
            let _ = found(c).g.in_vreg[w][z];
            assert forall|q: int| #[trigger]
                is_copied(c.f, first_allocs(c), inst, q) implies first_allocs(c)[operand_place(
                c.f,
                inst,
                q,
            )] != location_of(c, w, z) by {
                lemma_outputs_apart(c, b, i, p, q);
            }
        }
    }
}

/// The copies of reused inputs before an instruction leave the other inputs as they are.
pub proof fn law_reuse_spares(
    c: Ctx,
    b: Block,
    i: int,
    q: int,
    held: spec_fn(Allocation) -> int,
)
    requires
        ctx_ok(c),
        allocated(c) is Ok,
        locations_sound(c),
        scratch_free(c),
        ssa_form(c.f),
        in_reach(c, b, i),
        reuse_clean(c.f, Inst(i as u32)),
        0 <= q < c.f.operands[i].len(),
        c.f.operands[i][q].kind is Use,
        !input_upto(c.f, Inst(i as u32), q, c.f.operands[i].len() as int),
    ensures
        after_reuse(c, Inst(i as u32), held)(
            allocated(c)->Ok_0.allocs[operand_place(c.f, Inst(i as u32), q)],
        ) == held(allocated(c)->Ok_0.allocs[operand_place(c.f, Inst(i as u32), q)]),
{
    let inst = Inst(i as u32);
    let (v, y) = lemma_held(c, b, i, q);
    lemma_first_alloc(c, v, y, i, q);
    lemma_output_stays(c, b, i, q);
    lemma_reuse_moved(c, b, i, held);
    let _ = found(c).g.in_vreg[v][y];
    assert forall|p: int| #[trigger] is_copied(c.f, first_allocs(c), inst, p) implies first_allocs(
        c,
    )[operand_place(c.f, inst, p)] != location_of(c, v, y) by {
        lemma_input_spared(c, b, i, q, p, v, y);
    }
}

/// An input that is not reused is not where an output is that reuses one.
proof fn lemma_input_spared(c: Ctx, b: Block, i: int, q: int, p: int, v: int, y: int)
    requires
        ctx_ok(c),
        allocated(c) is Ok,
        locations_sound(c),
        ssa_form(c.f),
        in_reach(c, b, i),
        0 <= q < c.f.operands[i].len(),
        0 <= p < c.f.operands[i].len(),
        c.f.operands[i][q].kind is Use,
        c.f.operands[i][p].policy is Reuse,
        !input_upto(c.f, Inst(i as u32), q, c.f.operands[i].len() as int),
        holds_operand(c, v, y, i, q),
        range_alloc(found(c), found(c).g.in_vreg[v][y]) is Some,
    ensures
        first_allocs(c)[operand_place(c.f, Inst(i as u32), p)] != location_of(c, v, y),
{
    lemma_input_lives_on(c, b, i, q, p, v, y);
    assert(inst_ok(c.f, i));
    assert(operand_ok(c.f, i, c.f.operands[i][p]));
    assert(c.f.operands[i][p].vreg.vreg != c.f.operands[i][q].vreg.vreg) by {
        reveal(ssa_form);
        let _ = (c.f.insns[b.ix()], c.f.operands[i][p], c.f.operands[i][q]);
    }
    lemma_live_spared(c, b, i, v, y, p);
}

/// An input of an instruction in which another input is reused is live after the instruction.
proof fn lemma_input_lives_on(c: Ctx, b: Block, i: int, q: int, p: int, v: int, y: int)
    requires
        ctx_ok(c),
        allocated(c) is Ok,
        locations_sound(c),
        ssa_form(c.f),
        in_reach(c, b, i),
        0 <= q < c.f.operands[i].len(),
        0 <= p < c.f.operands[i].len(),
        c.f.operands[i][q].kind is Use,
        c.f.operands[i][p].policy is Reuse,
        !input_upto(c.f, Inst(i as u32), q, c.f.operands[i].len() as int),
        holds_operand(c, v, y, i, q),
    ensures
        range_of(c, v, y).has(ProgPoint::after(Inst(i as u32))),
        v == c.f.operands[i][q].vreg.vreg,
{
    let (u, a, t) = located(c)->Ok_0;
    let g = found(c).g;
    let ops = c.f.operands[i];
    let j = lemma_use_site(c, v, y, i, q);
    let r = g.in_vreg[v][y];
    let n = g.in_range[r as int][j] as int;
    assert(defined_first(c.f)) by {
        reveal(ssa_form);
    }
    law_uses_covered(c);
    assert(g.ranges[r as int].range.has(g.uses[g.in_range[r as int][j] as int].pos));
    assert(use_named(c.f, u.g.uses[n]));
    lemma_reused_found(ops, 0, p);
    assert(mentions(a.g, v, n as u32)) by {
        assert(a.g.in_range[a.g.in_vreg[v][y] as int].contains(n as u32));
    }
    assert(mentions(u.g, v, n as u32));
    lemma_use_owner(c, v, n as u32);
    assert(u.g.uses[n].pos.inst == Inst(i as u32));
}

/// A use is one of the register of its live range.
pub proof fn lemma_use_owner(c: Ctx, v: int, n: u32)
    requires
        scan_sound(c, located(c)->Ok_0.0),
        defined_first(c.f),
        0 <= v < located(c)->Ok_0.0.g.in_vreg.len(),
        mentions(located(c)->Ok_0.0.g, v, n),
    ensures
        located(c)->Ok_0.0.g.uses[n as int].operand.vreg.vreg == v,
{
    reveal(scan_tables);
    let g = located(c)->Ok_0.0.g;
    let z = choose|z: int|
        0 <= z < g.in_vreg[v].len() && g.in_range[(#[trigger] g.in_vreg[v][z]) as int].contains(n);
    let q = g.in_vreg[v][z];
    lemma_below(g.in_vreg, g.ranges.len() as int, v, z);
    let j = choose|j: int| 0 <= j < g.in_range[q as int].len() && g.in_range[q as int][j] == n;
    assert(g.uses[g.in_range[q as int][j] as int].operand.vreg.vreg == g.ranges[q as int].vreg.0);
}

/// The first input that is reused is one that an operand reuses.
proof fn lemma_reused_found(ops: Seq<Operand>, i: int, p: int)
    requires
        0 <= i <= p < ops.len(),
        ops[p].policy is Reuse,
    ensures
        reused_input(ops, i) matches Some(k) && exists|q: int|
            i <= q < ops.len() && (#[trigger] ops[q]).policy == OperandPolicy::Reuse(k),
    decreases ops.len() - i,
{
    if !(ops[i].policy is Reuse) {
        lemma_reused_found(ops, i + 1, p);
    }
}

/// A register that is live after an instruction, and that no output is, is not where an output is.
proof fn lemma_live_spared(c: Ctx, b: Block, i: int, v: int, y: int, p: int)
    requires
        ctx_ok(c),
        allocated(c) is Ok,
        locations_sound(c),
        ssa_form(c.f),
        in_reach(c, b, i),
        0 <= p < c.f.operands[i].len(),
        c.f.operands[i][p].policy is Reuse,
        0 <= v < found(c).g.in_vreg.len(),
        0 <= y < found(c).g.in_vreg[v].len(),
        range_of(c, v, y).has(ProgPoint::after(Inst(i as u32))),
        v != c.f.operands[i][p].vreg.vreg,
        range_alloc(found(c), found(c).g.in_vreg[v][y]) is Some,
    ensures
        first_allocs(c)[operand_place(c.f, Inst(i as u32), p)] != location_of(c, v, y),
{
    let x = found(c);
    let (w, z) = lemma_output(c, b, i, p);
    lemma_kept_apart(c);
    let _ = (x.g.in_vreg[v][y], x.g.in_vreg[w][z]);
    assert(range_of(c, v, y).meets(range_of(c, w, z)));
}

/// A register that is live after an instruction, and that the instruction does not define, stays
/// where it is: the copies of reused inputs leave its location as it is.
pub proof fn law_live_through_reuse(
    c: Ctx,
    b: Block,
    i: int,
    v: int,
    y: int,
    held: spec_fn(Allocation) -> int,
)
    requires
        ctx_ok(c),
        allocated(c) is Ok,
        locations_sound(c),
        scratch_free(c),
        ssa_form(c.f),
        in_reach(c, b, i),
        reuse_clean(c.f, Inst(i as u32)),
        0 <= v < found(c).g.in_vreg.len(),
        0 <= y < found(c).g.in_vreg[v].len(),
        range_of(c, v, y).has(ProgPoint::after(Inst(i as u32))),
        forall|p: int|
            0 <= p < c.f.operands[i].len() && (#[trigger] c.f.operands[i][p]).kind is Def
                ==> c.f.operands[i][p].vreg.vreg != v,
    ensures
        range_alloc(found(c), found(c).g.in_vreg[v][y]) is Some,
        after_reuse(c, Inst(i as u32), held)(location_of(c, v, y)) == held(location_of(c, v, y)),
{
    let (u, a, t) = located(c)->Ok_0;
    let inst = Inst(i as u32);
    lemma_range_located(found(c), apply_start(c.f), u.fixups, v as u32, y);
    if c.f.operands[i].len() > 0 {
        lemma_reuse_moved(c, b, i, held);
        let _ = found(c).g.in_vreg[v][y];
        assert forall|p: int| #[trigger] is_copied(c.f, first_allocs(c), inst, p) implies first_allocs(
            c,
        )[operand_place(c.f, inst, p)] != location_of(c, v, y) by {
            assert(inst_ok(c.f, i));
            assert(operand_ok(c.f, i, c.f.operands[i][p]));
            lemma_live_spared(c, b, i, v, y, p);
        }
    } else {
        lemma_no_reuse(c, i, held);
    }
}

/// Nothing is copied at an instruction without operands.
proof fn lemma_no_reuse(c: Ctx, i: int, held: spec_fn(Allocation) -> int)
    requires
        ctx_ok(c),
        allocated(c) is Ok,
        locations_sound(c),
        0 <= i < c.f.insts,
        c.f.operands[i].len() == 0,
    ensures
        after_reuse(c, Inst(i as u32), held) == held,
{
    let (u, a, t) = located(c)->Ok_0;
    let s = applied(c, u, a, t);
    let inst = Inst(i as u32);
    let key = reuse_key(inst);
    lemma_no_reuse_moves(found(c), apply_start(c.f), u.fixups, inst);
    lemma_points_fit(c);
    law_group_edits(c, a.g.vregs, s.moves, s.params, key);
    let group = moves_at(s.moves, key);
    assert(group.len() == 0) by {
        if group.len() > 0 {
            assert(group.contains(group[0]));
            s.moves.lemma_filter_contains_rev(has_key(key), group[0]);
            let j = choose|j: int| 0 <= j < s.moves.len() && s.moves[j] == group[0];
            assert(s.moves[j].key() == key) by {
                s.moves.lemma_filter_pred(has_key(key), 0);
            }
            lemma_place_key(
                s.moves[j],
                InsertedMove {
                    pos: ProgPoint::before(inst),
                    prio: InsertMovePrio::ReusedInput,
                    from_alloc: Allocation::Nowhere,
                    to_alloc: Allocation::Nowhere,
                },
            );
            assert(copies_at(s.moves[j], inst));
        }
    }
}

/// An output that reuses an input comes out where the input does.
pub proof fn law_reuse_in_place(c: Ctx, b: Block, i: int, p: int, k: int)
    requires
        ctx_ok(c),
        allocated(c) is Ok,
        locations_sound(c),
        ssa_form(c.f),
        in_reach(c, b, i),
        reuse_clean(c.f, Inst(i as u32)),
        0 <= p < c.f.operands[i].len(),
        0 <= k < c.f.operands[i].len(),
        k <= usize::MAX,
        c.f.operands[i][p].policy == OperandPolicy::Reuse(k as usize),
    ensures
        allocated(c)->Ok_0.allocs[operand_place(c.f, Inst(i as u32), p)]
            == allocated(c)->Ok_0.allocs[operand_place(c.f, Inst(i as u32), k)],
{
    let (u, a, t) = located(c)->Ok_0;
    let x = found(c);
    let inst = Inst(i as u32);
    assert(inst_ok(c.f, i));
    assert(operand_ok(c.f, i, c.f.operands[i][p]));
    let (v, y) = lemma_held(c, b, i, p);
    lemma_def_site(c, v, y, i, p);
    assert(defines_reuse(x, x.g.in_vreg[v][y], inst));
    assert(apply_ok(c.f, apply_start(c.f)));
    law_reused_inputs(x, apply_start(c.f), u.fixups, v, y, inst);
    let ops = c.f.operands[i];
    assert(ops[p].policy == OperandPolicy::Reuse(k as usize));
}

} // verus!
