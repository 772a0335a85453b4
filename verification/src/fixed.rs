//! What the copies for further fixed-register demands do with values.
use crate::apply::{operand_place, range_alloc};
use crate::carried::{
    found, found_edits, found_moves, lemma_orders, lemma_points_fit, lemma_scratch_unused,
    scratch_free,
};
use crate::carry::lemma_range_located;
use crate::copied::{
    holds_operand, in_reach, lemma_held, lemma_one_use, lemma_use_site, location_of, range_of,
};
use crate::copies::{fixup_move, lemma_fixup_moves};
use crate::data::{InsertMovePrio, InsertedMove};
use crate::dom::ssa_form;
use crate::func::inst_regs_ok;
use crate::graph::mention_ok;
use crate::groups::{
    edits_at, law_group_in_parallel, lemma_pairs_at, lemma_place_key, moves_at, pairs_of, run_edits,
    scratch_of,
};
use crate::held::{defines, held};
use crate::index::{Block, Inst};
use crate::lists::lemma_below;
use crate::liveness::{
    ctx_ok, fixup_ok, inst_range, may_hold, mentions_ok, operand_reg_ok, Ctx, Fixup,
};
use crate::locate::{law_demands_met, law_reserved_respected, lemma_bundle_located};
use crate::meets::{law_defs_covered, law_uses_covered};
use crate::moves::dests_ok;
use crate::operands::use_at;
use crate::order::in_order;
use crate::parts::{in_some, mentions};
use crate::place::is_kept_free;
use crate::reg::{Allocation, OperandPolicy, PReg, ProgPoint, VReg};
use crate::reserved::{block_reserved, clobbers_reserved, is_reserved, lemma_all_reserved};
use crate::resolve::place_key;
use crate::run::{
    allocated, applied, apply_start, frees_from, located, locations_sound, scan_tables,
};
use crate::served::{
    anchor_def, anchor_use, anchored, copy_for, demands, has_copy, has_reader, op_of, served,
};
use crate::sort::HasKey;
use crate::uses::{defined_first, use_named, used_late};
use vstd::prelude::*;

verus! {

/// The copies to given registers that were noted.
pub open spec fn found_fixups(c: Ctx) -> Seq<Fixup> {
    located(c)->Ok_0.0.fixups
}

/// The copies are for instructions and registers that exist.
pub proof fn lemma_fixup_exists(c: Ctx, n: int)
    requires
        locations_sound(c),
        0 <= n < found_fixups(c).len(),
    ensures
        fixup_ok(c, found_fixups(c)[n]),
{
    reveal(scan_tables);
}

/// The place of the copies to given registers at a point.
pub open spec fn fixup_key(pos: ProgPoint) -> int {
    place_key(pos.ix(), InsertMovePrio::MultiFixedReg)
}

/// What the locations hold after the copies to given registers at a point.
pub open spec fn after_fixups(c: Ctx, pos: ProgPoint, held: spec_fn(Allocation) -> int) -> spec_fn(
    Allocation,
) -> int {
    run_edits(edits_at(found_edits(c), fixup_key(pos)), held)
}

/// Copies at the point that go to one register come from one.
pub open spec fn targets_agree(fixups: Seq<Fixup>, pos: ProgPoint) -> bool {
    forall|m: int, n: int|
        #![trigger fixups[m], fixups[n]]
        0 <= m < fixups.len() && 0 <= n < fixups.len() && fixups[m].0 == pos && fixups[n].0 == pos
            && fixups[m].2 == fixups[n].2 ==> fixups[m].1 == fixups[n].1
}

/// The register where the copy comes from.
pub open spec fn copy_source(c: Ctx, x: Fixup) -> Allocation {
    Allocation::Reg(c.m.regs[x.1.ix()])
}

/// The register that the copy goes to.
pub open spec fn copy_target(c: Ctx, x: Fixup) -> Allocation {
    Allocation::Reg(c.m.regs[x.2.ix()])
}

/// A move at the place of copies to given registers is one of them.
proof fn lemma_fixup_at(c: Ctx, pos: ProgPoint, j: int) -> (n: int)
    requires
        ctx_ok(c),
        allocated(c) is Ok,
        locations_sound(c),
        0 <= j < found_moves(c).len(),
        found_moves(c)[j].key() == fixup_key(pos),
    ensures
        0 <= n < found_fixups(c).len(),
        found_fixups(c)[n].0 == pos,
        found_moves(c)[j] == fixup_move(c, found_fixups(c)[n]),
        fixup_ok(c, found_fixups(c)[n]),
{
    let moves = found_moves(c);
    let fixups = found_fixups(c);
    lemma_fixup_moves(found(c), apply_start(c.f), fixups);
    lemma_place_key(
        moves[j],
        InsertedMove {
            pos,
            prio: InsertMovePrio::MultiFixedReg,
            from_alloc: Allocation::Nowhere,
            to_alloc: Allocation::Nowhere,
        },
    );
    let n = choose|n: int| 0 <= n < fixups.len() && moves[j] == fixup_move(c, #[trigger] fixups[n]);
    lemma_fixup_exists(c, n);
    n
}

/// No scratch register is the target of a copy.
pub proof fn lemma_target_not_scratch(c: Ctx, x: Fixup, k: int)
    requires
        ctx_ok(c),
        scratch_free(c),
        fixup_ok(c, x),
        0 <= k < c.m.scratch_by_class.len(),
    ensures
        copy_target(c, x) != Allocation::Reg(c.m.scratch_by_class[k]),
{
    reveal(may_hold);
    let _ = (c.m.scratch_by_class[k], c.m.regs[x.2.ix()]);
}

/// Copies with one target name it alike.
proof fn lemma_one_target(c: Ctx, x: Fixup, y: Fixup)
    requires
        ctx_ok(c),
        fixup_ok(c, x),
        fixup_ok(c, y),
        copy_target(c, x) == copy_target(c, y),
    ensures
        x.2 == y.2,
{
    assert(c.m.regs[x.2.ix()].ix() == x.2.ix());
    assert(c.m.regs[y.2.ix()].ix() == y.2.ix());
}

/// A pair at the place of copies to given registers is one of them.
proof fn lemma_fixup_pair(c: Ctx, pos: ProgPoint, n: int) -> (m: int)
    requires
        ctx_ok(c),
        allocated(c) is Ok,
        locations_sound(c),
        0 <= n < pairs_of(moves_at(found_moves(c), fixup_key(pos))).len(),
    ensures
        0 <= m < found_fixups(c).len(),
        found_fixups(c)[m].0 == pos,
        fixup_ok(c, found_fixups(c)[m]),
        pairs_of(moves_at(found_moves(c), fixup_key(pos)))[n] == (
            copy_source(c, found_fixups(c)[m]),
            copy_target(c, found_fixups(c)[m]),
        ),
        copy_source(c, found_fixups(c)[m]) != copy_target(c, found_fixups(c)[m]),
{
    let moves = found_moves(c);
    let key = fixup_key(pos);
    let pairs = pairs_of(moves_at(moves, key));
    lemma_pairs_at(moves, key);
    let j = choose|j: int|
        #![trigger moves[j]]
        0 <= j < moves.len() && moves[j].key() == key && moves[j].from_alloc != moves[j].to_alloc
            && pairs[n] == (moves[j].from_alloc, moves[j].to_alloc);
    lemma_fixup_at(c, pos, j)
}

proof fn lemma_fixup_dests(c: Ctx, pos: ProgPoint)
    requires
        ctx_ok(c),
        allocated(c) is Ok,
        locations_sound(c),
        scratch_free(c),
        targets_agree(found_fixups(c), pos),
    ensures
        dests_ok(
            pairs_of(moves_at(found_moves(c), fixup_key(pos))),
            scratch_of(c, moves_at(found_moves(c), fixup_key(pos))),
        ),
{
    let fixups = found_fixups(c);
    let group = moves_at(found_moves(c), fixup_key(pos));
    let pairs = pairs_of(group);
    let scratch = scratch_of(c, group);
    assert forall|i: int, j: int|
        #![trigger pairs[i], pairs[j]]
        0 <= i < j < pairs.len() && pairs[i].1 == pairs[j].1 implies pairs[i].0 == pairs[j].0 by {
        let m = lemma_fixup_pair(c, pos, i);
        let n = lemma_fixup_pair(c, pos, j);
        lemma_one_target(c, fixups[m], fixups[n]);
    }
    assert forall|n: int| 0 <= n < pairs.len() implies (#[trigger] pairs[n]).1 != scratch by {
        let m = lemma_fixup_pair(c, pos, n);
        let class = group[0].from_alloc.class()->Some_0.ix();
        lemma_target_not_scratch(c, fixups[m], class);
    }
}

/// A copy to a given register brings the value there from the register that it comes from.
pub proof fn law_fixup_copied(c: Ctx, n: int, held: spec_fn(Allocation) -> int)
    requires
        ctx_ok(c),
        allocated(c) is Ok,
        locations_sound(c),
        scratch_free(c),
        0 <= n < found_fixups(c).len(),
        targets_agree(found_fixups(c), found_fixups(c)[n].0),
    ensures
        after_fixups(c, found_fixups(c)[n].0, held)(copy_target(c, found_fixups(c)[n])) == held(
            copy_source(c, found_fixups(c)[n]),
        ),
{
    let (u, a, t) = located(c)->Ok_0;
    let s = applied(c, u, a, t);
    let fixups = found_fixups(c);
    let x = fixups[n];
    let key = fixup_key(x.0);
    let moves = found_moves(c);
    let pairs = pairs_of(moves_at(moves, key));
    let m = fixup_move(c, x);
    lemma_fixup_moves(found(c), apply_start(c.f), fixups);
    lemma_points_fit(c);
    lemma_fixup_dests(c, x.0);
    lemma_pairs_at(moves, key);
    law_group_in_parallel(c, a.g.vregs, s.moves, s.params, key, held);
    assert(moves.contains(m));
    let j = choose|j: int| 0 <= j < moves.len() && moves[j] == m;
    assert(moves[j].key() == key);
    if m.from_alloc != m.to_alloc {
        assert(pairs.contains((m.from_alloc, m.to_alloc)));
        let k = choose|k: int| 0 <= k < pairs.len() && pairs[k] == (m.from_alloc, m.to_alloc);
        assert(pairs[k].1 == m.to_alloc);
    } else {
        lemma_fixup_exists(c, n);
        let class = moves_at(moves, key)[0].from_alloc.class()->Some_0.ix();
        lemma_target_not_scratch(c, x, class);
        assert forall|k: int| 0 <= k < pairs.len() implies (#[trigger] pairs[k]).1 != m.to_alloc by {
            let l = lemma_fixup_pair(c, x.0, k);
            if copy_target(c, fixups[l]) == copy_target(c, x) {
                lemma_one_target(c, fixups[l], x);
                let _ = (fixups[l], fixups[n]);
            }
        }
    }
}

/// A register is told by its number.
pub proof fn lemma_same_preg(c: Ctx, p: PReg, n: int)
    requires
        ctx_ok(c),
        0 <= n < c.m.regs.len(),
        p.ix() == n,
        p.encoded(),
    ensures
        c.m.regs[n] == p,
{
    assert(c.m.regs[n].ix() == n && c.m.regs[n].encoded());
}

/// A live range of a register that holds a mention with a demand for a given register is in that
/// register.
proof fn lemma_in_demanded(c: Ctx, v: int, y: int, p: PReg)
    requires
        ctx_ok(c),
        allocated(c) is Ok,
        locations_sound(c),
        0 <= v < found(c).g.in_vreg.len(),
        0 <= y < found(c).g.in_vreg[v].len(),
        ({
            let g = found(c).g;
            let r = g.in_vreg[v][y];
            let lr = g.ranges[r as int];
            ||| lr.def.is_valid() && g.defs[lr.def.ix()].operand.policy == OperandPolicy::FixedReg(p)
            ||| exists|j: int|
                0 <= j < g.in_range[r as int].len() && g.uses[(
                #[trigger] g.in_range[r as int][j]) as int].operand.policy
                    == OperandPolicy::FixedReg(p)
        }),
    ensures
        range_alloc(found(c), found(c).g.in_vreg[v][y]) == Some(Allocation::Reg(p)),
{
    let (u, a, t) = located(c)->Ok_0;
    let r = a.g.in_vreg[v][y];
    assert(in_some(a.g.in_bundle, a.g.in_vreg[v][y]));
    let (b, n) = choose|b: int, n: int|
        0 <= b < a.g.in_bundle.len() && 0 <= n < a.g.in_bundle[b].len()
            && #[trigger] a.g.in_bundle[b][n] == r;
    law_demands_met(c, u, a, t, b as u32, n);
}

/// A use is held by a live range of its register that covers it.
proof fn lemma_use_range(c: Ctx, m: int) -> (y: int)
    requires
        ctx_ok(c),
        allocated(c) is Ok,
        locations_sound(c),
        ssa_form(c.f),
        0 <= m < found(c).g.uses.len(),
    ensures
        ({
            let g = found(c).g;
            let v = g.uses[m].operand.vreg.vreg as int;
            &&& v < g.in_vreg.len()
            &&& 0 <= y < g.in_vreg[v].len()
            &&& g.in_range[g.in_vreg[v][y] as int].contains(m as u32)
            &&& range_of(c, v, y).has(g.uses[m].pos)
        }),
{
    let (u, a, t) = located(c)->Ok_0;
    let g = found(c).g;
    assert(defined_first(c.f)) by {
        reveal(ssa_form);
    }
    let v = u.g.uses[m].operand.vreg.vreg as int;
    assert(mentions(u.g, v, m as u32));
    assert(mentions(a.g, v, m as u32));
    let y = choose|y: int|
        0 <= y < a.g.in_vreg[v].len() && a.g.in_range[(
        #[trigger] a.g.in_vreg[v][y]) as int].contains(m as u32);
    law_uses_covered(c);
    let r = g.in_vreg[v][y];
    lemma_below(g.in_vreg, g.ranges.len() as int, v, y);
    let j = choose|j: int| 0 <= j < g.in_range[r as int].len() && g.in_range[r as int][j] == m as u32;
    assert(g.ranges[r as int].range.has(g.uses[g.in_range[r as int][j] as int].pos));
    y
}

/// The register that a copy comes from is where the register is that is copied.
proof fn lemma_anchor(c: Ctx, x: Fixup, vreg: VReg) -> (y: int)
    requires
        ctx_ok(c),
        allocated(c) is Ok,
        locations_sound(c),
        ssa_form(c.f),
        fixup_ok(c, x),
        anchored(
            found(c).g.uses,
            found(c).g.defs,
            Set::new(|m: int| 0 <= m < found(c).g.uses.len()),
            x,
            vreg,
        ),
    ensures
        vreg.vreg < found(c).g.in_vreg.len(),
        0 <= y < found(c).g.in_vreg[vreg.vreg as int].len(),
        range_of(c, vreg.vreg as int, y).has(x.0),
        range_alloc(found(c), found(c).g.in_vreg[vreg.vreg as int][y]) == Some(copy_source(c, x)),
{
    let (u, a, t) = located(c)->Ok_0;
    let g = found(c).g;
    let v = vreg.vreg as int;
    let all = Set::new(|m: int| 0 <= m < g.uses.len());
    assert(mentions_ok(c, g));
    if exists|m: int| all.contains(m) && #[trigger] anchor_use(g.uses, m, x, vreg) {
        let m = choose|m: int| all.contains(m) && #[trigger] anchor_use(g.uses, m, x, vreg);
        let y = lemma_use_range(c, m);
        let r = g.in_vreg[v][y];
        let p = g.uses[m].operand.policy->FixedReg_0;
        assert(operand_reg_ok(c, g.uses[m].operand));
        let j = choose|j: int|
            0 <= j < g.in_range[r as int].len() && g.in_range[r as int][j] == m as u32;
        assert(g.uses[g.in_range[r as int][j] as int].operand.policy == OperandPolicy::FixedReg(p));
        lemma_in_demanded(c, v, y, p);
        lemma_same_preg(c, p, x.1.ix());
        y
    } else {
        let d = choose|d: int| #[trigger] anchor_def(g.defs, d, x, vreg);
        let p = g.defs[d].operand.policy->FixedReg_0;
        assert(operand_reg_ok(c, g.defs[d].operand));
        assert(defines(u.g, v, d as u32) && v < u.g.in_vreg.len()) by {
            reveal(held);
            assert(u.g.defs[d] == g.defs[d]);
        }
        assert(defines(a.g, v, d as u32));
        let y = choose|y: int|
            0 <= y < a.g.in_vreg[v].len() && a.g.ranges[(
            #[trigger] a.g.in_vreg[v][y]) as int].def.0 == d as u32;
        let r = g.in_vreg[v][y];
        lemma_below(g.in_vreg, g.ranges.len() as int, v, y);
        law_defs_covered(c);
        assert(g.ranges[r as int].def.is_valid());
        assert(g.ranges[r as int].range.has(g.defs[g.ranges[r as int].def.ix()].pos));
        lemma_in_demanded(c, v, y, p);
        lemma_same_preg(c, p, x.1.ix());
        y
    }
}

/// A use whose demand is met by a copy is in the register that the copy comes from.
proof fn lemma_copied_use(c: Ctx, m: int, n: int) -> (y: int)
    requires
        ctx_ok(c),
        allocated(c) is Ok,
        locations_sound(c),
        ssa_form(c.f),
        0 <= n < found_fixups(c).len(),
        copy_for(
            c.f,
            found(c).g.uses,
            found(c).g.defs,
            Set::new(|k: int| 0 <= k < found(c).g.uses.len()),
            m,
            found_fixups(c)[n],
        ),
    ensures
        ({
            let g = found(c).g;
            let v = g.uses[m].operand.vreg.vreg as int;
            &&& v < g.in_vreg.len()
            &&& 0 <= y < g.in_vreg[v].len()
            &&& g.in_range[g.in_vreg[v][y] as int].contains(m as u32)
            &&& range_of(c, v, y).has(found_fixups(c)[n].0)
            &&& range_alloc(found(c), g.in_vreg[v][y]) == Some(
                copy_source(c, found_fixups(c)[n]),
            )
        }),
{
    let g = found(c).g;
    let x = found_fixups(c)[n];
    let vreg = g.uses[m].operand.vreg;
    let v = vreg.vreg as int;
    lemma_fixup_exists(c, n);
    let y = lemma_use_range(c, m);
    let z = lemma_anchor(c, x, vreg);
    lemma_orders(c);
    assert(in_order(g.ranges, g.in_vreg[v]));
    let _ = (g.in_vreg[v][y], g.in_vreg[v][z]);
    y
}

/// Is operand `k` of instruction `i` one that demands physical register number `p`?
pub open spec fn demanded_by(c: Ctx, i: int, k: int, p: int) -> bool {
    &&& 0 <= k < c.f.operands[i].len()
    &&& c.f.operands[i][k].policy matches OperandPolicy::FixedReg(r) && r.ix() == p
}

/// The live range `y` of register `v` that covers the point of the copy is in the register where the
/// copy comes from, and holds operand `k`, which demands the one it goes to.
pub open spec fn copy_serves(c: Ctx, x: Fixup, v: int, y: int, k: int) -> bool {
    &&& holds_operand(c, v, y, x.0.inst.ix(), k)
    &&& range_of(c, v, y).has(x.0)
    &&& range_alloc(found(c), found(c).g.in_vreg[v][y]) == Some(copy_source(c, x))
    &&& demanded_by(c, x.0.inst.ix(), k, x.2.ix())
}

/// A live range that has a use in its list holds the operand of the use.
proof fn lemma_holds_use(c: Ctx, m: int, v: int, y: int)
    requires
        ctx_ok(c),
        allocated(c) is Ok,
        locations_sound(c),
        0 <= m < found(c).g.uses.len(),
        0 <= v < found(c).g.in_vreg.len(),
        0 <= y < found(c).g.in_vreg[v].len(),
        found(c).g.in_range[found(c).g.in_vreg[v][y] as int].contains(m as u32),
    ensures
        holds_operand(
            c,
            v,
            y,
            found(c).g.uses[m].pos.inst.ix(),
            found(c).g.uses[m].slot as int,
        ),
{
    let x = found(c);
    let list = x.g.in_range[x.g.in_vreg[v][y] as int];
    let j = choose|j: int| 0 <= j < list.len() && list[j] == m as u32;
    let use_m = x.g.uses[m];
    let i = use_m.pos.inst.ix();
    assert(mention_ok(c.f, use_m.pos, use_m.slot));
    assert(use_at(x, list, 0, operand_place(c.f, Inst(i as u32), use_m.slot as int))) by {
        assert(x.g.uses[list[j] as int] == use_m);
        assert(use_m.pos.inst == Inst(i as u32));
    }
}

/// Every copy to a given register is for an operand that demands it, and comes from the register
/// that the live range of the operand is in.
pub proof fn law_fixup_source(c: Ctx, n: int)
    requires
        ctx_ok(c),
        allocated(c) is Ok,
        locations_sound(c),
        ssa_form(c.f),
        0 <= n < found_fixups(c).len(),
    ensures
        exists|v: int, y: int, k: int| #[trigger] copy_serves(c, found_fixups(c)[n], v, y, k),
{
    let (u, a, t) = located(c)->Ok_0;
    let g = found(c).g;
    let x = found_fixups(c)[n];
    let all = Set::new(|m: int| 0 <= m < u.g.uses.len());
    reveal(served);
    assert(has_reader(c.f, u.g.uses, u.g.defs, all, x));
    let m = choose|m: int|
        all.contains(m) && #[trigger] copy_for(c.f, u.g.uses, u.g.defs, all, m, x);
    let y = lemma_copied_use(c, m, n);
    let v = g.uses[m].operand.vreg.vreg as int;
    lemma_holds_use(c, m, v, y);
    assert(mention_ok(c.f, g.uses[m].pos, g.uses[m].slot));
    assert(copy_serves(c, x, v, y, g.uses[m].slot as int));
}

/// An operand that uses a register, in a block that can be reached, and demands a given physical
/// register has it: its live range is in that register, or a copy is noted that goes to it from the
/// register that the live range is in.
pub proof fn law_fixed_demand_served(c: Ctx, b: Block, i: int, k: int, p: PReg)
    requires
        ctx_ok(c),
        allocated(c) is Ok,
        locations_sound(c),
        ssa_form(c.f),
        in_reach(c, b, i),
        0 <= k < c.f.operands[i].len(),
        c.f.operands[i][k].kind is Use,
        c.f.operands[i][k].policy == OperandPolicy::FixedReg(p),
    ensures
        exists|v: int, y: int| #[trigger] holds_operand(c, v, y, i, k),
        forall|v: int, y: int| #[trigger]
            holds_operand(c, v, y, i, k) ==> range_alloc(found(c), found(c).g.in_vreg[v][y]) == Some(
                Allocation::Reg(p),
            ) || exists|n: int|
                0 <= n < found_fixups(c).len() && copy_serves(
                    c,
                    #[trigger] found_fixups(c)[n],
                    v,
                    y,
                    k,
                ) && found_fixups(c)[n].0.inst.ix() == i && found_fixups(c)[n].2.ix() == p.ix(),
{
    let (v0, y0) = lemma_held(c, b, i, k);
    assert(holds_operand(c, v0, y0, i, k));
    assert forall|v: int, y: int| #[trigger]
        holds_operand(c, v, y, i, k) && range_alloc(found(c), found(c).g.in_vreg[v][y]) != Some(
            Allocation::Reg(p),
        ) implies exists|n: int|
        0 <= n < found_fixups(c).len() && copy_serves(c, #[trigger] found_fixups(c)[n], v, y, k)
            && found_fixups(c)[n].0.inst.ix() == i && found_fixups(c)[n].2.ix() == p.ix() by {
        let n = lemma_demand_copied(c, v, y, i, k, p);
    }
}

/// A given register that an operand demands and its live range is not in gets a copy where the operand
/// reads it.
pub proof fn lemma_demand_copied(c: Ctx, v: int, y: int, i: int, k: int, p: PReg) -> (n: int)
    requires
        ctx_ok(c),
        allocated(c) is Ok,
        locations_sound(c),
        ssa_form(c.f),
        0 <= i < c.f.insts,
        0 <= k < c.f.operands[i].len(),
        c.f.operands[i][k].kind is Use,
        c.f.operands[i][k].policy == OperandPolicy::FixedReg(p),
        holds_operand(c, v, y, i, k),
        range_alloc(found(c), found(c).g.in_vreg[v][y]) != Some(Allocation::Reg(p)),
    ensures
        0 <= n < found_fixups(c).len(),
        copy_serves(c, found_fixups(c)[n], v, y, k),
        found_fixups(c)[n].0.inst.ix() == i,
        found_fixups(c)[n].0.pos is After <==> used_late(c.f, i, k),
        found_fixups(c)[n].2.ix() == p.ix(),
{
    let (u, a, t) = located(c)->Ok_0;
    let g = found(c).g;
    let fixups = found_fixups(c);
    let j = lemma_use_site(c, v, y, i, k);
    let r = g.in_vreg[v][y];
    let m = g.in_range[r as int][j] as int;
    let all = Set::new(|l: int| 0 <= l < u.g.uses.len());
    assert(op_of(c.f, g.uses[m]) == c.f.operands[i][k]);
    assert(g.uses[m].operand != op_of(c.f, g.uses[m])) by {
        if g.uses[m].operand == op_of(c.f, g.uses[m]) {
            lemma_in_demanded(c, v, y, p);
        }
    }
    reveal(served);
    assert(has_copy(c.f, u.g.uses, u.g.defs, fixups, all, m));
    let n = choose|n: int|
        0 <= n < fixups.len() && copy_for(c.f, u.g.uses, u.g.defs, all, m, #[trigger] fixups[n]);
    let z = lemma_copied_use(c, m, n);
    let w = g.uses[m].operand.vreg.vreg as int;
    lemma_holds_use(c, m, w, z);
    lemma_one_use(c, v, y, w, z, i, k);
    assert(use_named(c.f, u.g.uses[m]));
    n
}

/// A live range that reaches into an instruction is not in a register that is kept free over it.
proof fn lemma_not_in_reserved(c: Ctx, p: int, inst: Inst, v: int, y: int)
    requires
        ctx_ok(c),
        allocated(c) is Ok,
        locations_sound(c),
        0 <= p < located(c)->Ok_0.0.pregs.len(),
        inst.0 < c.f.insts,
        is_reserved(located(c)->Ok_0.0.pregs, p, inst),
        0 <= v < found(c).g.in_vreg.len(),
        0 <= y < found(c).g.in_vreg[v].len(),
        range_of(c, v, y).meets(inst_range(inst)),
    ensures
        range_alloc(found(c), found(c).g.in_vreg[v][y]) matches Some(Allocation::Reg(q)) ==> q.ix()
            != p,
{
    let (u, a, t) = located(c)->Ok_0;
    let r = a.g.in_vreg[v][y];
    if let Some(Allocation::Reg(q)) = range_alloc(found(c), r) {
        if q.ix() == p {
            reveal(frees_from);
            let k = choose|k: int|
                0 <= k < u.pregs[p].len() && (#[trigger] u.pregs[p][k]).0.from == 2 * inst.0
                    && u.pregs[p][k].0.to == 2 * inst.0 + 2;
            let e = u.pregs[p][k];
            assert(is_kept_free(a, p, e));
            let m = choose|m: int| 0 <= m < a.pregs[p].len() && a.pregs[p][m] == e;
            assert(in_some(a.g.in_bundle, a.g.in_vreg[v][y]));
            let (b, n) = choose|b: int, n: int|
                0 <= b < a.g.in_bundle.len() && 0 <= n < a.g.in_bundle[b].len()
                    && #[trigger] a.g.in_bundle[b][n] == r;
            lemma_below(a.g.in_bundle, a.g.ranges.len() as int, b, n);
            assert(a.g.ranges[a.g.in_bundle[b][n] as int].bundle.0 == b);
            lemma_slot_not_reg(c, b);
            law_reserved_respected(c, a, b as u32, n, q, m);
        }
    }
}

/// A bundle without a register is in the stack frame.
proof fn lemma_slot_not_reg(c: Ctx, b: int)
    requires
        ctx_ok(c),
        allocated(c) is Ok,
        locations_sound(c),
        0 <= b < found(c).g.in_bundle.len(),
        found(c).g.in_bundle[b].len() > 0,
    ensures
        range_alloc(found(c), found(c).g.in_bundle[b][0]) matches Some(Allocation::Reg(q))
            ==> found(c).g.bundles[b].allocation == Allocation::Reg(q),
{
    let (u, a, t) = located(c)->Ok_0;
    lemma_below(a.g.in_bundle, a.g.ranges.len() as int, b, 0);
    assert(a.g.ranges[a.g.in_bundle[b][0] as int].bundle.0 == b);
    lemma_bundle_located(c, a, t, b as u32);
}

/// A register that an instruction overwrites, in a block that can be reached, holds no register that
/// is live in it.
pub proof fn law_clobbers_respected(c: Ctx, b: Block, i: int, j: int, v: int, y: int)
    requires
        ctx_ok(c),
        allocated(c) is Ok,
        locations_sound(c),
        in_reach(c, b, i),
        0 <= j < c.f.clobbers[i].len(),
        0 <= v < found(c).g.in_vreg.len(),
        0 <= y < found(c).g.in_vreg[v].len(),
        range_of(c, v, y).meets(inst_range(Inst(i as u32))),
    ensures
        range_alloc(found(c), found(c).g.in_vreg[v][y]) matches Some(Allocation::Reg(q)) ==> q.ix()
            != c.f.clobbers[i][j].ix(),
{
    let (u, a, t) = located(c)->Ok_0;
    let inst = Inst(i as u32);
    reveal(scan_tables);
    lemma_all_reserved(c);
    assert(c.cfg.postorder.contains(b));
    let n = choose|n: int| 0 <= n < c.cfg.postorder.len() && c.cfg.postorder[n] == b;
    assert(block_reserved(c.f, u.pregs, c.cfg.postorder[n], 0));
    assert(clobbers_reserved(c.f, u.pregs, inst, 0));
    assert(inst_regs_ok(c.f, c.m, i));
    let p = c.f.clobbers[inst.ix()][j].ix();
    lemma_not_in_reserved(c, p, inst, v, y);
}

/// The register that a copy goes to is kept available: no register that is live in the instruction
/// of the copy is in it.
pub proof fn law_target_available(c: Ctx, n: int, v: int, y: int)
    requires
        ctx_ok(c),
        allocated(c) is Ok,
        locations_sound(c),
        0 <= n < found_fixups(c).len(),
        0 <= v < found(c).g.in_vreg.len(),
        0 <= y < found(c).g.in_vreg[v].len(),
        range_of(c, v, y).meets(inst_range(found_fixups(c)[n].0.inst)),
    ensures
        range_alloc(found(c), found(c).g.in_vreg[v][y]) != Some(
            copy_target(c, found_fixups(c)[n]),
        ),
{
    let x = found_fixups(c)[n];
    reveal(scan_tables);
    lemma_all_reserved(c);
    lemma_fixup_exists(c, n);
    assert(is_reserved(located(c)->Ok_0.0.pregs, x.2.ix(), x.0.inst));
    lemma_not_in_reserved(c, x.2.ix(), x.0.inst, v, y);
    assert(c.m.regs[x.2.ix()].ix() == x.2.ix());
}

/// A register that is live in an instruction stays where it is: the copies to given registers at a
/// point of the instruction leave its location as it is.
pub proof fn law_live_through_fixups(
    c: Ctx,
    pos: ProgPoint,
    v: int,
    y: int,
    held: spec_fn(Allocation) -> int,
)
    requires
        ctx_ok(c),
        allocated(c) is Ok,
        locations_sound(c),
        scratch_free(c),
        targets_agree(found_fixups(c), pos),
        0 <= v < found(c).g.in_vreg.len(),
        0 <= y < found(c).g.in_vreg[v].len(),
        range_of(c, v, y).meets(inst_range(pos.inst)),
    ensures
        range_alloc(found(c), found(c).g.in_vreg[v][y]) is Some,
        after_fixups(c, pos, held)(location_of(c, v, y)) == held(location_of(c, v, y)),
{
    let (u, a, t) = located(c)->Ok_0;
    let s = applied(c, u, a, t);
    let key = fixup_key(pos);
    let group = moves_at(found_moves(c), key);
    let pairs = pairs_of(group);
    let loc = location_of(c, v, y);
    lemma_range_located(found(c), apply_start(c.f), u.fixups, v as u32, y);
    lemma_points_fit(c);
    lemma_fixup_dests(c, pos);
    law_group_in_parallel(c, a.g.vregs, s.moves, s.params, key, held);
    let class = group[0].from_alloc.class()->Some_0.ix();
    lemma_scratch_unused(c, v, y, class);
    assert forall|k: int| 0 <= k < pairs.len() implies (#[trigger] pairs[k]).1 != loc by {
        let n = lemma_fixup_pair(c, pos, k);
        law_target_available(c, n, v, y);
    }
}

} // verus!
