//! Operands that use a register come out where they demand to be.
use crate::apply::{lemma_place, operand_place, range_alloc};
use crate::cfg::reachable;
use crate::dom::ssa_form;
use crate::func::{block_ok, lemma_operands_before, operands_before, FuncModel};
use crate::graph::{mention_ok, range_ok};
use crate::held::{defines, defs_placed, held, marks};
use crate::index::{Block, Inst};
use crate::lists::lemma_below;
use crate::liveness::{ctx_ok, Ctx};
use crate::locate::{apply_input, law_demands_met, location_meets};
use crate::operands::{is_mentioned, law_operand_located, located_among, not_reused, use_at};
use crate::parts::{in_some, mentions};
use crate::reached::{has_def, has_use, reached};
use crate::reg::{Allocation, Operand, OperandKind, OperandPolicy};
use crate::requirement::Requirement;
use crate::run::{allocated, apply_start, located, locations_sound};
use crate::uses::{defined_first, lone_demand, use_named, uses_placed};
use vstd::prelude::*;

verus! {

/// Different operands have different places.
pub proof fn lemma_places_apart(f: FuncModel, i: int, k: int, j: int, l: int)
    requires
        f.operands.len() == f.insts,
        0 <= i < f.insts,
        0 <= j < f.insts,
        0 <= k < f.operands[i].len(),
        0 <= l < f.operands[j].len(),
        operands_before(f.operands, i) + k == operands_before(f.operands, j) + l,
    ensures
        i == j,
        k == l,
{
    if i < j {
        lemma_operands_before(f.operands, i, j);
    }
    if j < i {
        lemma_operands_before(f.operands, j, i);
    }
}

/// Does a location meet what operand `k` of instruction `i` demands? Where several operands of an
/// instruction demand given registers for one register, one of any kind will do.
pub open spec fn operand_met(c: Ctx, i: int, k: int, loc: Allocation) -> bool {
    let op = c.f.operands[i][k];
    ||| location_meets(c.m, Requirement::from_operand(op), loc)
    ||| op.policy is FixedReg && !lone_demand(c.f, i, k) && location_meets(
        c.m,
        Requirement::from_operand(Operand { policy: OperandPolicy::Reg, ..op }),
        loc,
    )
}

/// The live ranges that mention an operand are where it demands to be.
proof fn lemma_mentions_met(c: Ctx, i: int, k: int)
    requires
        ctx_ok(c),
        allocated(c) is Ok,
        locations_sound(c),
        0 <= i < c.f.insts,
        0 <= k < c.f.operands[i].len(),
    ensures
        ({
            let (u, a, t) = located(c)->Ok_0;
            located_among(
                apply_input(c, u, a, t),
                operand_place(c.f, Inst(i as u32), k),
                Set::new(|l: Allocation| operand_met(c, i, k, l)),
            )
        }),
{
    let (u, a, t) = located(c)->Ok_0;
    let x = apply_input(c, u, a, t);
    let place = operand_place(c.f, Inst(i as u32), k);
    let locs = Set::new(|l: Allocation| operand_met(c, i, k, l));
    assert forall|v: int, y: int|
        0 <= v < a.g.in_vreg.len() && 0 <= y < a.g.in_vreg[v].len() && is_mentioned(
            x,
            #[trigger] a.g.in_vreg[v][y],
            place,
        ) implies (range_alloc(x, a.g.in_vreg[v][y]) matches Some(loc) ==> locs.contains(loc)) by {
        let r = a.g.in_vreg[v][y];
        lemma_below(a.g.in_vreg, a.g.ranges.len() as int, v, y);
        assert(range_ok(c.f, a.g, r as int));
        assert(in_some(a.g.in_bundle, a.g.in_vreg[v][y]));
        let (b, n) = choose|b: int, n: int|
            0 <= b < a.g.in_bundle.len() && 0 <= n < a.g.in_bundle[b].len()
                && #[trigger] a.g.in_bundle[b][n] == r;
        law_demands_met(c, u, a, t, b as u32, n);
        let d = a.g.ranges[r as int].def;
        let list = a.g.in_range[r as int];
        if d.is_valid() && operand_place(c.f, a.g.defs[d.ix()].pos.inst, a.g.defs[d.ix()].slot as int)
            == place {
            let def = a.g.defs[d.ix()];
            assert(mention_ok(c.f, def.pos, def.slot));
            lemma_places_apart(c.f, def.pos.inst.ix(), def.slot as int, i, k);
            assert(u.g.defs[d.ix()] == def);
        } else {
            let m = choose|m: int|
                0 <= m < list.len() && ({
                    let use_m = x.g.uses[(#[trigger] list[m]) as int];
                    operand_place(x.c.f, use_m.pos.inst, use_m.slot as int) == place
                });
            lemma_below(a.g.in_range, a.g.uses.len() as int, r as int, m);
            let e = list[m] as int;
            assert(mention_ok(c.f, a.g.uses[e].pos, a.g.uses[e].slot));
            lemma_places_apart(c.f, a.g.uses[e].pos.inst.ix(), a.g.uses[e].slot as int, i, k);
            assert(use_named(c.f, u.g.uses[e]));
        }
    }
}

/// No operand that no output reuses comes out in a location that does not meet what it demands.
pub proof fn law_never_misplaced(c: Ctx, i: int, k: int)
    requires
        ctx_ok(c),
        allocated(c) is Ok,
        locations_sound(c),
        0 <= i < c.f.insts,
        0 <= k < c.f.operands[i].len(),
        not_reused(c.f, operand_place(c.f, Inst(i as u32), k)),
    ensures
        ({
            let loc = allocated(c)->Ok_0.allocs[operand_place(c.f, Inst(i as u32), k)];
            loc is Nowhere || operand_met(c, i, k, loc)
        }),
{
    let (u, a, t) = located(c)->Ok_0;
    let x = apply_input(c, u, a, t);
    let place = operand_place(c.f, Inst(i as u32), k);
    let met = Set::new(|l: Allocation| operand_met(c, i, k, l));
    let locs = Set::new(|l: Allocation| l is Nowhere || operand_met(c, i, k, l));
    lemma_place(c.f, Inst(i as u32), k);
    lemma_mentions_met(c, i, k);
    assert(located_among(x, place, locs)) by {
        assert forall|v: int, y: int|
            0 <= v < x.g.in_vreg.len() && 0 <= y < x.g.in_vreg[v].len() && is_mentioned(
                x,
                #[trigger] x.g.in_vreg[v][y],
                place,
            ) implies (range_alloc(x, x.g.in_vreg[v][y]) matches Some(loc) ==> locs.contains(loc)) by {
            if let Some(loc) = range_alloc(x, x.g.in_vreg[v][y]) {
                assert(met.contains(loc));
            }
        }
    }
    law_operand_located(x, apply_start(c.f), u.fixups, 0, 0, place, locs);
}

/// An operand that a live range of a register mentions, and that no output reuses, comes out in a
/// location that meets what it demands.
pub proof fn law_mentioned_met(c: Ctx, v: int, y: int, i: int, k: int)
    requires
        ctx_ok(c),
        allocated(c) is Ok,
        locations_sound(c),
        ({
            let (u, a, t) = located(c)->Ok_0;
            &&& 0 <= v < a.g.in_vreg.len()
            &&& 0 <= y < a.g.in_vreg[v].len()
            &&& is_mentioned(
                apply_input(c, u, a, t),
                a.g.in_vreg[v][y],
                operand_place(c.f, Inst(i as u32), k),
            )
        }),
        0 <= i < c.f.insts,
        0 <= k < c.f.operands[i].len(),
        not_reused(c.f, operand_place(c.f, Inst(i as u32), k)),
    ensures
        operand_met(
            c,
            i,
            k,
            allocated(c)->Ok_0.allocs[operand_place(c.f, Inst(i as u32), k)],
        ),
{
    let (u, a, t) = located(c)->Ok_0;
    let x = apply_input(c, u, a, t);
    let place = operand_place(c.f, Inst(i as u32), k);
    let locs = Set::new(|l: Allocation| operand_met(c, i, k, l));
    lemma_place(c.f, Inst(i as u32), k);
    lemma_mentions_met(c, i, k);
    law_operand_located(x, apply_start(c.f), u.fixups, v, y, place, locs);
}

/// Where registers are defined first, every operand that uses a register, in a block that can be
/// reached, and that no output reuses, comes out in a location that meets what it demands.
pub proof fn law_uses_met(c: Ctx, b: Block, i: int, k: int)
    requires
        ctx_ok(c),
        allocated(c) is Ok,
        locations_sound(c),
        defined_first(c.f),
        b.0 < c.f.blocks,
        reachable(c.f, b),
        c.f.insns[b.ix()].has(i),
        0 <= i < c.f.insts,
        0 <= k < c.f.operands[i].len(),
        c.f.operands[i][k].kind is Use,
        not_reused(c.f, operand_place(c.f, Inst(i as u32), k)),
    ensures
        operand_met(
            c,
            i,
            k,
            allocated(c)->Ok_0.allocs[operand_place(c.f, Inst(i as u32), k)],
        ),
{
    let (u, a, t) = located(c)->Ok_0;
    let x = apply_input(c, u, a, t);
    let place = operand_place(c.f, Inst(i as u32), k);
    assert(reached(c, c.cfg.postorder.len() as int, 0x1_0000_0000, 0, i, k)) by {
        assert(c.cfg.postorder.contains(b));
        let j = choose|j: int| 0 <= j < c.cfg.postorder.len() && c.cfg.postorder[j] == b;
        assert(c.f.insns[c.cfg.postorder[j].ix()].has(i));
    }
    let uses = u.g.uses;
    assert(has_use(uses, i, k));
    let n = choose|n: int|
        0 <= n < uses.len() && (#[trigger] uses[n]).pos.inst.ix() == i && uses[n].slot == k;
    let v = uses[n].operand.vreg.vreg as int;
    assert(mentions(u.g, v, n as u32));
    assert(mentions(a.g, v, n as u32));
    let y = choose|y: int|
        0 <= y < a.g.in_vreg[v].len() && a.g.in_range[(
        #[trigger] a.g.in_vreg[v][y]) as int].contains(n as u32);
    let list = a.g.in_range[a.g.in_vreg[v][y] as int];
    let j = choose|j: int| 0 <= j < list.len() && list[j] == n as u32;
    assert(use_at(x, list, 0, place)) by {
        assert(x.g.uses[list[j] as int] == uses[n]);
        assert(uses[n].pos.inst == Inst(i as u32));
    }
    law_mentioned_met(c, v, y, i, k);
}

/// In a function in static single assignment form, every operand that defines a register, in a
/// block that can be reached, and that no output reuses, comes out in a location that meets what it
/// demands.
pub proof fn law_defs_met(c: Ctx, b: Block, i: int, k: int)
    requires
        ctx_ok(c),
        allocated(c) is Ok,
        locations_sound(c),
        ssa_form(c.f),
        b.0 < c.f.blocks,
        reachable(c.f, b),
        c.f.insns[b.ix()].has(i),
        0 <= i < c.f.insts,
        0 <= k < c.f.operands[i].len(),
        c.f.operands[i][k].kind is Def,
        not_reused(c.f, operand_place(c.f, Inst(i as u32), k)),
    ensures
        operand_met(
            c,
            i,
            k,
            allocated(c)->Ok_0.allocs[operand_place(c.f, Inst(i as u32), k)],
        ),
{
    let (u, a, t) = located(c)->Ok_0;
    let x = apply_input(c, u, a, t);
    let place = operand_place(c.f, Inst(i as u32), k);
    assert(reached(c, c.cfg.postorder.len() as int, 0x1_0000_0000, 0, i, k)) by {
        assert(c.cfg.postorder.contains(b));
        let j = choose|j: int| 0 <= j < c.cfg.postorder.len() && c.cfg.postorder[j] == b;
        assert(c.f.insns[c.cfg.postorder[j].ix()].has(i));
    }
    let defs = u.g.defs;
    assert(has_def(defs, i, k));
    let n = choose|n: int|
        0 <= n < defs.len() && (#[trigger] defs[n]).pos.inst.ix() == i && defs[n].slot == k;
    let v = defs[n].operand.vreg.vreg as int;
    assert(defines(u.g, v, n as u32) && v < u.g.in_vreg.len()) by {
        reveal(held);
    }
    assert(defines(a.g, v, n as u32));
    let y = choose|y: int|
        0 <= y < a.g.in_vreg[v].len() && a.g.ranges[(#[trigger] a.g.in_vreg[v][y]) as int].def.0
            == n as u32;
    assert(is_mentioned(x, a.g.in_vreg[v][y], place)) by {
        assert(a.g.defs[n] == defs[n]);
        assert(defs[n].pos.inst == Inst(i as u32));
    }
    law_mentioned_met(c, v, y, i, k);
}

/// No operand that no output reuses comes out in a location that does not meet what it demands, and
/// in a function in static single assignment form all of them in blocks that can be reached come out
/// in locations that do.
pub open spec fn operands_sound(c: Ctx) -> bool {
    let allocs = allocated(c)->Ok_0.allocs;
    &&& forall|i: int, k: int|
        0 <= i < c.f.insts && 0 <= k < c.f.operands[i].len() && not_reused(
            c.f,
            operand_place(c.f, Inst(i as u32), k),
        ) ==> allocs[operand_place(c.f, Inst(i as u32), k)] is Nowhere || #[trigger] operand_met(
            c,
            i,
            k,
            allocs[operand_place(c.f, Inst(i as u32), k)],
        )
    &&& ssa_form(c.f) ==> forall|b: Block, i: int, k: int|
        #![trigger c.f.insns[b.ix()].has(i), c.f.operands[i][k]]
        b.0 < c.f.blocks && reachable(c.f, b) && c.f.insns[b.ix()].has(i) && 0 <= k
            < c.f.operands[i].len() && not_reused(c.f, operand_place(c.f, Inst(i as u32), k))
            ==> operand_met(c, i, k, allocs[operand_place(c.f, Inst(i as u32), k)])
}

/// The operands come out where they demand to be.
pub proof fn lemma_operands_sound(c: Ctx)
    requires
        ctx_ok(c),
        allocated(c) is Ok,
        locations_sound(c),
    ensures
        operands_sound(c),
{
    let allocs = allocated(c)->Ok_0.allocs;
    assert forall|i: int, k: int|
        0 <= i < c.f.insts && 0 <= k < c.f.operands[i].len() && not_reused(
            c.f,
            operand_place(c.f, Inst(i as u32), k),
        ) implies allocs[operand_place(c.f, Inst(i as u32), k)] is Nowhere
        || #[trigger] operand_met(c, i, k, allocs[operand_place(c.f, Inst(i as u32), k)]) by {
        law_never_misplaced(c, i, k);
    }
    if ssa_form(c.f) {
        assert(defined_first(c.f)) by {
            reveal(ssa_form);
        }
        assert forall|b: Block, i: int, k: int|
            #![trigger c.f.insns[b.ix()].has(i), c.f.operands[i][k]]
            b.0 < c.f.blocks && reachable(c.f, b) && c.f.insns[b.ix()].has(i) && 0 <= k
                < c.f.operands[i].len() && not_reused(
                c.f,
                operand_place(c.f, Inst(i as u32), k),
            ) implies operand_met(
            c,
            i,
            k,
            allocs[operand_place(c.f, Inst(i as u32), k)],
        ) by {
            assert(block_ok(c.f, b.ix()));
            match c.f.operands[i][k].kind {
                OperandKind::Use => {
                    law_uses_met(c, b, i, k);
                },
                OperandKind::Def => {
                    law_defs_met(c, b, i, k);
                },
            }
        }
    }
}

/// Where registers are defined first, every use lies in its live range to the end.
pub proof fn law_uses_covered(c: Ctx)
    requires
        allocated(c) is Ok,
        locations_sound(c),
        defined_first(c.f),
    ensures
        uses_placed(located(c)->Ok_0.1.g),
{
}

/// In a function in static single assignment form every definition lies in its live range to the
/// end.
pub proof fn law_defs_covered(c: Ctx)
    requires
        allocated(c) is Ok,
        locations_sound(c),
        ssa_form(c.f),
    ensures
        defs_placed(located(c)->Ok_0.1.g),
{
    reveal(marks);
}

} // verus!
