//! Where the values of registers are needed, and that they are apart there.
use crate::apply::{begins_with_def, operand_place, range_alloc, start_of_block};
use crate::carried::{
    found, law_live_comes_in, law_used_comes_in, lemma_in_order_at, lemma_kept_apart, lemma_orders,
    lemma_place_of,
};
use crate::carry::lemma_range_follows;
use crate::cfg::{lemma_reachable_step, reachable};
use crate::copied::{
    first_allocs, holds_operand, in_reach, lemma_def_owner, lemma_def_site, lemma_first_alloc,
    lemma_held, lemma_output_stays, lemma_use_owner, lemma_use_site, location_of, range_of,
};
use crate::copies::input_upto;
use crate::dom::{ssa_form, use_in};
use crate::flow::{defs_before, live_at};
use crate::func::{
    block_ok, func_ok, inst_ok, lemma_operands_before, operand_ok, operands_before, FuncModel,
};
use crate::graph::{mention_ok, range_ok};
use crate::index::{Block, Inst};
use crate::lists::lemma_below;
use crate::liveness::{ctx_ok, def_pos, reused_input, use_pos, Ctx};
use crate::meets::law_uses_covered;
use crate::operands::reuse_clean;
use crate::order::in_order;
use crate::parts::{covers, mentions};
use crate::reg::{Allocation, Operand, ProgPoint};
use crate::run::{allocated, apply_start, located, locations_sound};
use crate::spans::{comes_in, edges_live, goes_on, joined, lived, lives_at, used_from};
use crate::uses::{defined_first, use_named};
use vstd::prelude::*;

verus! {

/// The place before instruction `i`.
pub open spec fn early(i: int) -> int {
    2 * i
}

/// The place after instruction `i`.
pub open spec fn late(i: int) -> int {
    2 * i + 1
}

/// The last place at which an input of instruction `i` is read: after the instruction, unless it is
/// an early one.
pub open spec fn read_place(op: Operand, i: int) -> int {
    if op.pos is Before {
        early(i)
    } else {
        late(i)
    }
}

/// The place at which an output of instruction `i` is written: before the instruction, unless it is
/// a late one.
pub open spec fn write_place(op: Operand, i: int) -> int {
    if op.pos is After {
        late(i)
    } else {
        early(i)
    }
}

/// Does an input of block `b` read register `v` at place `p` or later?
pub open spec fn read_from(f: FuncModel, b: Block, v: int, p: int) -> bool {
    exists|i: int, k: int|
        f.insns[b.ix()].has(i) && 0 <= k < f.operands[i].len() && (
        #[trigger] f.operands[i][k]).kind is Use && f.operands[i][k].vreg.vreg == v && read_place(
            f.operands[i][k],
            i,
        ) >= p
}

/// Does no output of block `b` write register `v` after place `p`?
pub open spec fn written_by(f: FuncModel, b: Block, v: int, p: int) -> bool {
    forall|i: int, k: int|
        f.insns[b.ix()].has(i) && 0 <= k < f.operands[i].len() && (
        #[trigger] f.operands[i][k]).kind is Def && f.operands[i][k].vreg.vreg == v ==> write_place(
            f.operands[i][k],
            i,
        ) <= p
}

/// Is the place one of block `b`?
pub open spec fn place_in(f: FuncModel, b: Block, p: int) -> bool {
    early(f.insns[b.ix()].from.0 as int) <= p <= late(f.insns[b.ix()].to.0 - 1)
}

/// Is register `v` read in block `b` from place `p` on, or in a block that `n` edges or fewer lead
/// to from there, with no block on the way that writes it or takes it as a parameter?
pub open spec fn needed(f: FuncModel, b: Block, v: int, p: int, n: nat) -> bool
    decreases n,
{
    ||| read_from(f, b, v, p)
    ||| n > 0 && exists|to: Block| #[trigger]
        joined(f, b, to) && to.0 < f.blocks && comes_in(f, v, to) && needed(
            f,
            to,
            v,
            early(f.insns[to.ix()].from.0 as int),
            (n - 1) as nat,
        )
}

/// The allocator succeeds on the function, with what it then promises of locations.
#[verifier::opaque]
pub open spec fn succeeds(c: Ctx) -> bool {
    ctx_ok(c) && allocated(c) is Ok && locations_sound(c)
}

/// Wherever the allocator returns locations, it succeeds.
pub proof fn lemma_succeeds(c: Ctx)
    requires
        ctx_ok(c),
        allocated(c) is Ok,
        locations_sound(c),
    ensures
        succeeds(c),
{
    reveal(succeeds);
}

/// The function fits together.
pub proof fn lemma_fits(c: Ctx)
    requires
        succeeds(c),
    ensures
        ctx_ok(c),
{
    reveal(succeeds);
}

/// Is register `v` at place `p` in the location?
pub open spec fn sits(c: Ctx, v: int, p: int, loc: Allocation) -> bool {
    &&& 0 <= v < found(c).g.in_vreg.len()
    &&& exists|y: int|
        0 <= y < found(c).g.in_vreg[v].len() && #[trigger] range_of(c, v, y).from.ix() <= p
            < range_of(c, v, y).to.ix() && range_alloc(found(c), found(c).g.in_vreg[v][y]) == Some(
            loc,
        )
}

/// An input is used where it is read, or later.
proof fn lemma_use_place(c: Ctx, b: Block, i: int, k: int)
    requires
        ctx_ok(c),
        b.0 < c.f.blocks,
        c.f.insns[b.ix()].has(i),
        0 <= k < c.f.operands[i].len(),
    ensures
        use_pos(c, b, Inst(i as u32), reused_input(c.f.operands[i], 0), k).ix() >= read_place(
            c.f.operands[i][k],
            i,
        ),
{
    assert(block_ok(c.f, b.ix()));
    if c.f.branches[i] {
        assert(i == c.f.insns[b.ix()].to.0 - 1);
    }
}

/// An output is defined where it is written.
proof fn lemma_def_place(op: Operand, i: int)
    requires
        0 <= i <= u32::MAX,
    ensures
        def_pos(op, Inst(i as u32)).ix() == write_place(op, i),
{
}

/// The ends of a block.
pub proof fn lemma_block_ends(c: Ctx, b: Block)
    requires
        ctx_ok(c),
        b.0 < c.f.blocks,
    ensures
        c.cfg.block_entry[b.ix()].ix() == early(c.f.insns[b.ix()].from.0 as int),
        c.cfg.block_exit[b.ix()].ix() == late(c.f.insns[b.ix()].to.0 - 1),
        c.f.insns[b.ix()].from.0 < c.f.insns[b.ix()].to.0 <= c.f.insts,
{
    assert(block_ok(c.f, b.ix()));
}

/// A register that is needed at the start of a block that it comes into is live there.
pub proof fn lemma_needed_live(c: Ctx, b: Block, v: u32, n: nat)
    requires
        succeeds(c),
        b.0 < c.f.blocks,
        reachable(c.f, b),
        comes_in(c.f, v as int, b),
        needed(c.f, b, v as int, early(c.f.insns[b.ix()].from.0 as int), n),
    ensures
        found(c).liveins[b.ix()].contains(v as int),
    decreases n,
{
    reveal(succeeds);
    let p = early(c.f.insns[b.ix()].from.0 as int);
    if read_from(c.f, b, v as int, p) {
        let (i, k) = choose|i: int, k: int|
            c.f.insns[b.ix()].has(i) && 0 <= k < c.f.operands[i].len() && (
            #[trigger] c.f.operands[i][k]).kind is Use && c.f.operands[i][k].vreg.vreg == v
                && read_place(c.f.operands[i][k], i) >= p;
        assert(use_in(c.f, v as int, b));
        law_used_comes_in(c, b, v);
    } else {
        let to = choose|to: Block| #[trigger]
            joined(c.f, b, to) && to.0 < c.f.blocks && comes_in(c.f, v as int, to) && needed(
                c.f,
                to,
                v as int,
                early(c.f.insns[to.ix()].from.0 as int),
                (n - 1) as nat,
            );
        lemma_reachable_step(c.f, b, to);
        lemma_needed_live(c, to, v, (n - 1) as nat);
        law_live_comes_in(c, b, to, v);
    }
}

/// A register that is needed is live.
proof fn lemma_needed_covered(c: Ctx, b: Block, v: u32, p: int, n: nat)
    requires
        succeeds(c),
        b.0 < c.f.blocks,
        reachable(c.f, b),
        v < c.f.num_vregs,
        place_in(c.f, b, p),
        written_by(c.f, b, v as int, p),
        needed(c.f, b, v as int, p, n),
    ensures
        covers(located(c)->Ok_0.0.g, v as int, p),
{
    reveal(succeeds);
    let (u, a, t) = located(c)->Ok_0;
    let len = c.cfg.postorder.len() as int;
    let j = lemma_in_order_at(c, b);
    lemma_block_ends(c, b);
    assert(defs_before(c, b, v as int, p + 1)) by {
        assert forall|i: int, k: int|
            c.f.insns[b.ix()].has(i) && 0 <= k < c.f.operands[i].len() && (
            #[trigger] c.f.operands[i][k]).kind is Def && c.f.operands[i][k].vreg.vreg
                == v implies def_pos(c.f.operands[i][k], Inst(i as u32)).ix() < p + 1 by {
            lemma_def_place(c.f.operands[i][k], i);
        }
    }
    if read_from(c.f, b, v as int, p) {
        let (i, k) = choose|i: int, k: int|
            c.f.insns[b.ix()].has(i) && 0 <= k < c.f.operands[i].len() && (
            #[trigger] c.f.operands[i][k]).kind is Use && c.f.operands[i][k].vreg.vreg == v
                && read_place(c.f.operands[i][k], i) >= p;
        lemma_use_place(c, b, i, k);
        assert(used_from(c, b, v as int, p, i, k));
    } else {
        let to = choose|to: Block| #[trigger]
            joined(c.f, b, to) && to.0 < c.f.blocks && comes_in(c.f, v as int, to) && needed(
                c.f,
                to,
                v as int,
                early(c.f.insns[to.ix()].from.0 as int),
                (n - 1) as nat,
            );
        lemma_reachable_step(c.f, b, to);
        lemma_needed_live(c, to, v, (n - 1) as nat);
        let l = lemma_in_order_at(c, to);
        assert(live_at(c, u.liveins, l, v as int));
        assert(goes_on(c, u.liveins, len, b, v as int));
    }
    assert(lives_at(c, u.liveins, len, j, v as int, p));
    reveal(edges_live);
    reveal(lived);
}

/// A register that is needed at a place has a location there.
pub proof fn law_needed_sits(c: Ctx, b: Block, v: u32, p: int, n: nat)
    requires
        succeeds(c),
        b.0 < c.f.blocks,
        reachable(c.f, b),
        v < c.f.num_vregs,
        place_in(c.f, b, p),
        written_by(c.f, b, v as int, p),
        needed(c.f, b, v as int, p, n),
    ensures
        exists|loc: Allocation| sits(c, v as int, p, loc),
{
    lemma_fits(c);
    lemma_block_ends(c, b);
    lemma_needed_covered(c, b, v, p, n);
    lemma_covered_sits(c, v, p);
}

pub proof fn lemma_covered_sits(c: Ctx, v: u32, p: int)
    requires
        succeeds(c),
        v < c.f.num_vregs,
        0 <= p < 2 * c.f.insts,
        covers(located(c)->Ok_0.0.g, v as int, p),
    ensures
        exists|loc: Allocation| sits(c, v as int, p, loc),
{
    reveal(succeeds);
    let x = found(c);
    let pos = ProgPoint::at(p);
    assert(pos.ix() == p);
    let q = lemma_place_of(c, v, pos);
    assert(range_of(c, v as int, q).from.ix() <= p);
    assert(sits(c, v as int, p, range_alloc(x, x.g.in_vreg[v as int][q])->Some_0));
}

/// Two registers are never in one location at one place.
pub proof fn law_sit_apart(c: Ctx, v: int, w: int, p: int, a: Allocation, b: Allocation)
    requires
        succeeds(c),
        v != w,
        sits(c, v, p, a),
        sits(c, w, p, b),
    ensures
        a != b,
{
    reveal(succeeds);
    let x = found(c);
    let y = choose|y: int|
        0 <= y < x.g.in_vreg[v].len() && #[trigger] range_of(c, v, y).from.ix() <= p < range_of(
            c,
            v,
            y,
        ).to.ix() && range_alloc(x, x.g.in_vreg[v][y]) == Some(a);
    let z = choose|z: int|
        0 <= z < x.g.in_vreg[w].len() && #[trigger] range_of(c, w, z).from.ix() <= p < range_of(
            c,
            w,
            z,
        ).to.ix() && range_alloc(x, x.g.in_vreg[w][z]) == Some(b);
    lemma_kept_apart(c);
    let _ = (x.g.in_vreg[v][y], x.g.in_vreg[w][z]);
    assert(range_of(c, v, y).meets(range_of(c, w, z)));
}

/// A register is in one location at one place.
pub proof fn law_sits_once(c: Ctx, v: int, p: int, a: Allocation, b: Allocation)
    requires
        succeeds(c),
        sits(c, v, p, a),
        sits(c, v, p, b),
    ensures
        a == b,
{
    reveal(succeeds);
    let x = found(c);
    let y = choose|y: int|
        0 <= y < x.g.in_vreg[v].len() && #[trigger] range_of(c, v, y).from.ix() <= p < range_of(
            c,
            v,
            y,
        ).to.ix() && range_alloc(x, x.g.in_vreg[v][y]) == Some(a);
    let z = choose|z: int|
        0 <= z < x.g.in_vreg[v].len() && #[trigger] range_of(c, v, z).from.ix() <= p < range_of(
            c,
            v,
            z,
        ).to.ix() && range_alloc(x, x.g.in_vreg[v][z]) == Some(b);
    lemma_orders(c);
    let _ = (x.g.in_vreg[v][y], x.g.in_vreg[v][z]);
}

/// Is register `v` written by none of the outputs of instruction `i`?
pub open spec fn not_written(f: FuncModel, i: int, v: int) -> bool {
    forall|k: int|
        0 <= k < f.operands[i].len() && (#[trigger] f.operands[i][k]).kind is Def
            ==> f.operands[i][k].vreg.vreg != v
}

/// The definition that a live range begins with is an output of its instruction.
pub proof fn lemma_begins_written(c: Ctx, v: int, y: int, i: int)
    requires
        succeeds(c),
        ssa_form(c.f),
        0 <= v < found(c).g.in_vreg.len(),
        0 <= y < found(c).g.in_vreg[v].len(),
        0 <= i < c.f.insts,
        not_written(c.f, i, v),
        range_of(c, v, y).from.inst.0 == i,
    ensures
        !begins_with_def(found(c).g, found(c).g.in_vreg[v][y]),
{
    reveal(succeeds);
    let (u, a, t) = located(c)->Ok_0;
    let g = found(c).g;
    let r = g.in_vreg[v][y];
    if begins_with_def(g, r) {
        lemma_def_owner(c, v, y);
        lemma_below(g.in_vreg, g.ranges.len() as int, v, y);
        assert(range_ok(c.f, g, r as int));
        let d = g.ranges[r as int].def.ix();
        assert(mention_ok(c.f, g.defs[d].pos, g.defs[d].slot));
        assert(u.g.defs[d] == g.defs[d]);
        assert(c.f.operands[i][u.g.defs[d].slot as int].kind is Def);
    }
}

/// Two live ranges that share an instruction, and what comes between them.
pub proof fn lemma_neighbours(c: Ctx, v: int, y: int, z: int, p: int)
    requires
        succeeds(c),
        0 <= v < found(c).g.in_vreg.len(),
        0 <= y < found(c).g.in_vreg[v].len(),
        0 <= z < found(c).g.in_vreg[v].len(),
        y != z,
        range_of(c, v, y).from.ix() <= p < range_of(c, v, y).to.ix(),
        range_of(c, v, z).from.ix() <= p + 1 < range_of(c, v, z).to.ix(),
    ensures
        z == y + 1,
        range_of(c, v, y).to.ix() == p + 1,
        range_of(c, v, z).from.ix() == p + 1,
{
    reveal(succeeds);
    let g = found(c).g;
    lemma_orders(c);
    assert(in_order(g.ranges, g.in_vreg[v]));
    let _ = (g.in_vreg[v][y], g.in_vreg[v][z]);
    if z > y + 1 {
        let _ = g.in_vreg[v][y + 1];
        lemma_below(g.in_vreg, g.ranges.len() as int, v, y + 1);
        assert(range_ok(c.f, g, g.in_vreg[v][y + 1] as int));
    }
}

/// A register that an instruction does not write is in one location before and after it: no value is
/// to be moved in the middle of an instruction.
pub proof fn law_still_inside(c: Ctx, i: int, v: int, a: Allocation, b: Allocation)
    requires
        succeeds(c),
        ssa_form(c.f),
        0 <= i < c.f.insts,
        not_written(c.f, i, v),
        sits(c, v, early(i), a),
        sits(c, v, late(i), b),
    ensures
        a == b,
{
    let x = found(c);
    let y = choose|y: int|
        0 <= y < x.g.in_vreg[v].len() && #[trigger] range_of(c, v, y).from.ix() <= early(i)
            < range_of(c, v, y).to.ix() && range_alloc(x, x.g.in_vreg[v][y]) == Some(a);
    let z = choose|z: int|
        0 <= z < x.g.in_vreg[v].len() && #[trigger] range_of(c, v, z).from.ix() <= late(i)
            < range_of(c, v, z).to.ix() && range_alloc(x, x.g.in_vreg[v][z]) == Some(b);
    if y != z {
        lemma_neighbours(c, v, y, z, early(i));
        let from = range_of(c, v, z).from;
        from.law_ix_injective(range_of(c, v, y).to);
        assert(from.pos is After && from.inst.0 == i);
        lemma_begins_written(c, v, z, i);
        lemma_follows(c, v, z);
    }
}

/// A live range that follows the one before it in the middle of an instruction is in its location.
pub proof fn lemma_follows(c: Ctx, v: int, z: int)
    requires
        succeeds(c),
        0 <= v < found(c).g.in_vreg.len(),
        0 < z < found(c).g.in_vreg[v].len(),
        range_of(c, v, z - 1).to == range_of(c, v, z).from,
        range_of(c, v, z).from.pos is After,
        !begins_with_def(found(c).g, found(c).g.in_vreg[v][z]),
        range_of(c, v, z).from.inst.0 < c.f.insts,
    ensures
        range_alloc(found(c), found(c).g.in_vreg[v][z]) == range_alloc(
            found(c),
            found(c).g.in_vreg[v][z - 1],
        ),
{
    reveal(succeeds);
    let x = found(c);
    let from = range_of(c, v, z).from;
    let b = c.cfg.insn_block[from.inst.ix()];
    assert(b.0 < c.f.blocks);
    lemma_block_ends(c, b);
    assert(!start_of_block(c, from));
    lemma_range_follows(x, apply_start(c.f), located(c)->Ok_0.0.fixups, v as u32, z);
}

/// Where operand `k` of instruction `i` comes out.
pub open spec fn alloc_of(c: Ctx, i: int, k: int) -> Allocation {
    let out = allocated(c)->Ok_0;
    out.allocs[out.inst_alloc_offsets[i] + k]
}

/// The locations of the operands stand one after the other, instruction by instruction.
pub proof fn law_offsets(c: Ctx, i: int)
    requires
        succeeds(c),
        0 <= i < c.f.insts,
    ensures
        ({
            let out = allocated(c)->Ok_0;
            &&& out.inst_alloc_offsets.len() == c.f.insts
            &&& i == 0 ==> out.inst_alloc_offsets[i] == 0
            &&& out.inst_alloc_offsets[i] + c.f.operands[i].len() == (if i + 1 < c.f.insts {
                out.inst_alloc_offsets[i + 1] as int
            } else {
                out.allocs.len() as int
            })
        }),
{
    reveal(succeeds);
    lemma_operands_before(c.f.operands, i, c.f.insts as int);
    lemma_operands_before(c.f.operands, i + 1, c.f.insts as int);
    assert(operands_before(c.f.operands, i + 1) == operands_before(c.f.operands, i)
        + c.f.operands[i].len());
}

pub proof fn lemma_alloc_of(c: Ctx, i: int, k: int)
    requires
        succeeds(c),
        0 <= i < c.f.insts,
    ensures
        alloc_of(c, i, k) == allocated(c)->Ok_0.allocs[operand_place(c.f, Inst(i as u32), k)],
{
    reveal(succeeds);
    lemma_operands_before(c.f.operands, i, c.f.insts as int);
}

/// The live range that holds an input, and that it is one of the register.
pub proof fn lemma_holder(c: Ctx, b: Block, i: int, k: int) -> (y: int)
    requires
        succeeds(c),
        ssa_form(c.f),
        in_reach(c, b, i),
        0 <= k < c.f.operands[i].len(),
        c.f.operands[i][k].kind is Use,
    ensures
        ({
            let v = c.f.operands[i][k].vreg.vreg as int;
            &&& v < found(c).g.in_vreg.len()
            &&& 0 <= y < found(c).g.in_vreg[v].len()
            &&& holds_operand(c, v, y, i, k)
            &&& range_alloc(found(c), found(c).g.in_vreg[v][y]) == Some(location_of(c, v, y))
            &&& first_allocs(c)[operand_place(c.f, Inst(i as u32), k)] == location_of(c, v, y)
            &&& range_of(c, v, y).from.ix() <= early(i) < range_of(c, v, y).to.ix() || range_of(
                c,
                v,
                y,
            ).from.ix() <= late(i) < range_of(c, v, y).to.ix()
        }),
{
    reveal(succeeds);
    let (u, a, t) = located(c)->Ok_0;
    let g = found(c).g;
    let (v, y) = lemma_held(c, b, i, k);
    lemma_first_alloc(c, v, y, i, k);
    let j = lemma_use_site(c, v, y, i, k);
    let n = g.in_range[g.in_vreg[v][y] as int][j];
    assert(defined_first(c.f)) by {
        reveal(ssa_form);
    }
    law_uses_covered(c);
    assert(g.ranges[g.in_vreg[v][y] as int].range.has(g.uses[n as int].pos));
    assert(mentions(a.g, v, n)) by {
        assert(a.g.in_range[a.g.in_vreg[v][y] as int].contains(n));
    }
    assert(mentions(u.g, v, n));
    lemma_use_owner(c, v, n);
    assert(use_named(c.f, u.g.uses[n as int]));
    y
}

/// The register of an input is at the instruction where the live range is that holds the input.
pub proof fn lemma_holder_sits(c: Ctx, b: Block, i: int, k: int, y: int)
    requires
        succeeds(c),
        ssa_form(c.f),
        in_reach(c, b, i),
        0 <= k < c.f.operands[i].len(),
        c.f.operands[i][k].kind is Use,
        ({
            let v = c.f.operands[i][k].vreg.vreg as int;
            &&& v < found(c).g.in_vreg.len()
            &&& 0 <= y < found(c).g.in_vreg[v].len()
            &&& range_alloc(found(c), found(c).g.in_vreg[v][y]) == Some(location_of(c, v, y))
            &&& range_of(c, v, y).from.ix() <= early(i) < range_of(c, v, y).to.ix() || range_of(
                c,
                v,
                y,
            ).from.ix() <= late(i) < range_of(c, v, y).to.ix()
        }),
    ensures
        sits(
            c,
            c.f.operands[i][k].vreg.vreg as int,
            early(i),
            location_of(c, c.f.operands[i][k].vreg.vreg as int, y),
        ),
{
    let v = c.f.operands[i][k].vreg.vreg;
    let loc = location_of(c, v as int, y);
    lemma_fits(c);
    lemma_input_not_written(c.f, b, i, k);
    lemma_block_ends(c, b);
    assert(read_from(c.f, b, v as int, early(i)));
    law_needed_sits(c, b, v, early(i), 0);
    let e = choose|e: Allocation| sits(c, v as int, early(i), e);
    if range_of(c, v as int, y).from.ix() <= early(i) < range_of(c, v as int, y).to.ix() {
        assert(sits(c, v as int, early(i), loc));
    } else {
        assert(sits(c, v as int, late(i), loc));
        law_still_inside(c, i, v as int, e, loc);
    }
}

proof fn lemma_input_alloc(c: Ctx, b: Block, i: int, k: int)
    requires
        succeeds(c),
        ssa_form(c.f),
        in_reach(c, b, i),
        reuse_clean(c.f, Inst(i as u32)),
        0 <= k < c.f.operands[i].len(),
        !input_upto(c.f, Inst(i as u32), k, c.f.operands[i].len() as int),
    ensures
        alloc_of(c, i, k) == first_allocs(c)[operand_place(c.f, Inst(i as u32), k)],
{
    lemma_alloc_of(c, i, k);
    reveal(succeeds);
    lemma_output_stays(c, b, i, k);
}

/// An input is a register that its instruction does not write.
pub proof fn lemma_input_not_written(f: FuncModel, b: Block, i: int, k: int)
    requires
        ssa_form(f),
        func_ok(f),
        b.0 < f.blocks,
        f.insns[b.ix()].has(i),
        0 <= i < f.insts,
        0 <= k < f.operands[i].len(),
        f.operands[i][k].kind is Use,
    ensures
        not_written(f, i, f.operands[i][k].vreg.vreg as int),
        written_by(f, b, f.operands[i][k].vreg.vreg as int, early(i)),
        f.operands[i][k].vreg.vreg < f.num_vregs,
{
    reveal(ssa_form);
    assert(inst_ok(f, i));
    assert(operand_ok(f, i, f.operands[i][k]));
    let v = f.operands[i][k].vreg.vreg;
    assert forall|j: int, l: int|
        f.insns[b.ix()].has(j) && 0 <= l < f.operands[j].len() && (
        #[trigger] f.operands[j][l]).kind is Def && f.operands[j][l].vreg.vreg == v implies j < i by {
        let _ = (f.insns[b.ix()], f.operands[j][l], f.operands[i][k]);
    }
}

/// An input comes out where its register is before the instruction, and after the instruction if it
/// is read late.
pub proof fn law_input_sits(c: Ctx, b: Block, i: int, k: int)
    requires
        succeeds(c),
        ssa_form(c.f),
        in_reach(c, b, i),
        reuse_clean(c.f, Inst(i as u32)),
        0 <= k < c.f.operands[i].len(),
        c.f.operands[i][k].kind is Use,
        !input_upto(c.f, Inst(i as u32), k, c.f.operands[i].len() as int),
    ensures
        sits(c, c.f.operands[i][k].vreg.vreg as int, early(i), alloc_of(c, i, k)),
        c.f.operands[i][k].pos is After || c.f.operands[i][k].pos is Both ==> sits(
            c,
            c.f.operands[i][k].vreg.vreg as int,
            late(i),
            alloc_of(c, i, k),
        ),
{
    let op = c.f.operands[i][k];
    let v = op.vreg.vreg;
    let loc = alloc_of(c, i, k);
    lemma_fits(c);
    lemma_input_not_written(c.f, b, i, k);
    lemma_block_ends(c, b);
    let y = lemma_holder(c, b, i, k);
    lemma_input_alloc(c, b, i, k);
    lemma_holder_sits(c, b, i, k, y);
    if op.pos is After || op.pos is Both {
        assert(read_from(c.f, b, v as int, late(i)));
        law_needed_sits(c, b, v, late(i), 0);
        let l = choose|l: Allocation| sits(c, v as int, late(i), l);
        law_still_inside(c, i, v as int, loc, l);
    }
}

/// An output comes out where its register is once it is written: before the instruction if it is
/// written early, after it otherwise.
pub proof fn law_output_sits(c: Ctx, b: Block, i: int, k: int)
    requires
        succeeds(c),
        ssa_form(c.f),
        in_reach(c, b, i),
        reuse_clean(c.f, Inst(i as u32)),
        0 <= k < c.f.operands[i].len(),
        c.f.operands[i][k].kind is Def,
        !input_upto(c.f, Inst(i as u32), k, c.f.operands[i].len() as int),
    ensures
        sits(
            c,
            c.f.operands[i][k].vreg.vreg as int,
            write_place(c.f.operands[i][k], i),
            alloc_of(c, i, k),
        ),
{
    lemma_alloc_of(c, i, k);
    lemma_def_place(c.f.operands[i][k], i);
    reveal(succeeds);
    let (v, y) = lemma_held(c, b, i, k);
    lemma_first_alloc(c, v, y, i, k);
    lemma_output_stays(c, b, i, k);
    lemma_def_site(c, v, y, i, k);
    assert(range_of(c, v, y).from.ix() <= write_place(c.f.operands[i][k], i));
}

/// Is the register of the operand to be in its location at place `p`? An input is from before the
/// instruction until it is read, an output when it is written.
pub open spec fn busy_at(op: Operand, i: int, p: int) -> bool {
    if op.kind is Use {
        early(i) <= p <= read_place(op, i)
    } else {
        p == write_place(op, i)
    }
}

/// Operands of one instruction that are for different registers, and needed at one place of it, come
/// out in different locations.
pub proof fn law_operands_apart(c: Ctx, b: Block, i: int, k: int, l: int, p: int)
    requires
        succeeds(c),
        ssa_form(c.f),
        in_reach(c, b, i),
        reuse_clean(c.f, Inst(i as u32)),
        0 <= k < c.f.operands[i].len(),
        0 <= l < c.f.operands[i].len(),
        c.f.operands[i][k].vreg.vreg != c.f.operands[i][l].vreg.vreg,
        busy_at(c.f.operands[i][k], i, p),
        busy_at(c.f.operands[i][l], i, p),
        !input_upto(c.f, Inst(i as u32), k, c.f.operands[i].len() as int),
        !input_upto(c.f, Inst(i as u32), l, c.f.operands[i].len() as int),
    ensures
        alloc_of(c, i, k) != alloc_of(c, i, l),
{
    lemma_busy_sits(c, b, i, k, p);
    lemma_busy_sits(c, b, i, l, p);
    lemma_fits(c);
    law_sit_apart(
        c,
        c.f.operands[i][k].vreg.vreg as int,
        c.f.operands[i][l].vreg.vreg as int,
        p,
        alloc_of(c, i, k),
        alloc_of(c, i, l),
    );
}

proof fn lemma_busy_sits(c: Ctx, b: Block, i: int, k: int, p: int)
    requires
        succeeds(c),
        ssa_form(c.f),
        in_reach(c, b, i),
        reuse_clean(c.f, Inst(i as u32)),
        0 <= k < c.f.operands[i].len(),
        busy_at(c.f.operands[i][k], i, p),
        !input_upto(c.f, Inst(i as u32), k, c.f.operands[i].len() as int),
    ensures
        sits(c, c.f.operands[i][k].vreg.vreg as int, p, alloc_of(c, i, k)),
{
    if c.f.operands[i][k].kind is Use {
        law_input_sits(c, b, i, k);
    } else {
        law_output_sits(c, b, i, k);
    }
}

/// An input that is read late is not where an output of its instruction is: not where a late one is,
/// which is written by then, and not where an early one is.
pub proof fn law_late_input_spared(c: Ctx, b: Block, i: int, k: int, l: int)
    requires
        succeeds(c),
        ssa_form(c.f),
        in_reach(c, b, i),
        reuse_clean(c.f, Inst(i as u32)),
        0 <= k < c.f.operands[i].len(),
        0 <= l < c.f.operands[i].len(),
        c.f.operands[i][k].kind is Use,
        c.f.operands[i][k].pos is After || c.f.operands[i][k].pos is Both,
        c.f.operands[i][l].kind is Def,
        !input_upto(c.f, Inst(i as u32), k, c.f.operands[i].len() as int),
        !input_upto(c.f, Inst(i as u32), l, c.f.operands[i].len() as int),
    ensures
        alloc_of(c, i, k) != alloc_of(c, i, l),
{
    lemma_fits(c);
    lemma_input_not_written(c.f, b, i, k);
    let _ = c.f.operands[i][l];
    law_operands_apart(c, b, i, k, l, write_place(c.f.operands[i][l], i));
}

/// An output that is written early is not where an input of its instruction is.
pub proof fn law_early_output_apart(c: Ctx, b: Block, i: int, k: int, l: int)
    requires
        succeeds(c),
        ssa_form(c.f),
        in_reach(c, b, i),
        reuse_clean(c.f, Inst(i as u32)),
        0 <= k < c.f.operands[i].len(),
        0 <= l < c.f.operands[i].len(),
        c.f.operands[i][k].kind is Use,
        c.f.operands[i][l].kind is Def,
        c.f.operands[i][l].pos is Before || c.f.operands[i][l].pos is Both,
        !input_upto(c.f, Inst(i as u32), k, c.f.operands[i].len() as int),
        !input_upto(c.f, Inst(i as u32), l, c.f.operands[i].len() as int),
    ensures
        alloc_of(c, i, k) != alloc_of(c, i, l),
{
    lemma_fits(c);
    lemma_input_not_written(c.f, b, i, k);
    let _ = c.f.operands[i][l];
    law_operands_apart(c, b, i, k, l, early(i));
}

} // verus!
