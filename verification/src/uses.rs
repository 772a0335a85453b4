//! Every use lies in its live range.
use crate::code_range::CodeRange;
use crate::data::{LiveRange, Use};
use crate::fixup::relaxed;
use crate::func::FuncModel;
use crate::graph::{
    first_use_after, fresh_range, graph_add_range, graph_add_use, graph_insert_use, graph_ok,
    graph_remove_use, graph_set_range, lemma_first_use_after, mention_ok, use_position, GraphState,
    COALESCE_LIMIT,
};
use crate::held::lemma_live_stays;
use crate::index::VRegIndex;
use crate::lists::{lemma_below, NIL};
use crate::live::{
    graph_add_live, graph_distribute, graph_join, graph_move_uses, graph_scan, hull,
    lemma_distribute_frame, lemma_move_uses_frame,
};
use crate::liveness::reused_input;
use crate::order::vregs_in_order;
use crate::parts::mentions;
use crate::reg::ProgPoint;
use vstd::prelude::*;

verus! {

/// Every use lies in its live range, and the uses of a live range are in the order of their points.
pub open spec fn uses_placed(g: GraphState) -> bool {
    &&& forall|r: int, j: int|
        0 <= r < g.in_range.len() && 0 <= j < g.in_range[r].len() ==> g.ranges[r].range.has(
            g.uses[(#[trigger] g.in_range[r][j]) as int].pos,
        )
    &&& forall|r: int, i: int, j: int|
        #![trigger g.in_range[r][i], g.in_range[r][j]]
        0 <= r < g.in_range.len() && 0 <= i < j < g.in_range[r].len()
            ==> g.uses[g.in_range[r][i] as int].pos.ix()
            <= g.uses[g.in_range[r][j] as int].pos.ix()
}

/// The uses of a live range are of its register.
pub open spec fn uses_owned(g: GraphState) -> bool {
    forall|r: int, j: int|
        0 <= r < g.in_range.len() && 0 <= j < g.in_range[r].len() ==> g.uses[(
        #[trigger] g.in_range[r][j]) as int].operand.vreg.vreg == g.ranges[r].vreg.0
}

/// No other operand of instruction `i` demands a given register for the register of operand `k`.
pub open spec fn lone_demand(f: FuncModel, i: int, k: int) -> bool {
    forall|l: int|
        0 <= l < f.operands[i].len() && l != k && (#[trigger] f.operands[i][l]).policy is FixedReg
            ==> f.operands[i][l].vreg != f.operands[i][k].vreg
}

/// Does operand `k` of instruction `i` use its register to the end of the instruction? It does in a
/// branch, where another input is reused, and unless it is an early one.
pub open spec fn used_late(f: FuncModel, i: int, k: int) -> bool {
    ||| f.branches[i]
    ||| reused_input(f.operands[i], 0) matches Some(input) && input != k
    ||| !(f.operands[i][k].pos is Before)
}

/// The use stands for an operand that uses its register. It demands what the operand does, but for
/// a demand for a given register beside another one. It reaches to the end of an instruction in which
/// another input is reused.
pub open spec fn use_named(f: FuncModel, u: Use) -> bool {
    let op = f.operands[u.pos.inst.ix()][u.slot as int];
    &&& op.kind is Use
    &&& relaxed(op, u.operand)
    &&& u.pos.pos is After <==> used_late(f, u.pos.inst.ix(), u.slot as int)
    &&& lone_demand(f, u.pos.inst.ix(), u.slot as int) ==> u.operand == op
}

/// The uses demand what their operands do.
pub open spec fn uses_exact(f: FuncModel, uses: Seq<Use>) -> bool {
    forall|u: int|
        0 <= u < uses.len() ==> (#[trigger] uses[u]).operand
            == f.operands[uses[u].pos.inst.ix()][uses[u].slot as int]
}

/// The uses stand for operands that use their registers.
pub open spec fn uses_named(f: FuncModel, g: GraphState) -> bool {
    forall|u: int| 0 <= u < g.uses.len() ==> use_named(f, #[trigger] g.uses[u])
}

/// Every use is in the list of a live range of its register.
pub open spec fn uses_held(g: GraphState) -> bool {
    forall|u: int|
        0 <= u < g.uses.len() ==> {
            let v = (#[trigger] g.uses[u]).operand.vreg.vreg;
            v < g.in_vreg.len() && mentions(g, v as int, u as u32)
        }
}

/// Within a block no register is used at or before an instruction that defines it.
pub open spec fn defined_first(f: FuncModel) -> bool {
    forall|b: int, i: int, k: int, j: int, l: int|
        #![trigger f.insns[b], f.operands[i][k], f.operands[j][l]]
        0 <= b < f.blocks && f.insns[b].has(i) && f.insns[b].has(j) && 0 <= k < f.operands[i].len()
            && 0 <= l < f.operands[j].len() && f.operands[i][k].kind is Def
            && f.operands[j][l].kind is Use && f.operands[i][k].vreg.vreg
            == f.operands[j][l].vreg.vreg ==> i < j
}

/// The uses stand for operands, and where registers are defined first every use lies in a live
/// range of its register.
pub open spec fn uses_fit(f: FuncModel, g: GraphState) -> bool {
    &&& uses_named(f, g)
    &&& defined_first(f) ==> uses_placed(g) && uses_owned(g) && uses_held(g)
}

/// What uses lie in depends on the extents and lists of the live ranges and the points of the uses.
pub proof fn lemma_same_uses(f: FuncModel, g: GraphState, h: GraphState)
    requires
        uses_fit(f, g),
        h.in_range == g.in_range,
        h.in_vreg == g.in_vreg,
        g.in_range.len() == g.ranges.len(),
        crate::lists::lists_ok(g.in_range, g.uses.len() as int),
        forall|r: int|
            0 <= r < g.ranges.len() ==> (#[trigger] h.ranges[r]).range == g.ranges[r].range
                && h.ranges[r].vreg == g.ranges[r].vreg,
        h.uses.len() == g.uses.len(),
        forall|u: int|
            0 <= u < g.uses.len() ==> {
                &&& (#[trigger] h.uses[u]).pos == g.uses[u].pos
                &&& h.uses[u].slot == g.uses[u].slot
                &&& relaxed(g.uses[u].operand, h.uses[u].operand)
                &&& use_named(f, h.uses[u])
            },
    ensures
        uses_fit(f, h),
{
    if defined_first(f) {
        assert forall|r: int, j: int|
            0 <= r < g.in_range.len() && 0 <= j < g.in_range[r].len() implies ({
            let u = (#[trigger] g.in_range[r][j]) as int;
            &&& u < g.uses.len()
            &&& h.uses[u].pos == g.uses[u].pos
            &&& h.uses[u].operand.vreg == g.uses[u].operand.vreg
            &&& h.ranges[r].range == g.ranges[r].range
            &&& h.ranges[r].vreg == g.ranges[r].vreg
        }) by {
            lemma_below(g.in_range, g.uses.len() as int, r, j);
            let u = g.in_range[r][j] as int;
            assert(h.uses[u].pos == g.uses[u].pos);
        }
        assert forall|u: int| 0 <= u < h.uses.len() implies ({
            let v = (#[trigger] h.uses[u]).operand.vreg.vreg;
            v < h.in_vreg.len() && mentions(h, v as int, u as u32)
        }) by {
            let v = g.uses[u].operand.vreg.vreg as int;
            assert(mentions(g, v, u as u32));
            let i = choose|i: int|
                0 <= i < g.in_vreg[v].len() && g.in_range[(
                #[trigger] g.in_vreg[v][i]) as int].contains(u as u32);
            assert(h.in_range[h.in_vreg[v][i] as int].contains(u as u32));
        }
    }
}

/// A live range without uses does no harm.
pub proof fn lemma_added_range(f: FuncModel, g: GraphState, lr: LiveRange)
    requires
        uses_fit(f, g),
        graph_ok(f, g),
    ensures
        uses_fit(f, graph_add_range(g, lr)),
{
    let h = graph_add_range(g, lr);
    if defined_first(f) {
        lemma_range_fits(g, lr);
        assert forall|u: int| 0 <= u < h.uses.len() implies ({
            let v = (#[trigger] h.uses[u]).operand.vreg.vreg;
            v < h.in_vreg.len() && mentions(h, v as int, u as u32)
        }) by {
            let v = g.uses[u].operand.vreg.vreg as int;
            assert(mentions(g, v, u as u32));
            let i = choose|i: int|
                0 <= i < g.in_vreg[v].len() && g.in_range[(
                #[trigger] g.in_vreg[v][i]) as int].contains(u as u32);
            lemma_below(g.in_vreg, g.ranges.len() as int, v, i);
            assert(h.in_range[h.in_vreg[v][i] as int].contains(u as u32));
        }
    }
}

proof fn lemma_range_fits(g: GraphState, lr: LiveRange)
    requires
        fits(g),
        g.in_range.len() == g.ranges.len(),
    ensures
        fits(graph_add_range(g, lr)),
{
    let h = graph_add_range(g, lr);
    assert forall|r: int, j: int|
        0 <= r < h.in_range.len() && 0 <= j < h.in_range[r].len() implies r < g.in_range.len()
        && #[trigger] h.in_range[r][j] == g.in_range[r][j] && h.ranges[r] == g.ranges[r] by {}
}

/// Uses and their live ranges fit together.
pub open spec fn fits(g: GraphState) -> bool {
    uses_placed(g) && uses_owned(g)
}

proof fn lemma_use_position(uses: Seq<Use>, list: Seq<u32>, pos: ProgPoint, i: int)
    requires
        0 <= i <= list.len(),
        forall|x: int, y: int|
            #![trigger list[x], list[y]]
            0 <= x < y < list.len() ==> uses[list[x] as int].pos.ix()
                <= uses[list[y] as int].pos.ix(),
    ensures
        ({
            let p = first_use_after(uses, list, pos, i);
            &&& forall|k: int|
                i <= k < p ==> uses[(#[trigger] list[k]) as int].pos.ix() <= pos.ix()
            &&& forall|k: int|
                p <= k < list.len() ==> uses[(#[trigger] list[k]) as int].pos.ix() > pos.ix()
        }),
    decreases list.len() - i,
{
    if i < list.len() {
        lemma_use_position(uses, list, pos, i + 1);
    }
}

/// A use goes into a live range that it lies in.
pub proof fn lemma_use_inserted(g: GraphState, into: u32, u: u32)
    requires
        fits(g),
        g.in_range.len() == g.ranges.len(),
        into < g.ranges.len(),
        g.ranges[into as int].range.has(g.uses[u as int].pos),
        g.uses[u as int].operand.vreg.vreg == g.ranges[into as int].vreg.0,
    ensures
        graph_insert_use(g, into, u) matches Ok(h) ==> fits(h),
{
    if let Ok(h) = graph_insert_use(g, into, u) {
        let list = g.in_range[into as int];
        let pos = g.uses[u as int].pos;
        let p = use_position(g.uses, list, pos);
        assert forall|x: int, y: int|
            #![trigger list[x], list[y]]
            0 <= x < y < list.len() implies g.uses[list[x] as int].pos.ix()
            <= g.uses[list[y] as int].pos.ix() by {
            assert(g.in_range[into as int][x] == list[x] && g.in_range[into as int][y] == list[y]);
        }
        lemma_first_use_after(g.uses, list, pos, 0);
        lemma_use_position(g.uses, list, pos, 0);
        let new = list.insert(p, u);
        assert forall|k: int| 0 <= k < list.len() implies (k < p ==> g.uses[(
        #[trigger] list[k]) as int].pos.ix() <= pos.ix()) && (k >= p
            ==> g.uses[list[k] as int].pos.ix() >= pos.ix()) by {
            if p == list.len() && list.len() > 0 && pos.ix() > g.uses[list.last() as int].pos.ix()
                && k < list.len() - 1 {
                let _ = (list[k], list[list.len() - 1]);
                assert(g.uses[list[k] as int].pos.ix() <= g.uses[list[list.len()
                    - 1] as int].pos.ix());
            }
        }
        assert forall|k: int| 0 <= k < new.len() implies #[trigger] new[k] == (if k < p {
            list[k]
        } else if k == p {
            u
        } else {
            list[k - 1]
        }) by {}
        assert forall|r: int, j: int|
            0 <= r < h.in_range.len() && 0 <= j < h.in_range[r].len() implies h.ranges[r].range.has(
            h.uses[(#[trigger] h.in_range[r][j]) as int].pos,
        ) && h.uses[h.in_range[r][j] as int].operand.vreg.vreg == h.ranges[r].vreg.0 by {
            if r == into {
                assert(h.in_range[r][j] == new[j]);
                if j < p {
                    assert(g.in_range[r][j] == list[j]);
                } else if j > p {
                    assert(g.in_range[r][j - 1] == list[j - 1]);
                }
            } else {
                assert(h.in_range[r][j] == g.in_range[r][j]);
            }
        }
        assert forall|r: int, i: int, j: int|
            #![trigger h.in_range[r][i], h.in_range[r][j]]
            0 <= r < h.in_range.len() && 0 <= i < j
                < h.in_range[r].len() implies h.uses[h.in_range[r][i] as int].pos.ix()
            <= h.uses[h.in_range[r][j] as int].pos.ix() by {
            if r == into {
                let i0 = if i < p {
                    i
                } else {
                    i - 1
                };
                let j0 = if j < p {
                    j
                } else {
                    j - 1
                };
                assert(h.in_range[r][i] == new[i] && h.in_range[r][j] == new[j]);
                if i != p && j != p {
                    assert(g.uses[list[i0] as int].pos.ix() <= g.uses[list[j0] as int].pos.ix());
                }
            } else {
                assert(h.in_range[r][i] == g.in_range[r][i]);
                assert(h.in_range[r][j] == g.in_range[r][j]);
            }
        }
    }
}

pub proof fn lemma_use_removed(g: GraphState, from: u32, j: int)
    requires
        fits(g),
        g.in_range.len() == g.ranges.len(),
        from < g.ranges.len(),
        0 <= j < g.in_range[from as int].len(),
    ensures
        fits(graph_remove_use(g, from, j)),
{
    let h = graph_remove_use(g, from, j);
    let list = g.in_range[from as int];
    assert forall|r: int, k: int|
        0 <= r < h.in_range.len() && 0 <= k < h.in_range[r].len() implies #[trigger] h.in_range[r][k]
        == (if r == from && k >= j {
        g.in_range[r][k + 1]
    } else {
        g.in_range[r][k]
    }) && h.ranges[r].range == g.ranges[r].range && h.ranges[r].vreg == g.ranges[r].vreg by {
        if r == from {
            assert(h.in_range[r][k] == list.remove(j)[k]);
        }
    }
}

proof fn lemma_uses_moved(g: GraphState, from: u32, into: u32, range: CodeRange, j: int)
    requires
        fits(g),
        g.in_range.len() == g.ranges.len(),
        from < g.ranges.len(),
        into < g.ranges.len(),
        g.ranges[into as int].range == range,
        g.ranges[into as int].vreg == g.ranges[from as int].vreg,
    ensures
        graph_move_uses(g, from, into, range, j) matches Ok(h) ==> fits(h),
    decreases g.in_range[from as int].len() - j,
{
    let list = g.in_range[from as int];
    if 0 <= j < list.len() && from != into {
        let pos = g.uses[list[j] as int].pos;
        if pos.ix() < range.to.ix() {
            if range.has(pos) {
                lemma_use_removed(g, from, j);
                let g1 = graph_remove_use(g, from, j);
                assert(g.uses[g.in_range[from as int][j] as int].operand.vreg.vreg
                    == g.ranges[from as int].vreg.0);
                lemma_use_inserted(g1, into, list[j]);
                if let Ok(h) = graph_insert_use(g1, into, list[j]) {
                    lemma_uses_moved(h, from, into, range, j);
                }
            } else {
                lemma_uses_moved(g, from, into, range, j + 1);
            }
        }
    }
}

/// The live ranges in the list of register `v` exist and belong to it.
pub open spec fn listed_for(g: GraphState, v: u32) -> bool {
    &&& g.in_range.len() == g.ranges.len()
    &&& g.ranges.len() < NIL
    &&& forall|k: int|
        0 <= k < g.in_vreg[v as int].len() ==> (#[trigger] g.in_vreg[v as int][k])
            < g.ranges.len() && g.ranges[g.in_vreg[v as int][k] as int].vreg.0 == v
}

/// A live range that grows keeps its uses.
pub proof fn lemma_grown(g: GraphState, r: u32, lr: LiveRange)
    requires
        fits(g),
        g.in_range.len() == g.ranges.len(),
        r < g.ranges.len(),
        lr.vreg == g.ranges[r as int].vreg,
        lr.range.from.ix() <= g.ranges[r as int].range.from.ix(),
        g.ranges[r as int].range.to.ix() <= lr.range.to.ix(),
    ensures
        fits(graph_set_range(g, r, lr)),
{
    let h = graph_set_range(g, r, lr);
    assert forall|x: int, j: int|
        0 <= x < h.in_range.len() && 0 <= j < h.in_range[x].len() implies h.ranges[x].range.has(
        h.uses[(#[trigger] h.in_range[x][j]) as int].pos,
    ) && h.uses[h.in_range[x][j] as int].operand.vreg.vreg == h.ranges[x].vreg.0 by {
        assert(g.ranges[x].range.has(g.uses[g.in_range[x][j] as int].pos));
    }
}

pub proof fn lemma_joined(g: GraphState, v: u32, i: int, merged: u32)
    requires
        fits(g),
        listed_for(g, v),
        v < g.in_vreg.len(),
        0 <= i < g.in_vreg[v as int].len(),
        merged < g.ranges.len(),
        g.ranges[merged as int].vreg.0 == v,
    ensures
        graph_join(g, v, i, merged) matches Ok(h) ==> {
            &&& fits(h)
            &&& listed_for(h, v)
            &&& h.in_vreg.len() == g.in_vreg.len()
            &&& merged < h.ranges.len()
            &&& h.ranges[merged as int].vreg.0 == v
            &&& h.uses == g.uses
        },
{
    let r = g.in_vreg[v as int][i];
    let lr = g.ranges[r as int];
    let m = g.ranges[merged as int];
    let grown = LiveRange {
        range: CodeRange {
            from: m.range.from,
            to: if lr.range.to.ix() > m.range.to.ix() {
                lr.range.to
            } else {
                m.range.to
            },
        },
        def: if lr.def.is_valid() {
            lr.def
        } else {
            m.def
        },
        ..m
    };
    let g1 = graph_set_range(g, merged, grown);
    lemma_grown(g, merged, grown);
    if let Ok(h) = graph_distribute(g1, v, r, merged) {
        lemma_distribute_frame(g1, v, r, merged);
        let range = g1.ranges[merged as int].range;
        lemma_uses_moved(g1, r, merged, range, 0);
        let moved = graph_move_uses(g1, r, merged, range, 0)->Ok_0;
        lemma_move_uses_frame(g1, r, merged, range, 0);
        if h != moved {
            let with_def = h.ranges[merged as int];
            lemma_grown(moved, merged, with_def);
        }
        assert(fits(h));
        let t = GraphState {
            in_vreg: h.in_vreg.update(v as int, h.in_vreg[v as int].remove(i)),
            ..h
        };
        assert forall|k: int| 0 <= k < t.in_vreg[v as int].len() implies (
        #[trigger] t.in_vreg[v as int][k]) < t.ranges.len()
            && t.ranges[t.in_vreg[v as int][k] as int].vreg.0 == v by {
            let k0 = if k < i {
                k
            } else {
                k + 1
            };
            assert(t.in_vreg[v as int][k] == g.in_vreg[v as int][k0]);
            assert(h.ranges[g.in_vreg[v as int][k0] as int].vreg
                == g1.ranges[g.in_vreg[v as int][k0] as int].vreg);
        }
        assert(h.ranges[merged as int].vreg == g1.ranges[merged as int].vreg);
    }
}

proof fn lemma_scanned(g: GraphState, v: u32, range: CodeRange, pass: bool, i: int, merged: u32)
    requires
        fits(g),
        listed_for(g, v),
        v < g.in_vreg.len(),
        merged != NIL ==> merged < g.ranges.len() && g.ranges[merged as int].vreg.0 == v,
    ensures
        graph_scan(g, v, range, pass, i, merged) matches Ok(s) ==> {
            &&& fits(s.g)
            &&& s.g.in_range.len() == s.g.ranges.len()
            &&& s.g.uses == g.uses
        },
    decreases g.in_vreg[v as int].len() - i,
{
    let list = g.in_vreg[v as int];
    if 0 <= i < list.len() {
        let r = list[i];
        let lr = g.ranges[r as int];
        assert(g.in_vreg[v as int][i] == r);
        if range.from.ix() >= lr.range.to.ix() && pass {
            lemma_scanned(g, v, range, pass, i + 1, merged);
        } else if range.to.ix() <= lr.range.from.ix() {
        } else if merged == NIL {
            let grown = LiveRange { range: hull(lr.range, range), ..lr };
            let h = graph_set_range(g, r, grown);
            lemma_grown(g, r, grown);
            assert(listed_for(h, v));
            lemma_scanned(h, v, range, pass, i + 1, r);
        } else {
            lemma_joined(g, v, i, merged);
            if let Ok(h) = graph_join(g, v, i, merged) {
                if h.in_vreg[v as int].len() == list.len() - 1 {
                    lemma_scanned(h, v, range, pass, i, merged);
                }
            }
        }
    }
}

/// A register that becomes live over a range keeps its uses in its live ranges.
pub proof fn lemma_live_uses(f: FuncModel, g: GraphState, v: u32, range: CodeRange, num_ranges: int)
    requires
        graph_ok(f, g),
        vregs_in_order(g),
        v < f.num_vregs,
        range.within(f.insts),
        uses_fit(f, g),
        graph_add_live(g, v, range, num_ranges) matches Ok(a) ==> a.g.uses == g.uses,
    ensures
        graph_add_live(g, v, range, num_ranges) matches Ok(a) ==> uses_fit(f, a.g),
{
    if defined_first(f) {
        if let Ok(a) = graph_add_live(g, v, range, num_ranges) {
            let pass = num_ranges < COALESCE_LIMIT;
            assert forall|k: int| 0 <= k < g.in_vreg[v as int].len() implies (
            #[trigger] g.in_vreg[v as int][k]) < g.ranges.len()
                && g.ranges[g.in_vreg[v as int][k] as int].vreg.0 == v by {
                lemma_below(g.in_vreg, g.ranges.len() as int, v as int, k);
            }
            lemma_scanned(g, v, range, pass, 0, NIL);
            let s = graph_scan(g, v, range, pass, 0, NIL)->Ok_0;
            if s.merged == NIL {
                let lr = LiveRange { vreg: VRegIndex(v), ..fresh_range(range) };
                lemma_range_fits(s.g, lr);
                let h = graph_add_range(s.g, lr);
                assert(a.g.in_range == h.in_range && a.g.ranges == h.ranges && a.g.uses == h.uses);
            }
            lemma_live_stays(f, g, v, range, num_ranges);
            assert forall|u: int| 0 <= u < a.g.uses.len() implies ({
                let v = (#[trigger] a.g.uses[u]).operand.vreg.vreg;
                v < a.g.in_vreg.len() && mentions(a.g, v as int, u as u32)
            }) by {
                assert(mentions(g, g.uses[u].operand.vreg.vreg as int, u as u32));
            }
        }
    }
}

/// A new use goes into the live range of its register that covers it.
pub proof fn lemma_use_added(f: FuncModel, g: GraphState, into: u32, u: Use)
    requires
        graph_ok(f, g),
        uses_fit(f, g),
        into < g.ranges.len(),
        g.ranges[into as int].range.has(u.pos),
        u.operand.vreg.vreg == g.ranges[into as int].vreg.0,
        f.operands[u.pos.inst.ix()][u.slot as int] == u.operand,
        u.operand.kind is Use,
        u.pos.pos is After <==> used_late(f, u.pos.inst.ix(), u.slot as int),
        u.operand.vreg.vreg < f.num_vregs,
        g.in_vreg[u.operand.vreg.ix()].contains(into),
    ensures
        graph_insert_use(graph_add_use(g, u), into, g.uses.len() as u32) matches Ok(h) ==> uses_fit(
            f,
            h,
        ),
{
    let g1 = graph_add_use(g, u);
    if let Ok(h) = graph_insert_use(g1, into, g.uses.len() as u32) {
        assert forall|k: int| 0 <= k < h.uses.len() implies use_named(f, #[trigger] h.uses[k]) by {
            if k < g.uses.len() {
                assert(h.uses[k] == g.uses[k]);
            }
        }
    }
    if defined_first(f) {
        assert forall|r: int, j: int|
            0 <= r < g.in_range.len() && 0 <= j < g.in_range[r].len() implies g1.uses[(
        #[trigger] g.in_range[r][j]) as int] == g.uses[g.in_range[r][j] as int] by {
            lemma_below(g.in_range, g.uses.len() as int, r, j);
        }
        assert(fits(g1));
        assert(g1.uses[g.uses.len() as int] == u);
        lemma_use_inserted(g1, into, g.uses.len() as u32);
        if let Ok(h) = graph_insert_use(g1, into, g.uses.len() as u32) {
            let list = g.in_range[into as int];
            let p = use_position(g1.uses, list, u.pos);
            lemma_first_use_after(g1.uses, list, u.pos, 0);
            let new = list.insert(p, g.uses.len() as u32);
            assert(h.in_range[into as int] == new);
            assert forall|k: int| 0 <= k < h.uses.len() implies ({
                let v = (#[trigger] h.uses[k]).operand.vreg.vreg;
                v < h.in_vreg.len() && mentions(h, v as int, k as u32)
            }) by {
                if k < g.uses.len() {
                    assert(h.uses[k] == g.uses[k]);
                    let v = g.uses[k].operand.vreg.vreg as int;
                    assert(mentions(g, v, k as u32));
                    let i = choose|i: int|
                        0 <= i < g.in_vreg[v].len() && g.in_range[(
                        #[trigger] g.in_vreg[v][i]) as int].contains(k as u32);
                    let r = g.in_vreg[v][i];
                    lemma_below(g.in_vreg, g.ranges.len() as int, v, i);
                    if r == into {
                        let j = choose|j: int| 0 <= j < list.len() && list[j] == k as u32;
                        if j < p {
                            assert(new[j] == k as u32);
                        } else {
                            assert(new[j + 1] == k as u32);
                        }
                    }
                    assert(h.in_range[h.in_vreg[v][i] as int].contains(k as u32));
                } else {
                    let v = u.operand.vreg.ix();
                    let i = choose|i: int| 0 <= i < g.in_vreg[v].len() && g.in_vreg[v][i] == into;
                    assert(new[p] == k as u32);
                    assert(h.in_range[h.in_vreg[v][i] as int].contains(k as u32));
                }
            }
        }
    }
}

/// A live range that begins with a block and is made to begin at a definition keeps its uses.
pub proof fn lemma_trimmed(
    f: FuncModel,
    g: GraphState,
    b: int,
    i: int,
    k: int,
    pos: ProgPoint,
    r: u32,
    lr: LiveRange,
)
    requires
        graph_ok(f, g),
        uses_fit(f, g),
        0 <= b < f.blocks,
        f.insns[b].has(i),
        0 <= k < f.operands[i].len(),
        f.operands[i][k].kind is Def,
        pos.inst.ix() == i,
        r < g.ranges.len(),
        f.operands[i][k].vreg.vreg == g.ranges[r as int].vreg.0,
        lr.vreg == g.ranges[r as int].vreg,
        lr.range.to == g.ranges[r as int].range.to,
        lr.range.from == pos && g.ranges[r as int].range.from == ProgPoint::before(f.insns[b].from)
            || lr.range.from == g.ranges[r as int].range.from,
    ensures
        uses_fit(f, graph_set_range(g, r, lr)),
{
    let h = graph_set_range(g, r, lr);
    if defined_first(f) {
        assert forall|x: int, j: int|
            0 <= x < h.in_range.len() && 0 <= j < h.in_range[x].len() implies h.ranges[x].range.has(
            h.uses[(#[trigger] h.in_range[x][j]) as int].pos,
        ) && h.uses[h.in_range[x][j] as int].operand.vreg.vreg == h.ranges[x].vreg.0 by {
            let u = g.in_range[x][j];
            lemma_below(g.in_range, g.uses.len() as int, x, j);
            assert(g.ranges[x].range.has(g.uses[u as int].pos));
            if x == r && lr.range.from == pos {
                let use_inst = g.uses[u as int].pos.inst.ix();
                let slot = g.uses[u as int].slot as int;
                assert(mention_ok(f, g.uses[u as int].pos, g.uses[u as int].slot));
                let op = f.operands[use_inst][slot];
                assert(use_named(f, g.uses[u as int]));
                if g.uses[u as int].pos.ix() < pos.ix() {
                    assert(f.insns[b].has(use_inst));
                    let _ = (f.insns[b], f.operands[i][k], f.operands[use_inst][slot]);
                    assert(i < use_inst);
                }
            }
        }
    }
}

} // verus!
