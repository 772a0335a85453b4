//! Every use and every definition stays with a live range of its register.
use crate::code_range::CodeRange;
use crate::data::{Def, LiveRange};
use crate::dom::ssa_form;
use crate::func::FuncModel;
use crate::graph::{
    fresh_range, graph_add_range, graph_insert_use, graph_ok, graph_remove_use, graph_set_range,
    lemma_first_use_after, range_ok, use_position, GraphState, COALESCE_LIMIT,
};
use crate::index::VRegIndex;
use crate::lists::{lemma_below, lemma_neq, NIL};
use crate::live::{
    graph_add_live, graph_distribute, graph_join, graph_move_uses, graph_scan, hull,
    lemma_distribute_frame, lemma_move_uses_frame,
};
use crate::order::{lemma_grow_step, lemma_join_step, scan_ok, vregs_in_order};
use crate::parts::mentions;
use crate::uses::{fits, lemma_grown, lemma_joined, lemma_use_inserted, lemma_use_removed};
use vstd::prelude::*;

verus! {

/// Does a live range of register `v` have definition `d`?
pub open spec fn defines(g: GraphState, v: int, d: u32) -> bool {
    exists|i: int|
        0 <= i < g.in_vreg[v].len() && g.ranges[(#[trigger] g.in_vreg[v][i]) as int].def.0 == d
}

/// Every definition of a live range lies in it.
pub open spec fn defs_placed(g: GraphState) -> bool {
    forall|r: int|
        0 <= r < g.ranges.len() && (#[trigger] g.ranges[r]).def.is_valid() ==> g.ranges[r].range.has(
            g.defs[g.ranges[r].def.ix()].pos,
        )
}

/// Every live range with a definition has that of its register, and it lies in the live range.
pub open spec fn one_def(g: GraphState) -> bool {
    &&& defs_placed(g)
    &&& forall|r: int|
        0 <= r < g.ranges.len() && (#[trigger] g.ranges[r]).def.is_valid() ==> g.ranges[r].def
            == g.vregs[g.ranges[r].vreg.ix()].def
}

/// The live ranges in the lists of the registers belong to them.
pub open spec fn all_listed(g: GraphState) -> bool {
    forall|v: int, k: int|
        0 <= v < g.in_vreg.len() && 0 <= k < g.in_vreg[v].len() ==> (#[trigger] g.in_vreg[v][k])
            < g.ranges.len() && g.ranges[g.in_vreg[v][k] as int].vreg.0 == v
}

/// The registers keep their uses.
pub open spec fn uses_stay(g: GraphState, h: GraphState) -> bool {
    &&& h.uses == g.uses
    &&& h.in_vreg.len() == g.in_vreg.len()
    &&& forall|v: int, u: u32|
        0 <= v < g.in_vreg.len() && mentions(g, v, u) ==> #[trigger] mentions(h, v, u)
}

/// The registers keep their definitions.
pub open spec fn defs_stay(g: GraphState, h: GraphState) -> bool {
    &&& h.defs == g.defs
    &&& h.in_vreg.len() == g.in_vreg.len()
    &&& forall|v: int, d: u32|
        0 <= v < g.in_vreg.len() && d != u32::MAX && defines(g, v, d) ==> #[trigger] defines(
            h,
            v,
            d,
        )
}

/// Other registers keep their lists of live ranges, and the live ranges their extents.
pub open spec fn others_listed(g: GraphState, h: GraphState, v: u32) -> bool {
    &&& h.in_vreg.len() == g.in_vreg.len()
    &&& h.ranges.len() >= g.ranges.len()
    &&& forall|r: int|
        0 <= r < g.ranges.len() ==> (#[trigger] h.ranges[r]).vreg == g.ranges[r].vreg && (
        g.ranges[r].vreg.0 != v ==> h.ranges[r].range == g.ranges[r].range)
    &&& forall|w: int| 0 <= w < g.in_vreg.len() && w != v ==> #[trigger] h.in_vreg[w] == g.in_vreg[w]
}

/// All uses of a live range go over to one that covers it.
proof fn lemma_all_moved(g: GraphState, from: u32, into: u32, range: CodeRange)
    requires
        fits(g),
        g.in_range.len() == g.ranges.len(),
        from < g.ranges.len(),
        into < g.ranges.len(),
        from != into,
        g.ranges[into as int].range == range,
        g.ranges[into as int].vreg == g.ranges[from as int].vreg,
        range.from.ix() <= g.ranges[from as int].range.from.ix(),
        g.ranges[from as int].range.to.ix() <= range.to.ix(),
    ensures
        graph_move_uses(g, from, into, range, 0) matches Ok(h) ==> {
            &&& h.in_range.len() == g.in_range.len()
            &&& forall|u: u32|
                g.in_range[from as int].contains(u) || g.in_range[into as int].contains(u)
                    ==> #[trigger] h.in_range[into as int].contains(u)
            &&& forall|r: int|
                0 <= r < g.in_range.len() && r != from && r != into ==> #[trigger] h.in_range[r]
                    == g.in_range[r]
        },
    decreases g.in_range[from as int].len(),
{
    let list = g.in_range[from as int];
    if list.len() > 0 {
        assert(g.in_range[from as int][0] == list[0]);
        let pos = g.uses[list[0] as int].pos;
        assert(range.has(pos));
        lemma_use_removed(g, from, 0);
        let g1 = graph_remove_use(g, from, 0);
        assert(g.uses[g.in_range[from as int][0] as int].operand.vreg.vreg
            == g.ranges[from as int].vreg.0);
        lemma_use_inserted(g1, into, list[0]);
        if let Ok(h) = graph_insert_use(g1, into, list[0]) {
            lemma_all_moved(h, from, into, range);
            let old = g.in_range[into as int];
            let p = use_position(g.uses, old, pos);
            lemma_first_use_after(g.uses, old, pos, 0);
            assert(h.in_range[into as int] == old.insert(p, list[0]));
            assert forall|u: u32| list.contains(u) || old.contains(u) implies h.in_range[from as int].contains(
            u) || h.in_range[into as int].contains(u) by {
                if list.contains(u) {
                    let k = choose|k: int| 0 <= k < list.len() && list[k] == u;
                    if k == 0 {
                        assert(h.in_range[into as int][p] == u);
                    } else {
                        assert(h.in_range[from as int][k - 1] == u);
                    }
                } else {
                    let k = choose|k: int| 0 <= k < old.len() && old[k] == u;
                    if k < p {
                        assert(h.in_range[into as int][k] == u);
                    } else {
                        assert(h.in_range[into as int][k + 1] == u);
                    }
                }
            }
        }
    }
}

/// A live range whose extent or definition changes keeps its uses.
proof fn lemma_set_stays(g: GraphState, r: u32, lr: LiveRange)
    requires
        r < g.ranges.len(),
    ensures
        uses_stay(g, graph_set_range(g, r, lr)),
{
    let h = graph_set_range(g, r, lr);
    assert forall|v: int, u: u32|
        0 <= v < g.in_vreg.len() && mentions(g, v, u) implies #[trigger] mentions(h, v, u) by {
        let i = choose|i: int|
            0 <= i < g.in_vreg[v].len() && g.in_range[(
            #[trigger] g.in_vreg[v][i]) as int].contains(u);
        assert(h.in_range[h.in_vreg[v][i] as int].contains(u));
    }
}

/// A live range whose extent changes keeps its definition.
proof fn lemma_set_defs_stay(g: GraphState, r: u32, lr: LiveRange)
    requires
        all_listed(g),
        r < g.ranges.len(),
        lr.def == g.ranges[r as int].def,
        lr.vreg == g.ranges[r as int].vreg,
        lr.range.from.ix() <= g.ranges[r as int].range.from.ix(),
        g.ranges[r as int].range.to.ix() <= lr.range.to.ix(),
    ensures
        defs_stay(g, graph_set_range(g, r, lr)),
        one_def(g) ==> one_def(graph_set_range(g, r, lr)),
{
    let h = graph_set_range(g, r, lr);
    assert forall|v: int, d: u32|
        0 <= v < g.in_vreg.len() && d != u32::MAX && defines(g, v, d) implies #[trigger] defines(
        h,
        v,
        d,
    ) by {
        let i = choose|i: int|
            0 <= i < g.in_vreg[v].len() && g.ranges[(#[trigger] g.in_vreg[v][i]) as int].def.0 == d;
        assert(h.ranges[h.in_vreg[v][i] as int].def.0 == d);
    }
    if one_def(g) {
        assert forall|x: int|
            0 <= x < h.ranges.len() && (#[trigger] h.ranges[x]).def.is_valid() implies h.ranges[x].def
            == h.vregs[h.ranges[x].vreg.ix()].def && h.ranges[x].range.has(
            h.defs[h.ranges[x].def.ix()].pos,
        ) by {
            assert(g.ranges[x].def.is_valid());
        }
    }
}

/// The live range that another one is joined to covers it.
spec fn join_covers(g: GraphState, v: u32, i: int, merged: u32) -> bool {
    forall|k: int|
        i <= k < g.in_vreg[v as int].len() ==> g.ranges[merged as int].range.from.ix()
            <= g.ranges[(#[trigger] g.in_vreg[v as int][k]) as int].range.from.ix()
}

/// A live range that is joined to another one hands over its uses and its definition.
proof fn lemma_join_stays(g: GraphState, v: u32, i: int, merged: u32)
    requires
        all_listed(g),
        g.in_range.len() == g.ranges.len(),
        v < g.in_vreg.len(),
        0 < i < g.in_vreg[v as int].len(),
        g.in_vreg[v as int][i - 1] == merged,
        g.in_vreg[v as int][i] != merged,
        join_covers(g, v, i, merged),
    ensures
        graph_join(g, v, i, merged) matches Ok(h) ==> {
            &&& all_listed(h)
            &&& fits(g) ==> uses_stay(g, h)
            &&& one_def(g) ==> one_def(h) && defs_stay(g, h)
            &&& h.in_vreg == g.in_vreg.update(v as int, g.in_vreg[v as int].remove(i))
            &&& h.ranges.len() == g.ranges.len()
            &&& forall|r: int|
                0 <= r < g.ranges.len() ==> (#[trigger] h.ranges[r]).vreg == g.ranges[r].vreg && (r
                    != merged ==> h.ranges[r].range == g.ranges[r].range)
            &&& h.ranges[merged as int].range.from == g.ranges[merged as int].range.from
        },
{
    let list = g.in_vreg[v as int];
    let r = list[i];
    assert(g.in_vreg[v as int][i] == r);
    assert(g.in_vreg[v as int][i - 1] == merged);
    let lr = g.ranges[r as int];
    let m = g.ranges[merged as int];
    let grown = LiveRange {
        range: CodeRange {
            from: m.range.from,
            to: if lr.range.to.ix() > m.range.to.ix() {
                lr.range.to
            } else {
                m.range.to
            },
        },
        def: if lr.def.is_valid() {
            lr.def
        } else {
            m.def
        },
        ..m
    };
    let g1 = graph_set_range(g, merged, grown);
    if let Ok(h1) = graph_distribute(g1, v, r, merged) {
        lemma_distribute_frame(g1, v, r, merged);
        lemma_move_uses_frame(g1, r, merged, grown.range, 0);
        let h = graph_join(g, v, i, merged)->Ok_0;
        let rest = list.remove(i);
        // Where a live range stood before.
        assert forall|w: int, k: int| 0 <= w < h.in_vreg.len() && 0 <= k < h.in_vreg[w].len() implies {
            let k0 = if w == v && k >= i {
                k + 1
            } else {
                k
            };
            &&& k0 < g.in_vreg[w].len()
            &&& #[trigger] h.in_vreg[w][k] == g.in_vreg[w][k0]
        } by {
            if w == v {
                assert(h.in_vreg[w][k] == rest[k]);
            }
        }
        assert(all_listed(h)) by {
            assert forall|w: int, k: int| 0 <= w < h.in_vreg.len() && 0 <= k < h.in_vreg[w].len() implies (
            #[trigger] h.in_vreg[w][k]) < h.ranges.len() && h.ranges[h.in_vreg[w][k] as int].vreg.0
                == w by {
                let k0 = if w == v && k >= i {
                    k + 1
                } else {
                    k
                };
                let x = g.in_vreg[w][k0];
                assert(h.ranges[x as int].vreg == g1.ranges[x as int].vreg);
            }
        }
        assert forall|x: int| 0 <= x < g.ranges.len() implies (#[trigger] h.ranges[x]).vreg
            == g.ranges[x].vreg && (x != merged ==> h.ranges[x].range == g.ranges[x].range) by {
            assert(h1.ranges[x].range == g1.ranges[x].range);
            assert(h1.ranges[x].vreg == g1.ranges[x].vreg);
        }
        assert(h1.ranges[merged as int].range == g1.ranges[merged as int].range);
        if fits(g) {
            lemma_grown(g, merged, grown);
            lemma_all_moved(g1, r, merged, grown.range);
            assert forall|w: int, u: u32|
                0 <= w < g.in_vreg.len() && mentions(g, w, u) implies #[trigger] mentions(h, w, u) by {
                let k = choose|k: int|
                    0 <= k < g.in_vreg[w].len() && g.in_range[(
                    #[trigger] g.in_vreg[w][k]) as int].contains(u);
                let x = g.in_vreg[w][k];
                if x == r || x == merged {
                    assert(h.in_range[merged as int].contains(u));
                    assert(h.in_vreg[v as int][i - 1] == merged);
                } else {
                    assert(h.in_range[x as int] == g.in_range[x as int]);
                    let k1 = if w == v && k > i {
                        k - 1
                    } else {
                        k
                    };
                    assert(h.in_vreg[w][k1] == x);
                }
            }
        }
        if one_def(g) {
            assert(g.ranges[r as int].vreg.0 == v && g.ranges[merged as int].vreg.0 == v);
            let d = g.vregs[v as int].def;
            assert(h.ranges[merged as int].def == grown.def || (lr.def.is_valid()
                && h.ranges[merged as int].def == d));
            assert(lr.def.is_valid() ==> h.ranges[merged as int].def == d);
            assert(m.def.is_valid() ==> h.ranges[merged as int].def == d);
            assert forall|x: int| 0 <= x < g.ranges.len() && x != merged implies (
            #[trigger] h.ranges[x]).def == g.ranges[x].def && h.ranges[x].vreg == g.ranges[x].vreg by {
                assert(h1.ranges[x].def == g1.ranges[x].def);
            }
            assert(h.ranges[merged as int].vreg == g1.ranges[merged as int].vreg);
            assert forall|x: int|
                0 <= x < h.ranges.len() && (#[trigger] h.ranges[x]).def.is_valid() implies h.ranges[x].def
                == h.vregs[h.ranges[x].vreg.ix()].def && h.ranges[x].range.has(
                h.defs[h.ranges[x].def.ix()].pos,
            ) by {
                if x != merged {
                    assert(g.ranges[x].def.is_valid());
                    assert(h.ranges[x].range == g.ranges[x].range);
                } else {
                    assert(h.ranges[merged as int].range == grown.range);
                    assert(lr.def.is_valid() || m.def.is_valid());
                    assert(g.ranges[r as int].range.has(g.defs[d.ix()].pos)
                        || g.ranges[merged as int].range.has(g.defs[d.ix()].pos));
                }
            }
            assert forall|w: int, e: u32|
                0 <= w < g.in_vreg.len() && e != u32::MAX && defines(g, w, e) implies #[trigger] defines(
                h,
                w,
                e,
            ) by {
                let k = choose|k: int|
                    0 <= k < g.in_vreg[w].len() && g.ranges[(
                    #[trigger] g.in_vreg[w][k]) as int].def.0 == e;
                let x = g.in_vreg[w][k];
                if x == r || x == merged {
                    assert(h.in_vreg[v as int][i - 1] == merged);
                } else {
                    let k1 = if w == v && k > i {
                        k - 1
                    } else {
                        k
                    };
                    assert(h.in_vreg[w][k1] == x);
                }
            }
        }
    }
}

/// What one step keeps and the next one keeps, both keep.
proof fn lemma_stays_trans(g: GraphState, h: GraphState, k: GraphState)
    ensures
        uses_stay(g, h) && uses_stay(h, k) ==> uses_stay(g, k),
        defs_stay(g, h) && defs_stay(h, k) ==> defs_stay(g, k),
{
}

/// The first live range that a new range reaches into grows over it.
proof fn lemma_grow_stays(g: GraphState, v: u32, range: CodeRange, pass: bool, i: int)
    requires
        all_listed(g),
        scan_ok(g, v, range, pass, i, NIL),
        i < g.in_vreg[v as int].len(),
    ensures
        ({
            let r = g.in_vreg[v as int][i];
            let lr = g.ranges[r as int];
            let h = graph_set_range(g, r, LiveRange { range: hull(lr.range, range), ..lr });
            &&& all_listed(h)
            &&& fits(g) ==> fits(h) && uses_stay(g, h)
            &&& one_def(g) ==> one_def(h) && defs_stay(g, h)
            &&& join_covers(h, v, i + 1, r)
            &&& others_listed(g, h, v)
        }),
{
    let list = g.in_vreg[v as int];
    let r = list[i];
    let lr = g.ranges[r as int];
    assert(g.in_vreg[v as int][i] == r);
    let grown = LiveRange { range: hull(lr.range, range), ..lr };
    let h = graph_set_range(g, r, grown);
    lemma_set_stays(g, r, grown);
    lemma_set_defs_stay(g, r, grown);
    if fits(g) {
        lemma_grown(g, r, grown);
    }
    assert forall|k: int| i < k < list.len() implies h.ranges[r as int].range.from.ix()
        <= h.ranges[(#[trigger] h.in_vreg[v as int][k]) as int].range.from.ix() by {
        lemma_neq(g.in_vreg, g.ranges.len() as int, v as int, i, v as int, k);
        assert(g.ranges[list[i] as int].range.precedes(g.ranges[list[k] as int].range));
        assert(g.ranges[r as int].range.from.ix() < g.ranges[r as int].range.to.ix());
    }
}

/// A later one is joined to it.
proof fn lemma_joined_stays(
    g: GraphState,
    v: u32,
    range: CodeRange,
    pass: bool,
    i: int,
    merged: u32,
)
    requires
        all_listed(g),
        scan_ok(g, v, range, pass, i, merged),
        merged != NIL,
        i < g.in_vreg[v as int].len(),
        join_covers(g, v, i, merged),
    ensures
        graph_join(g, v, i, merged) matches Ok(h) ==> {
            &&& all_listed(h)
            &&& fits(g) ==> fits(h) && uses_stay(g, h)
            &&& one_def(g) ==> one_def(h) && defs_stay(g, h)
            &&& join_covers(h, v, i, merged)
            &&& others_listed(g, h, v)
        },
{
    let list = g.in_vreg[v as int];
    assert(g.in_vreg[v as int][i - 1] == merged);
    lemma_neq(g.in_vreg, g.ranges.len() as int, v as int, i, v as int, i - 1);
    lemma_join_stays(g, v, i, merged);
    if let Ok(h) = graph_join(g, v, i, merged) {
        if fits(g) {
            assert forall|k: int| 0 <= k < g.in_vreg[v as int].len() implies (
            #[trigger] g.in_vreg[v as int][k]) < g.ranges.len()
                && g.ranges[g.in_vreg[v as int][k] as int].vreg.0 == v by {}
            lemma_joined(g, v, i, merged);
        }
        assert forall|k: int| i <= k < h.in_vreg[v as int].len() implies h.ranges[merged as int].range.from.ix()
            <= h.ranges[(#[trigger] h.in_vreg[v as int][k]) as int].range.from.ix() by {
            assert(h.in_vreg[v as int][k] == list[k + 1]);
            assert(g.in_vreg[v as int][k + 1] == list[k + 1]);
            lemma_neq(g.in_vreg, g.ranges.len() as int, v as int, k + 1, v as int, i - 1);
        }
    }
}

proof fn lemma_scan_stays(g: GraphState, v: u32, range: CodeRange, pass: bool, i: int, merged: u32)
    requires
        all_listed(g),
        scan_ok(g, v, range, pass, i, merged),
        range.from.ix() < range.to.ix(),
        merged != NIL ==> join_covers(g, v, i, merged),
    ensures
        graph_scan(g, v, range, pass, i, merged) matches Ok(s) ==> {
            &&& all_listed(s.g)
            &&& fits(g) ==> uses_stay(g, s.g)
            &&& one_def(g) ==> one_def(s.g) && defs_stay(g, s.g)
            &&& others_listed(g, s.g, v)
        },
    decreases g.in_vreg[v as int].len() - i,
{
    let list = g.in_vreg[v as int];
    if i < list.len() {
        let r = list[i];
        let lr = g.ranges[r as int];
        if range.from.ix() >= lr.range.to.ix() && pass {
            assert(merged == NIL) by {
                if merged != NIL {
                    lemma_below(g.in_vreg, g.ranges.len() as int, v as int, i);
                }
            }
            assert(scan_ok(g, v, range, pass, i + 1, merged));
            lemma_scan_stays(g, v, range, pass, i + 1, merged);
        } else if range.to.ix() <= lr.range.from.ix() {
        } else if merged == NIL {
            let h = graph_set_range(g, r, LiveRange { range: hull(lr.range, range), ..lr });
            lemma_grow_step(g, v, range, pass, i);
            lemma_grow_stays(g, v, range, pass, i);
            lemma_scan_stays(h, v, range, pass, i + 1, r);
            if let Ok(s) = graph_scan(h, v, range, pass, i + 1, r) {
                lemma_stays_trans(g, h, s.g);
            }
        } else {
            lemma_joined_stays(g, v, range, pass, i, merged);
            if let Ok(h) = graph_join(g, v, i, merged) {
                lemma_join_step(g, v, range, pass, i, merged);
                lemma_scan_stays(h, v, range, pass, i, merged);
                if let Ok(s) = graph_scan(h, v, range, pass, i, merged) {
                    lemma_stays_trans(g, h, s.g);
                }
            }
        }
    }
}

/// A register that becomes live over a range keeps its uses and its definition.
#[verifier::rlimit(40)]
pub proof fn lemma_live_stays(f: FuncModel, g: GraphState, v: u32, range: CodeRange, num_ranges: int)
    requires
        graph_ok(f, g),
        vregs_in_order(g),
        v < f.num_vregs,
        range.within(f.insts),
    ensures
        graph_add_live(g, v, range, num_ranges) matches Ok(a) ==> {
            &&& fits(g) ==> uses_stay(g, a.g)
            &&& one_def(g) ==> one_def(a.g) && defs_stay(g, a.g)
            &&& others_listed(g, a.g, v)
        },
{
    if let Ok(a) = graph_add_live(g, v, range, num_ranges) {
        let pass = num_ranges < COALESCE_LIMIT;
        assert(crate::order::in_order(g.ranges, g.in_vreg[v as int]));
        assert forall|r: int| 0 <= r < g.ranges.len() implies (
        #[trigger] g.ranges[r]).range.from.ix() < g.ranges[r].range.to.ix() by {
            assert(range_ok(f, g, r));
        }
        assert forall|w: int, k: int| 0 <= w < g.in_vreg.len() && 0 <= k < g.in_vreg[w].len() implies (
        #[trigger] g.in_vreg[w][k]) < g.ranges.len() && g.ranges[g.in_vreg[w][k] as int].vreg.0 == w by {
            lemma_below(g.in_vreg, g.ranges.len() as int, w, k);
        }
        lemma_scan_stays(g, v, range, pass, 0, NIL);
        crate::order::lemma_scan_order(g, v, range, pass, 0, NIL);
        let s = graph_scan(g, v, range, pass, 0, NIL)->Ok_0;
        if s.merged == NIL {
            let lr = LiveRange { vreg: VRegIndex(v), ..fresh_range(range) };
            let h = graph_add_range(s.g, lr);
            let new = h.in_vreg[v as int].insert(s.at, a.lr);
            assert forall|w: int, k: int| 0 <= w < s.g.in_vreg.len() && 0 <= k < s.g.in_vreg[w].len() implies {
                let k1 = if w == v && k >= s.at {
                    k + 1
                } else {
                    k
                };
                let x = #[trigger] s.g.in_vreg[w][k];
                &&& 0 <= k1 < a.g.in_vreg[w].len()
                &&& a.g.in_vreg[w][k1] == x
                &&& a.g.ranges[x as int] == s.g.ranges[x as int]
                &&& a.g.in_range[x as int] == s.g.in_range[x as int]
            } by {
                if w == v {
                    assert(a.g.in_vreg[w] == new);
                }
            }
            if fits(g) {
                assert forall|w: int, u: u32|
                    0 <= w < g.in_vreg.len() && mentions(g, w, u) implies #[trigger] mentions(
                    a.g,
                    w,
                    u,
                ) by {
                    assert(mentions(s.g, w, u));
                    let k = choose|k: int|
                        0 <= k < s.g.in_vreg[w].len() && s.g.in_range[(
                        #[trigger] s.g.in_vreg[w][k]) as int].contains(u);
                    let k1 = if w == v && k >= s.at {
                        k + 1
                    } else {
                        k
                    };
                    assert(a.g.in_vreg[w][k1] == s.g.in_vreg[w][k]);
                }
            }
            if one_def(g) {
                assert forall|w: int, d: u32|
                    0 <= w < g.in_vreg.len() && d != u32::MAX && defines(g, w, d) implies #[trigger] defines(
                    a.g,
                    w,
                    d,
                ) by {
                    assert(defines(s.g, w, d));
                    let k = choose|k: int|
                        0 <= k < s.g.in_vreg[w].len() && s.g.ranges[(
                        #[trigger] s.g.in_vreg[w][k]) as int].def.0 == d;
                    let k1 = if w == v && k >= s.at {
                        k + 1
                    } else {
                        k
                    };
                    assert(a.g.in_vreg[w][k1] == s.g.in_vreg[w][k]);
                }
            }
        }
    }
}

/// The definition of a register is one of it.
pub open spec fn def_of(g: GraphState, v: int) -> bool {
    let d = g.vregs[v].def;
    d.is_valid() ==> d.ix() < g.defs.len() && g.defs[d.ix()].operand.vreg.vreg == v
}

/// Every definition is that of its register, and the live ranges of a register have no other one.
pub open spec fn defs_marked(g: GraphState) -> bool {
    &&& one_def(g)
    &&& forall|v: int| 0 <= v < g.vregs.len() ==> #[trigger] def_of(g, v)
    &&& forall|d: int|
        0 <= d < g.defs.len() ==> {
            let v = (#[trigger] g.defs[d]).operand.vreg.vreg;
            v < g.vregs.len() && g.vregs[v as int].def.0 == d
        }
}

/// Every definition is that of a live range of its register.
pub open spec fn defs_held(g: GraphState) -> bool {
    forall|d: int|
        0 <= d < g.defs.len() ==> {
            let v = (#[trigger] g.defs[d]).operand.vreg.vreg;
            v < g.in_vreg.len() && defines(g, v as int, d as u32)
        }
}

/// In a function in static single assignment form definitions are marked.
#[verifier::opaque]
pub open spec fn marks(f: FuncModel, g: GraphState) -> bool {
    ssa_form(f) ==> defs_marked(g)
}

/// In a function in static single assignment form definitions are held.
#[verifier::opaque]
pub open spec fn held(f: FuncModel, g: GraphState) -> bool {
    ssa_form(f) ==> defs_held(g)
}

/// A register becomes live over a range.
pub proof fn lemma_marks_live(f: FuncModel, g: GraphState, v: u32, range: CodeRange, num_ranges: int)
    requires
        graph_ok(f, g),
        vregs_in_order(g),
        v < f.num_vregs,
        range.within(f.insts),
        marks(f, g),
        graph_add_live(g, v, range, num_ranges) matches Ok(a) ==> a.g.vregs == g.vregs && a.g.defs
            == g.defs,
    ensures
        graph_add_live(g, v, range, num_ranges) matches Ok(a) ==> {
            &&& marks(f, a.g)
            &&& held(f, g) ==> held(f, a.g)
            &&& others_listed(g, a.g, v)
        },
{
    reveal(marks);
    reveal(held);
    lemma_live_stays(f, g, v, range, num_ranges);
    if let Ok(a) = graph_add_live(g, v, range, num_ranges) {
        if ssa_form(f) {
            assert forall|w: int| 0 <= w < a.g.vregs.len() implies #[trigger] def_of(a.g, w) by {
                assert(def_of(g, w));
            }
        }
        if ssa_form(f) && defs_held(g) {
            assert forall|d: int| 0 <= d < a.g.defs.len() implies ({
                let v = (#[trigger] a.g.defs[d]).operand.vreg.vreg;
                v < a.g.in_vreg.len() && defines(a.g, v as int, d as u32)
            }) by {
                assert(defines(g, g.defs[d].operand.vreg.vreg as int, d as u32));
            }
        }
    }
}

/// A live range without a definition is added.
pub proof fn lemma_marks_range(f: FuncModel, g: GraphState, lr: LiveRange)
    requires
        graph_ok(f, g),
        marks(f, g),
        !lr.def.is_valid(),
    ensures
        marks(f, graph_add_range(g, lr)),
        held(f, g) ==> held(f, graph_add_range(g, lr)),
{
    reveal(marks);
    reveal(held);
    let h = graph_add_range(g, lr);
    if ssa_form(f) {
        assert forall|w: int| 0 <= w < h.vregs.len() implies #[trigger] def_of(h, w) by {
            assert(def_of(g, w));
        }
        assert forall|r: int|
            0 <= r < h.ranges.len() && (#[trigger] h.ranges[r]).def.is_valid() implies h.ranges[r].def
            == h.vregs[h.ranges[r].vreg.ix()].def && h.ranges[r].range.has(
            h.defs[h.ranges[r].def.ix()].pos,
        ) by {
            assert(h.ranges[r] == g.ranges[r]);
        }
        if defs_held(g) {
            assert forall|d: int| 0 <= d < h.defs.len() implies ({
                let v = (#[trigger] h.defs[d]).operand.vreg.vreg;
                v < h.in_vreg.len() && defines(h, v as int, d as u32)
            }) by {
                let v = g.defs[d].operand.vreg.vreg as int;
                let i = choose|i: int|
                    0 <= i < g.in_vreg[v].len() && g.ranges[(
                    #[trigger] g.in_vreg[v][i]) as int].def.0 == d as u32;
                lemma_below(g.in_vreg, g.ranges.len() as int, v, i);
                assert(h.ranges[h.in_vreg[v][i] as int].def.0 == d as u32);
            }
        }
    }
}

/// What else changes does no harm.
pub proof fn lemma_marks_same(f: FuncModel, g: GraphState, h: GraphState)
    requires
        graph_ok(f, g),
        marks(f, g),
        h.in_vreg == g.in_vreg,
        h.defs == g.defs,
        h.vregs.len() == g.vregs.len(),
        h.ranges.len() == g.ranges.len(),
        forall|r: int|
            0 <= r < g.ranges.len() ==> {
                &&& (#[trigger] h.ranges[r]).def == g.ranges[r].def
                &&& h.ranges[r].vreg == g.ranges[r].vreg
                &&& h.ranges[r].range == g.ranges[r].range
            },
        forall|v: int| 0 <= v < g.vregs.len() ==> (#[trigger] h.vregs[v]).def == g.vregs[v].def,
    ensures
        marks(f, h),
        held(f, g) ==> held(f, h),
{
    reveal(marks);
    reveal(held);
    if ssa_form(f) {
        assert forall|r: int|
            0 <= r < h.ranges.len() && (#[trigger] h.ranges[r]).def.is_valid() implies h.ranges[r].def
            == h.vregs[h.ranges[r].vreg.ix()].def && h.ranges[r].range.has(
            h.defs[h.ranges[r].def.ix()].pos,
        ) by {
            assert(g.ranges[r].def.is_valid());
            assert(range_ok(f, g, r));
            assert(h.vregs[h.ranges[r].vreg.ix()].def == g.vregs[g.ranges[r].vreg.ix()].def);
        }
        assert forall|d: int| 0 <= d < h.defs.len() implies ({
            let v = (#[trigger] h.defs[d]).operand.vreg.vreg;
            v < h.vregs.len() && h.vregs[v as int].def.0 == d
        }) by {
            let v = g.defs[d].operand.vreg.vreg;
            assert(g.vregs[v as int].def.0 == d);
            assert(h.vregs[v as int].def == g.vregs[v as int].def);
        }
        assert forall|v: int| 0 <= v < h.vregs.len() implies #[trigger] def_of(h, v) by {
            assert(def_of(g, v));
            assert(h.vregs[v].def == g.vregs[v].def);
        }
        if defs_held(g) {
            assert forall|d: int| 0 <= d < h.defs.len() implies ({
                let v = (#[trigger] h.defs[d]).operand.vreg.vreg;
                v < h.in_vreg.len() && defines(h, v as int, d as u32)
            }) by {
                let v = g.defs[d].operand.vreg.vreg as int;
                let i = choose|i: int|
                    0 <= i < g.in_vreg[v].len() && g.ranges[(
                    #[trigger] g.in_vreg[v][i]) as int].def.0 == d as u32;
                lemma_below(g.in_vreg, g.ranges.len() as int, v, i);
                assert(h.ranges[h.in_vreg[v][i] as int].def.0 == d as u32);
            }
        }
    }
}

/// A definition of a register that has none is entered.
pub proof fn lemma_marks_new(f: FuncModel, g: GraphState, h: GraphState, v: u32, def: Def)
    requires
        graph_ok(f, g),
        g.defs.len() < u32::MAX,
        marks(f, g),
        v < g.vregs.len(),
        def.operand.vreg.vreg == v,
        h.in_vreg == g.in_vreg,
        h.ranges == g.ranges,
        h.defs == g.defs.push(def),
        h.vregs.len() == g.vregs.len(),
        h.vregs[v as int].def.0 == g.defs.len(),
        forall|w: int|
            0 <= w < g.vregs.len() && w != v ==> (#[trigger] h.vregs[w]).def == g.vregs[w].def,
        ssa_form(f) ==> forall|d: int|
            0 <= d < g.defs.len() ==> (#[trigger] g.defs[d]).operand.vreg.vreg != v,
    ensures
        marks(f, h),
        held(f, g) ==> held_upto(f, h, g.defs.len() as int),
{
    reveal(marks);
    reveal(held);
    reveal(held_upto);
    if ssa_form(f) && defs_held(g) {
        assert forall|d: int| 0 <= d < g.defs.len() implies ({
            let w = (#[trigger] h.defs[d]).operand.vreg.vreg;
            w < h.in_vreg.len() && defines(h, w as int, d as u32)
        }) by {
            assert(h.defs[d] == g.defs[d]);
            lemma_same_defines(g, h, g.defs[d].operand.vreg.vreg as int, d as u32);
        }
    }
    if ssa_form(f) {
        assert(def_of(g, v as int));
        assert(!g.vregs[v as int].def.is_valid());
        assert forall|r: int|
            0 <= r < h.ranges.len() && (#[trigger] h.ranges[r]).def.is_valid() implies h.ranges[r].def
            == h.vregs[h.ranges[r].vreg.ix()].def && h.ranges[r].range.has(
            h.defs[h.ranges[r].def.ix()].pos,
        ) by {
            assert(range_ok(f, g, r));
            assert(h.defs[g.ranges[r].def.ix()] == g.defs[g.ranges[r].def.ix()]);
            assert(g.ranges[r].def == g.vregs[g.ranges[r].vreg.ix()].def);
            assert(g.ranges[r].vreg.ix() != v);
            assert(h.vregs[g.ranges[r].vreg.ix()].def == g.vregs[g.ranges[r].vreg.ix()].def);
        }
        assert forall|d: int| 0 <= d < h.defs.len() implies ({
            let w = (#[trigger] h.defs[d]).operand.vreg.vreg;
            w < h.vregs.len() && h.vregs[w as int].def.0 == d
        }) by {
            if d < g.defs.len() {
                assert(h.defs[d] == g.defs[d]);
                let w = g.defs[d].operand.vreg.vreg;
                assert(h.vregs[w as int].def == g.vregs[w as int].def);
            }
        }
        assert forall|w: int| 0 <= w < h.vregs.len() implies #[trigger] def_of(h, w) by {
            if w != v {
                assert(def_of(g, w));
                assert(h.vregs[w].def == g.vregs[w].def);
            }
        }
    }
}

/// Every definition before number `n` is that of a live range of its register.
#[verifier::opaque]
pub open spec fn held_upto(f: FuncModel, g: GraphState, n: int) -> bool {
    ssa_form(f) ==> forall|d: int|
        0 <= d < n ==> {
            let v = (#[trigger] g.defs[d]).operand.vreg.vreg;
            v < g.in_vreg.len() && defines(g, v as int, d as u32)
        }
}

/// The live range gets the definition of its register.
pub proof fn lemma_marks_def(f: FuncModel, g: GraphState, r: u32, lr: LiveRange, n: int)
    requires
        graph_ok(f, g),
        marks(f, g),
        r < g.ranges.len(),
        lr.vreg == g.ranges[r as int].vreg,
        lr.vreg.0 < g.vregs.len(),
        lr.def == g.vregs[lr.vreg.ix()].def,
        lr.def.ix() == n,
        n + 1 == g.defs.len(),
        g.defs[n].operand.vreg.vreg == lr.vreg.0,
        ssa_form(f) ==> lr.range.has(g.defs[n].pos),
        held_upto(f, g, n),
        ssa_form(f) ==> g.in_vreg[lr.vreg.ix()].contains(r),
    ensures
        marks(f, graph_set_range(g, r, lr)),
        held(f, graph_set_range(g, r, lr)),
{
    reveal(marks);
    reveal(held);
    reveal(held_upto);
    let h = graph_set_range(g, r, lr);
    if ssa_form(f) {
        assert forall|w: int| 0 <= w < h.vregs.len() implies #[trigger] def_of(h, w) by {
            assert(def_of(g, w));
        }
        assert forall|x: int|
            0 <= x < h.ranges.len() && (#[trigger] h.ranges[x]).def.is_valid() implies h.ranges[x].def
            == h.vregs[h.ranges[x].vreg.ix()].def && h.ranges[x].range.has(
            h.defs[h.ranges[x].def.ix()].pos,
        ) by {
            if x != r {
                assert(g.ranges[x].def.is_valid());
            }
        }
        assert forall|d: int| 0 <= d < h.defs.len() implies ({
            let v = (#[trigger] h.defs[d]).operand.vreg.vreg;
            v < h.in_vreg.len() && defines(h, v as int, d as u32)
        }) by {
            if d < n {
                let v = g.defs[d].operand.vreg.vreg as int;
                assert(defines(g, v, d as u32));
                let i = choose|i: int|
                    0 <= i < g.in_vreg[v].len() && g.ranges[(
                    #[trigger] g.in_vreg[v][i]) as int].def.0 == d as u32;
                lemma_below(g.in_vreg, g.ranges.len() as int, v, i);
                assert(g.ranges[g.in_vreg[v][i] as int].def.is_valid());
                assert(g.in_vreg[v][i] != r);
                assert(h.ranges[h.in_vreg[v][i] as int].def.0 == d as u32);
            } else {
                let v = lr.vreg.ix();
                let i = choose|i: int| 0 <= i < g.in_vreg[v].len() && g.in_vreg[v][i] == r;
                assert(h.ranges[h.in_vreg[v][i] as int].def.0 == d as u32);
            }
        }
    }
}

/// A register becomes live over a range, with a definition that no live range has yet.
pub proof fn lemma_upto_live(
    f: FuncModel,
    g: GraphState,
    v: u32,
    range: CodeRange,
    num_ranges: int,
    n: int,
)
    requires
        graph_ok(f, g),
        vregs_in_order(g),
        v < f.num_vregs,
        range.within(f.insts),
        marks(f, g),
        held_upto(f, g, n),
        n <= g.defs.len(),
        graph_add_live(g, v, range, num_ranges) matches Ok(a) ==> a.g.defs == g.defs,
    ensures
        graph_add_live(g, v, range, num_ranges) matches Ok(a) ==> held_upto(f, a.g, n),
{
    reveal(marks);
    reveal(held_upto);
    lemma_live_stays(f, g, v, range, num_ranges);
    if let Ok(a) = graph_add_live(g, v, range, num_ranges) {
        if ssa_form(f) {
            assert forall|d: int| 0 <= d < n implies ({
                let v = (#[trigger] a.g.defs[d]).operand.vreg.vreg;
                v < a.g.in_vreg.len() && defines(a.g, v as int, d as u32)
            }) by {
                assert(defines(g, g.defs[d].operand.vreg.vreg as int, d as u32));
            }
        }
    }
}

proof fn lemma_same_defines(g: GraphState, h: GraphState, v: int, d: u32)
    requires
        defines(g, v, d),
        h.in_vreg == g.in_vreg,
        h.ranges == g.ranges,
    ensures
        defines(h, v, d),
{
    let i = choose|i: int|
        0 <= i < g.in_vreg[v].len() && g.ranges[(#[trigger] g.in_vreg[v][i]) as int].def.0 == d;
    assert(h.ranges[h.in_vreg[v][i] as int].def.0 == d);
}

} // verus!
