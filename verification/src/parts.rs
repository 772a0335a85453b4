//! A bundle that is split leaves its parts in program order.
use crate::code_range::CodeRange;
use crate::data::Use;
use crate::graph::GraphState;
use crate::held::{defines, defs_placed};
use crate::index::VRegIndex;
use crate::lists::{lemma_below, lemma_distinct, lemma_neq, lists_ok};
use crate::order::{apart, in_order, vregs_in_order};
use crate::reg::ProgPoint;
use crate::split::{
    cut_tag, first_use_from, graph_cut_list, graph_cut_range, lemma_first_use_from, position_of,
    Cut,
};
use crate::uses::uses_placed;
use vstd::prelude::*;

verus! {

/// The range at position `i` of bundle `b`.
pub open spec fn member(h: GraphState, b: int, i: int) -> CodeRange {
    h.ranges[h.in_bundle[b][i] as int].range
}

/// Is the bundle a part of bundle `home`, which was split when there were `n` bundles?
pub open spec fn is_part(n: int, home: u32, b: int) -> bool {
    b == home || b >= n
}

/// Does one part come before the other one?
pub open spec fn earlier(n: int, home: u32, a: int, b: int) -> bool {
    b >= n && (a == home || n <= a < b)
}

/// Every part is in order, and every live range of a part ends before those of a later part begin.
pub open spec fn parts_in_order(g: GraphState, h: GraphState, home: u32) -> bool {
    let n = g.bundles.len() as int;
    &&& forall|b: int, i: int, j: int|
        #![trigger member(h, b, i), member(h, b, j)]
        0 <= b < h.in_bundle.len() && is_part(n, home, b) && 0 <= i < j < h.in_bundle[b].len()
            ==> member(h, b, i).precedes(member(h, b, j))
    &&& forall|a: int, i: int, b: int, j: int|
        #![trigger member(h, a, i), member(h, b, j)]
        0 <= a < h.in_bundle.len() && 0 <= b < h.in_bundle.len() && earlier(n, home, a, b) && 0 <= i
            < h.in_bundle[a].len() && 0 <= j < h.in_bundle[b].len() ==> member(h, a, i).precedes(
            member(h, b, j),
        )
}

/// No live range of a part reaches into one of bundle `o`.
pub open spec fn parts_apart(g: GraphState, h: GraphState, home: u32, o: int) -> bool {
    let n = g.bundles.len() as int;
    forall|b: int, i: int, j: int|
        #![trigger member(h, b, i), member(h, o, j)]
        0 <= b < h.in_bundle.len() && is_part(n, home, b) && 0 <= i < h.in_bundle[b].len() && 0 <= j
            < h.in_bundle[o].len() ==> member(h, b, i).precedes(member(h, o, j)) || member(
            h,
            o,
            j,
        ).precedes(member(h, b, i))
}

/// Is the register that of a live range of bundle `home`?
pub open spec fn from_home(g: GraphState, home: u32, v: VRegIndex) -> bool {
    exists|i: int|
        0 <= i < g.in_bundle[home as int].len() && g.ranges[(
        #[trigger] g.in_bundle[home as int][i]) as int].vreg == v
}

/// What is not in bundle `home` stays as it is, and the parts hold live ranges of `home` and new
/// ones, all of registers of `home`.
pub open spec fn others_kept(g: GraphState, h: GraphState, home: u32) -> bool {
    let n = g.bundles.len() as int;
    &&& h.ranges.len() >= g.ranges.len()
    &&& h.in_range.len() == h.ranges.len()
    &&& forall|r: u32|
        r < g.ranges.len() && !g.in_bundle[home as int].contains(r) ==> #[trigger] h.in_range[r as int]
            == g.in_range[r as int]
    &&& forall|b: int, i: int|
        0 <= b < h.in_bundle.len() && is_part(n, home, b) && 0 <= i < h.in_bundle[b].len()
            ==> from_home(g, home, h.ranges[(#[trigger] h.in_bundle[b][i]) as int].vreg)
    &&& forall|r: u32|
        r < g.ranges.len() && !g.in_bundle[home as int].contains(r) ==> #[trigger] h.ranges[r as int]
            == g.ranges[r as int]
    &&& forall|b: int|
        0 <= b < n && b != home ==> #[trigger] h.in_bundle[b] == g.in_bundle[b]
    &&& forall|b: int, i: int|
        0 <= b < h.in_bundle.len() && is_part(n, home, b) && 0 <= i < h.in_bundle[b].len() ==> {
            let r = #[trigger] h.in_bundle[b][i];
            r >= g.ranges.len() || g.in_bundle[home as int].contains(r)
        }
}

/// Is register `v` live at place `p`?
pub open spec fn covers(g: GraphState, v: int, p: int) -> bool {
    exists|i: int|
        0 <= i < g.in_vreg[v].len() && ({
            let range = g.ranges[(#[trigger] g.in_vreg[v][i]) as int].range;
            range.from.ix() <= p < range.to.ix()
        })
}

/// Does a live range of register `v` hold use number `u`?
pub open spec fn mentions(g: GraphState, v: int, u: u32) -> bool {
    exists|i: int|
        0 <= i < g.in_vreg[v].len() && g.in_range[(
        #[trigger] g.in_vreg[v][i]) as int].contains(u)
}

/// Is the number in one of the lists?
pub open spec fn in_some(lists: Seq<Seq<u32>>, x: u32) -> bool {
    exists|b: int, k: int|
        0 <= b < lists.len() && 0 <= k < lists[b].len() && #[trigger] lists[b][k] == x
}

/// Every live range of a register is in a bundle.
pub open spec fn filled(g: GraphState) -> bool {
    forall|v: int, i: int|
        0 <= v < g.in_vreg.len() && 0 <= i < g.in_vreg[v].len() ==> in_some(
            g.in_bundle,
            #[trigger] g.in_vreg[v][i],
        )
}

/// Every register is live at the same places, has the same uses and keeps its definitions. Uses
/// and definitions lie in their live ranges if they did, and live ranges are in bundles if they
/// were.
pub open spec fn same_extent(g: GraphState, h: GraphState) -> bool {
    &&& h.uses == g.uses
    &&& h.defs == g.defs
    &&& h.vregs == g.vregs
    &&& uses_placed(g) ==> uses_placed(h)
    &&& defs_placed(g) ==> defs_placed(h)
    &&& filled(g) ==> filled(h)
    &&& forall|v: int, d: u32|
        0 <= v < g.in_vreg.len() && d != u32::MAX ==> #[trigger] defines(h, v, d) == defines(
            g,
            v,
            d,
        )
    &&& h.in_vreg.len() == g.in_vreg.len()
    &&& forall|v: int, p: int|
        0 <= v < g.in_vreg.len() ==> #[trigger] covers(h, v, p) == covers(g, v, p)
    &&& forall|v: int, u: u32|
        0 <= v < g.in_vreg.len() ==> #[trigger] mentions(h, v, u) == mentions(g, v, u)
}

/// How the parts made so far stand to the tables `g` before the split.
pub open spec fn parts_ok(g: GraphState, home: u32, s: Cut) -> bool {
    let n = g.bundles.len() as int;
    let h = s.g;
    &&& home < n
    &&& g.in_bundle.len() == n
    &&& h.bundles.len() == n + s.made.len()
    &&& h.in_bundle.len() == h.bundles.len()
    &&& forall|i: int| 0 <= i < s.made.len() ==> #[trigger] s.made[i] == n + i
    &&& s.cur == (if s.made.len() == 0 {
        home as int
    } else {
        n + s.made.len() - 1
    })
    &&& others_kept(g, h, home)
    &&& same_extent(g, h)
    &&& vregs_in_order(g) ==> vregs_in_order(h)
    &&& in_order(g.ranges, g.in_bundle[home as int]) ==> parts_in_order(g, h, home)
    &&& forall|o: int|
        0 <= o < n && o != home && apart(
            g.ranges,
            g.in_bundle[home as int],
            #[trigger] g.in_bundle[o],
        ) ==> parts_apart(g, h, home, o)
}

/// Before the split.
pub proof fn lemma_parts_start(g: GraphState, home: u32, k: int)
    requires
        home < g.bundles.len(),
        g.in_bundle.len() == g.bundles.len(),
        g.in_range.len() == g.ranges.len(),
    ensures
        parts_ok(g, home, Cut { g, cur: home, d: 0, made: Seq::empty(), k }),
{
    let list = g.in_bundle[home as int];
    assert forall|i: int| 0 <= i < list.len() implies list.contains(#[trigger] list[i]) by {}
    assert forall|b: int, i: int|
        0 <= b < g.in_bundle.len() && is_part(g.bundles.len() as int, home, b) && 0 <= i
            < g.in_bundle[b].len() implies from_home(
        g,
        home,
        g.ranges[(#[trigger] g.in_bundle[b][i]) as int].vreg,
    ) by {
        assert(g.ranges[g.in_bundle[home as int][i] as int].vreg
            == g.ranges[g.in_bundle[b][i] as int].vreg);
    }
    assert forall|o: int|
        0 <= o < g.bundles.len() && o != home && apart(
            g.ranges,
            list,
            #[trigger] g.in_bundle[o],
        ) implies parts_apart(g, g, home, o) by {}
}

/// Noting the bundle of a live range changes no extent.
pub proof fn lemma_parts_tag(g: GraphState, home: u32, s: Cut, r: u32)
    requires
        parts_ok(g, home, s),
        0 <= s.d < s.g.in_bundle[s.cur as int].len(),
        r == s.g.in_bundle[s.cur as int][s.d],
        lists_ok(s.g.in_vreg, s.g.ranges.len() as int),
        lists_ok(s.g.in_bundle, s.g.ranges.len() as int),
    ensures
        parts_ok(g, home, cut_tag(s, r)),
        parts_ok(g, home, Cut { d: s.d + 1, ..cut_tag(s, r) }),
{
    let h = s.g;
    let t = cut_tag(s, r).g;
    lemma_below(h.in_bundle, h.ranges.len() as int, s.cur as int, s.d);
    assert forall|x: int| 0 <= x < h.ranges.len() implies (#[trigger] t.ranges[x]).range
        == h.ranges[x].range by {}
    assert forall|b: int, i: int|
        0 <= b < h.in_bundle.len() && 0 <= i < h.in_bundle[b].len() implies #[trigger] member(t, b, i)
        == member(h, b, i) by {
        lemma_below(h.in_bundle, h.ranges.len() as int, b, i);
    }
    if vregs_in_order(g) {
        crate::order::lemma_shrunk_vregs(h, t);
    }
    lemma_same_lists_extent(h, t);
    assert(others_kept(g, t, home)) by {
        assert forall|x: u32|
            x < g.ranges.len() && !g.in_bundle[home as int].contains(x) implies #[trigger] t.ranges[x as int]
            == g.ranges[x as int] by {
            assert(h.ranges[x as int] == g.ranges[x as int]);
            assert(h.in_bundle[s.cur as int][s.d] == r);
        }
        assert forall|b: int| 0 <= b < g.bundles.len() && b != home implies #[trigger] t.in_bundle[b]
            == g.in_bundle[b] by {
            assert(h.in_bundle[b] == g.in_bundle[b]);
        }
        assert forall|b: int, i: int|
            0 <= b < t.in_bundle.len() && is_part(g.bundles.len() as int, home, b) && 0 <= i
                < t.in_bundle[b].len() implies {
            let r = #[trigger] t.in_bundle[b][i];
            r >= g.ranges.len() || g.in_bundle[home as int].contains(r)
        } by {
            let x = h.in_bundle[b][i];
        }
        assert forall|b: int, i: int|
            0 <= b < t.in_bundle.len() && is_part(g.bundles.len() as int, home, b) && 0 <= i
                < t.in_bundle[b].len() implies from_home(
            g,
            home,
            t.ranges[(#[trigger] t.in_bundle[b][i]) as int].vreg,
        ) by {
            lemma_below(h.in_bundle, h.ranges.len() as int, b, i);
            assert(from_home(g, home, h.ranges[h.in_bundle[b][i] as int].vreg));
        }
        assert forall|x: u32|
            x < g.ranges.len() && !g.in_bundle[home as int].contains(x) implies #[trigger] t.in_range[x as int]
            == g.in_range[x as int] by {
            assert(h.in_range[x as int] == g.in_range[x as int]);
        }
    }
    assert forall|o: int|
        0 <= o < g.bundles.len() && o != home && apart(
            g.ranges,
            g.in_bundle[home as int],
            #[trigger] g.in_bundle[o],
        ) implies parts_apart(g, t, home, o) by {
        assert(parts_apart(g, h, home, o));
    }
}

/// A new part takes the live ranges from position `s.d` on.
pub proof fn lemma_parts_cut_list(g: GraphState, home: u32, s: Cut, k: int)
    requires
        parts_ok(g, home, s),
        0 <= s.d <= s.g.in_bundle[s.cur as int].len(),
        s.g.bundles.len() < u32::MAX,
        lists_ok(s.g.in_vreg, s.g.ranges.len() as int),
        s.g.in_range.len() == s.g.ranges.len(),
    ensures
        parts_ok(
            g,
            home,
            Cut {
                g: graph_cut_list(s.g, home, s.cur, s.d),
                cur: s.g.bundles.len() as u32,
                d: 0,
                made: s.made.push(s.g.bundles.len() as u32),
                k,
            },
        ),
{
    let n = g.bundles.len() as int;
    let h = s.g;
    let t = graph_cut_list(h, home, s.cur, s.d);
    let nb = h.bundles.len() as int;
    let cur = s.cur as int;
    let list = h.in_bundle[cur];
    // Where a member stood before the cut.
    assert forall|b: int, i: int|
        0 <= b < t.in_bundle.len() && 0 <= i < t.in_bundle[b].len() implies #[trigger] member(t, b, i)
        == (if b == nb {
        member(h, cur, s.d + i)
    } else {
        member(h, b, i)
    }) && t.in_bundle[b][i] == (if b == nb {
        h.in_bundle[cur][s.d + i]
    } else {
        h.in_bundle[b][i]
    }) by {
        if b == nb {
            assert(t.in_bundle[b][i] == list.skip(s.d)[i]);
        } else if b == cur {
            assert(t.in_bundle[b][i] == list.take(s.d)[i]);
        }
    }
    assert(others_kept(g, t, home)) by {
        assert forall|b: int| 0 <= b < n && b != home implies #[trigger] t.in_bundle[b]
            == g.in_bundle[b] by {
            assert(h.in_bundle[b] == g.in_bundle[b]);
        }
        assert forall|b: int, i: int|
            0 <= b < t.in_bundle.len() && is_part(n, home, b) && 0 <= i < t.in_bundle[b].len() implies {
            let r = #[trigger] t.in_bundle[b][i];
            r >= g.ranges.len() || g.in_bundle[home as int].contains(r)
        } by {
            let _ = member(t, b, i);
            let x = if b == nb {
                h.in_bundle[cur][s.d + i]
            } else {
                h.in_bundle[b][i]
            };
            assert(t.in_bundle[b][i] == x);
        }
        assert forall|b: int, i: int|
            0 <= b < t.in_bundle.len() && is_part(n, home, b) && 0 <= i < t.in_bundle[b].len() implies from_home(
        g, home, t.ranges[(#[trigger] t.in_bundle[b][i]) as int].vreg) by {
            let _ = member(t, b, i);
            if b == nb {
                assert(from_home(g, home, h.ranges[h.in_bundle[cur][s.d + i] as int].vreg));
            } else {
                assert(from_home(g, home, h.ranges[h.in_bundle[b][i] as int].vreg));
            }
        }
        assert forall|x: u32|
            x < g.ranges.len() && !g.in_bundle[home as int].contains(x) implies #[trigger] t.in_range[x as int]
            == g.in_range[x as int] by {
            assert(h.in_range[x as int] == g.in_range[x as int]);
        }
    }
    if filled(h) {
        assert forall|v: int, i: int|
            0 <= v < t.in_vreg.len() && 0 <= i < t.in_vreg[v].len() implies in_some(
            t.in_bundle,
            #[trigger] t.in_vreg[v][i],
        ) by {
            let x = h.in_vreg[v][i];
            assert(in_some(h.in_bundle, x));
            let (b, y) = choose|b: int, y: int|
                0 <= b < h.in_bundle.len() && 0 <= y < h.in_bundle[b].len()
                    && #[trigger] h.in_bundle[b][y] == x;
            if b == cur && y >= s.d {
                assert(t.in_bundle[nb][y - s.d] == x);
            } else {
                assert(t.in_bundle[b][y] == x);
            }
        }
    }
    lemma_same_lists_extent(h, t);
    assert(vregs_in_order(h) ==> vregs_in_order(t)) by {
        if vregs_in_order(h) {
            assert forall|v: int| 0 <= v < t.in_vreg.len() implies in_order(
                t.ranges,
                #[trigger] t.in_vreg[v],
            ) by {
                assert(in_order(h.ranges, h.in_vreg[v]));
            }
        }
    }
    if parts_in_order(g, h, home) {
        assert(parts_in_order(g, t, home)) by {
            assert forall|b: int, i: int, j: int|
                #![trigger member(t, b, i), member(t, b, j)]
                0 <= b < t.in_bundle.len() && is_part(n, home, b) && 0 <= i < j
                    < t.in_bundle[b].len() implies member(t, b, i).precedes(member(t, b, j)) by {
                if b == nb {
                    assert(member(h, cur, s.d + i).precedes(member(h, cur, s.d + j)));
                } else {
                    assert(member(h, b, i).precedes(member(h, b, j)));
                }
            }
            assert forall|a: int, i: int, b: int, j: int|
                #![trigger member(t, a, i), member(t, b, j)]
                0 <= a < t.in_bundle.len() && 0 <= b < t.in_bundle.len() && earlier(
                    n,
                    home,
                    a,
                    b,
                ) && 0 <= i < t.in_bundle[a].len() && 0 <= j < t.in_bundle[b].len() implies member(
                t,
                a,
                i,
            ).precedes(member(t, b, j)) by {
                if b == nb {
                    if a == cur {
                        assert(member(h, cur, i).precedes(member(h, cur, s.d + j)));
                    } else {
                        assert(member(h, a, i).precedes(member(h, cur, s.d + j)));
                    }
                } else {
                    assert(member(h, a, i).precedes(member(h, b, j)));
                }
            }
        }
    }
    assert forall|o: int|
        0 <= o < n && o != home && apart(
            g.ranges,
            g.in_bundle[home as int],
            #[trigger] g.in_bundle[o],
        ) implies parts_apart(g, t, home, o) by {
        assert(parts_apart(g, h, home, o));
        assert(t.in_bundle[o] == h.in_bundle[o]);
        assert forall|b: int, i: int, j: int|
            #![trigger member(t, b, i), member(t, o, j)]
            0 <= b < t.in_bundle.len() && is_part(n, home, b) && 0 <= i < t.in_bundle[b].len() && 0
                <= j < t.in_bundle[o].len() implies member(t, b, i).precedes(member(t, o, j))
            || member(t, o, j).precedes(member(t, b, i)) by {
            let x = if b == nb {
                member(h, cur, s.d + i)
            } else {
                member(h, b, i)
            };
            let y = member(h, o, j);
            assert(x.precedes(y) || y.precedes(x));
        }
    }
}

/// The extent of a register depends on its list and on the extents and uses of live ranges.
pub proof fn lemma_same_lists_extent(g: GraphState, h: GraphState)
    requires
        h.uses == g.uses,
        h.defs == g.defs,
        h.vregs == g.vregs,
        h.in_vreg == g.in_vreg,
        lists_ok(g.in_vreg, g.ranges.len() as int),
        g.in_range.len() == g.ranges.len(),
        h.in_range.len() >= g.in_range.len(),
        forall|r: int|
            0 <= r < g.ranges.len() ==> {
                &&& (#[trigger] h.ranges[r]).range == g.ranges[r].range
                &&& h.ranges[r].def == g.ranges[r].def
                &&& h.in_range[r] == g.in_range[r]
            },
        forall|r: int|
            g.ranges.len() <= r < h.in_range.len() ==> (#[trigger] h.in_range[r]).len() == 0,
        forall|r: int|
            g.ranges.len() <= r < h.ranges.len() ==> !(#[trigger] h.ranges[r]).def.is_valid(),
        filled(g) ==> filled(h),
    ensures
        same_extent(g, h),
{
    assert forall|v: int, d: u32| 0 <= v < g.in_vreg.len() && d != u32::MAX implies #[trigger] defines(
        h,
        v,
        d,
    ) == defines(g, v, d) by {
        if defines(g, v, d) {
            let i = choose|i: int|
                0 <= i < g.in_vreg[v].len() && g.ranges[(#[trigger] g.in_vreg[v][i]) as int].def.0
                    == d;
            lemma_below(g.in_vreg, g.ranges.len() as int, v, i);
            assert(h.ranges[h.in_vreg[v][i] as int].def.0 == d);
        }
        if defines(h, v, d) {
            let i = choose|i: int|
                0 <= i < h.in_vreg[v].len() && h.ranges[(#[trigger] h.in_vreg[v][i]) as int].def.0
                    == d;
            lemma_below(g.in_vreg, g.ranges.len() as int, v, i);
            assert(h.ranges[g.in_vreg[v][i] as int].def == g.ranges[g.in_vreg[v][i] as int].def);
        }
    }
    if defs_placed(g) {
        assert forall|r: int|
            0 <= r < h.ranges.len() && (#[trigger] h.ranges[r]).def.is_valid() implies h.ranges[r].range.has(
            h.defs[h.ranges[r].def.ix()].pos,
        ) by {
            assert(r < g.ranges.len());
            assert(g.ranges[r].range.has(g.defs[g.ranges[r].def.ix()].pos));
        }
    }
    if uses_placed(g) {
        assert forall|r: int, j: int|
            0 <= r < h.in_range.len() && 0 <= j < h.in_range[r].len() implies h.ranges[r].range.has(
            h.uses[(#[trigger] h.in_range[r][j]) as int].pos,
        ) by {
            assert(r < g.ranges.len());
            assert(h.ranges[r].range == g.ranges[r].range);
            assert(g.ranges[r].range.has(g.uses[g.in_range[r][j] as int].pos));
        }
        assert forall|r: int, i: int, j: int|
            #![trigger h.in_range[r][i], h.in_range[r][j]]
            0 <= r < h.in_range.len() && 0 <= i < j
                < h.in_range[r].len() implies h.uses[h.in_range[r][i] as int].pos.ix()
            <= h.uses[h.in_range[r][j] as int].pos.ix() by {
            assert(r < g.ranges.len());
            assert(h.ranges[r].range == g.ranges[r].range);
            let _ = (g.in_range[r][i], g.in_range[r][j]);
        }
    }
    assert forall|v: int, i: int|
        0 <= v < g.in_vreg.len() && 0 <= i < g.in_vreg[v].len() implies {
        let r = (#[trigger] g.in_vreg[v][i]) as int;
        h.ranges[r].range == g.ranges[r].range && h.in_range[r] == g.in_range[r]
    } by {
        lemma_below(g.in_vreg, g.ranges.len() as int, v, i);
        assert(h.ranges[g.in_vreg[v][i] as int].range == g.ranges[g.in_vreg[v][i] as int].range);
    }
    assert forall|v: int, p: int| 0 <= v < g.in_vreg.len() implies #[trigger] covers(h, v, p)
        == covers(g, v, p) by {
        if covers(g, v, p) {
            let i = choose|i: int|
                0 <= i < g.in_vreg[v].len() && ({
                    let range = g.ranges[(#[trigger] g.in_vreg[v][i]) as int].range;
                    range.from.ix() <= p < range.to.ix()
                });
            assert(h.in_vreg[v][i] == g.in_vreg[v][i]);
        }
        if covers(h, v, p) {
            let i = choose|i: int|
                0 <= i < h.in_vreg[v].len() && ({
                    let range = h.ranges[(#[trigger] h.in_vreg[v][i]) as int].range;
                    range.from.ix() <= p < range.to.ix()
                });
            assert(h.in_vreg[v][i] == g.in_vreg[v][i]);
        }
    }
    assert forall|v: int, u: u32| 0 <= v < g.in_vreg.len() implies #[trigger] mentions(h, v, u)
        == mentions(g, v, u) by {
        if mentions(g, v, u) {
            let i = choose|i: int|
                0 <= i < g.in_vreg[v].len() && g.in_range[(
                #[trigger] g.in_vreg[v][i]) as int].contains(u);
            assert(h.in_range[h.in_vreg[v][i] as int].contains(u));
        }
        if mentions(h, v, u) {
            let i = choose|i: int|
                0 <= i < h.in_vreg[v].len() && h.in_range[(
                #[trigger] h.in_vreg[v][i]) as int].contains(u);
            assert(g.in_range[g.in_vreg[v][i] as int].contains(u));
        }
    }
}

/// The extents of registers, step by step.
pub proof fn lemma_same_extent_trans(g: GraphState, h: GraphState, k: GraphState)
    requires
        same_extent(g, h),
        same_extent(h, k),
    ensures
        same_extent(g, k),
{
    assert forall|v: int, p: int| 0 <= v < g.in_vreg.len() implies #[trigger] covers(k, v, p)
        == covers(g, v, p) by {
        assert(covers(h, v, p) == covers(g, v, p));
    }
    assert forall|v: int, u: u32| 0 <= v < g.in_vreg.len() implies #[trigger] mentions(k, v, u)
        == mentions(g, v, u) by {
        assert(mentions(h, v, u) == mentions(g, v, u));
    }
}

proof fn lemma_uses_before(uses: Seq<Use>, list: Seq<u32>, p: int, i: int)
    requires
        0 <= i <= list.len(),
    ensures
        forall|k: int|
            i <= k < first_use_from(uses, list, p, i) ==> uses[(
            #[trigger] list[k]) as int].pos.ix() < p,
        first_use_from(uses, list, p, i) < list.len() ==> uses[list[first_use_from(
            uses,
            list,
            p,
            i,
        )] as int].pos.ix() >= p,
    decreases list.len() - i,
{
    if i < list.len() && uses[list[i] as int].pos.ix() < p {
        lemma_uses_before(uses, list, p, i + 1);
    }
}

/// The uses of a live range that is cut lie in its two parts.
proof fn lemma_cut_uses(g: GraphState, home: u32, cur: u32, d: int, r: u32, p: int)
    requires
        uses_placed(g),
        g.in_range.len() == g.ranges.len(),
        r < g.ranges.len() < u32::MAX,
        g.ranges[r as int].range.from.ix() < p < g.ranges[r as int].range.to.ix(),
        p <= u32::MAX,
    ensures
        uses_placed(graph_cut_range(g, home, cur, d, r, p)),
{
    let h = graph_cut_range(g, home, cur, d, r, p);
    let m = g.ranges.len() as int;
    let uses = g.in_range[r as int];
    let j = first_use_from(g.uses, uses, p, 0);
    lemma_first_use_from(g.uses, uses, p, 0);
    lemma_uses_before(g.uses, uses, p, 0);
    assert(ProgPoint::at(p).ix() == p);
    // Where a use stood before the cut.
    assert forall|x: int, k: int|
        0 <= x < h.in_range.len() && 0 <= k < h.in_range[x].len() implies #[trigger] h.in_range[x][k]
        == (if x == m {
        g.in_range[r as int][j + k]
    } else {
        g.in_range[x][k]
    }) by {
        if x == m {
            assert(h.in_range[x][k] == uses.skip(j)[k]);
        } else if x == r {
            assert(h.in_range[x][k] == uses.take(j)[k]);
        }
    }
    assert forall|x: int, k: int|
        0 <= x < h.in_range.len() && 0 <= k < h.in_range[x].len() implies h.ranges[x].range.has(
        h.uses[(#[trigger] h.in_range[x][k]) as int].pos,
    ) by {
        if x == m {
            let u = g.in_range[r as int][j + k];
            assert(g.ranges[r as int].range.has(g.uses[u as int].pos));
            if k > 0 {
                let _ = (g.in_range[r as int][j], g.in_range[r as int][j + k]);
                assert(g.uses[g.in_range[r as int][j] as int].pos.ix()
                    <= g.uses[g.in_range[r as int][j + k] as int].pos.ix());
            }
            assert(uses[j] == g.in_range[r as int][j]);
        } else {
            assert(g.ranges[x].range.has(g.uses[g.in_range[x][k] as int].pos));
            if x == r {
                assert(g.uses[uses[k] as int].pos.ix() < p);
            }
        }
    }
    assert forall|x: int, i: int, k: int|
        #![trigger h.in_range[x][i], h.in_range[x][k]]
        0 <= x < h.in_range.len() && 0 <= i < k
            < h.in_range[x].len() implies h.uses[h.in_range[x][i] as int].pos.ix()
        <= h.uses[h.in_range[x][k] as int].pos.ix() by {
        if x == m {
            let _ = (g.in_range[r as int][j + i], g.in_range[r as int][j + k]);
        } else {
            let _ = (g.in_range[x][i], g.in_range[x][k]);
        }
    }
}

/// One of the two parts of a live range has its definition.
proof fn lemma_cut_defs(g: GraphState, home: u32, cur: u32, d: int, r: u32, p: int)
    requires
        lists_ok(g.in_vreg, g.ranges.len() as int),
        r < g.ranges.len() < u32::MAX,
        g.ranges[r as int].vreg.0 < g.in_vreg.len(),
        g.in_vreg[g.ranges[r as int].vreg.ix()].contains(r),
        g.ranges[r as int].range.from.ix() < p < g.ranges[r as int].range.to.ix(),
        p <= u32::MAX,
    ensures
        defs_placed(g) ==> defs_placed(graph_cut_range(g, home, cur, d, r, p)),
        forall|v: int, e: u32|
            0 <= v < g.in_vreg.len() && e != u32::MAX ==> #[trigger] defines(
                graph_cut_range(g, home, cur, d, r, p),
                v,
                e,
            ) == defines(g, v, e),
{
    let h = graph_cut_range(g, home, cur, d, r, p);
    let m = g.ranges.len() as int;
    let w = g.ranges[r as int].vreg.ix();
    let pos = position_of(g.in_vreg[w], r);
    assert(0 <= pos < g.in_vreg[w].len() && g.in_vreg[w][pos] == r);
    if defs_placed(g) {
        assert(ProgPoint::at(p).ix() == p);
        assert forall|x: int|
            0 <= x < h.ranges.len() && (#[trigger] h.ranges[x]).def.is_valid() implies h.ranges[x].range.has(
            h.defs[h.ranges[x].def.ix()].pos,
        ) by {
            let y = if x == m {
                r as int
            } else {
                x
            };
            assert(g.ranges[y].range.has(g.defs[g.ranges[y].def.ix()].pos));
        }
    }
    assert forall|v: int, e: u32|
        0 <= v < g.in_vreg.len() && e != u32::MAX && defines(g, v, e) implies #[trigger] defines(
        h,
        v,
        e,
    ) by {
        let i = choose|i: int|
            0 <= i < g.in_vreg[v].len() && g.ranges[(#[trigger] g.in_vreg[v][i]) as int].def.0 == e;
        let x = g.in_vreg[v][i];
        lemma_below(g.in_vreg, m, v, i);
        if x == r {
            lemma_distinct(g.in_vreg, m, v, i, w, pos);
            if h.ranges[r as int].def.0 == e {
                assert(h.in_vreg[w][pos] == r);
            } else {
                assert(h.in_vreg[w][pos + 1] == m);
                assert(h.ranges[m].def.0 == e);
            }
        } else if v == w && i > pos {
            assert(h.in_vreg[v][i + 1] == x);
        } else {
            assert(h.in_vreg[v][i] == x);
        }
    }
    assert forall|v: int, e: u32|
        0 <= v < g.in_vreg.len() && e != u32::MAX && #[trigger] defines(h, v, e) implies defines(
        g,
        v,
        e,
    ) by {
        let i = choose|i: int|
            0 <= i < h.in_vreg[v].len() && h.ranges[(#[trigger] h.in_vreg[v][i]) as int].def.0 == e;
        let j = if v == w && i > pos {
            i - 1
        } else {
            i
        };
        lemma_below(g.in_vreg, m, v, j);
        if v == w && i == pos + 1 {
            assert(h.in_vreg[v][i] == m);
            assert(g.ranges[g.in_vreg[v][pos] as int].def.0 == e);
        } else {
            assert(h.in_vreg[v][i] == g.in_vreg[v][j]);
            assert(g.ranges[g.in_vreg[v][j] as int].def.0 == e);
        }
    }
}

/// The two parts of a live range are in bundles.
proof fn lemma_cut_filled(g: GraphState, home: u32, cur: u32, d: int, r: u32, p: int)
    requires
        filled(g),
        g.ranges.len() < u32::MAX,
        g.ranges[r as int].vreg.0 < g.in_vreg.len(),
        g.in_vreg[g.ranges[r as int].vreg.ix()].contains(r),
        cur < g.in_bundle.len(),
        0 <= d < g.in_bundle[cur as int].len(),
    ensures
        filled(graph_cut_range(g, home, cur, d, r, p)),
{
    let h = graph_cut_range(g, home, cur, d, r, p);
    let w = g.ranges[r as int].vreg.ix();
    let rest = g.ranges.len() as u32;
    let n = g.in_bundle.len() as int;
    let list = g.in_bundle[cur as int];
    let tail = seq![rest] + list.skip(d + 1);
    let pos = position_of(g.in_vreg[w], r);
    assert(0 <= pos < g.in_vreg[w].len() && g.in_vreg[w][pos] == r);
    assert(h.in_bundle[n] == tail);
    assert forall|x: u32| #[trigger] in_some(g.in_bundle, x) implies in_some(h.in_bundle, x) by {
        let (b, y) = choose|b: int, y: int|
            0 <= b < g.in_bundle.len() && 0 <= y < g.in_bundle[b].len()
                && #[trigger] g.in_bundle[b][y] == x;
        if b == cur && y > d {
            assert(h.in_bundle[n][y - d] == x);
        } else {
            assert(h.in_bundle[b][y] == x);
        }
    }
    assert forall|v: int, i: int|
        0 <= v < h.in_vreg.len() && 0 <= i < h.in_vreg[v].len() implies in_some(
        h.in_bundle,
        #[trigger] h.in_vreg[v][i],
    ) by {
        if v == w {
            if i == pos + 1 {
                assert(h.in_bundle[n][0] == rest);
            } else if i <= pos {
                assert(h.in_vreg[v][i] == g.in_vreg[v][i]);
            } else {
                assert(h.in_vreg[v][i] == g.in_vreg[v][i - 1]);
            }
        } else {
            assert(h.in_vreg[v][i] == g.in_vreg[v][i]);
        }
    }
}

/// The two parts of a live range have its extent and its uses.
proof fn lemma_cut_extent(g: GraphState, home: u32, cur: u32, d: int, r: u32, p: int)
    requires
        lists_ok(g.in_vreg, g.ranges.len() as int),
        g.in_range.len() == g.ranges.len(),
        r < g.ranges.len() < u32::MAX,
        g.ranges[r as int].range.from.ix() < p < g.ranges[r as int].range.to.ix(),
        p <= u32::MAX,
        g.ranges[r as int].vreg.0 < g.in_vreg.len(),
        g.in_vreg[g.ranges[r as int].vreg.ix()].contains(r),
        cur < g.in_bundle.len(),
        0 <= d < g.in_bundle[cur as int].len(),
    ensures
        same_extent(g, graph_cut_range(g, home, cur, d, r, p)),
{
    if filled(g) {
        lemma_cut_filled(g, home, cur, d, r, p);
    }
    lemma_cut_defs(g, home, cur, d, r, p);
    let h = graph_cut_range(g, home, cur, d, r, p);
    let m = g.ranges.len() as int;
    let w = g.ranges[r as int].vreg.ix();
    let list = g.in_vreg[w];
    let pos = position_of(list, r);
    let new = h.in_vreg[w];
    let uses = g.in_range[r as int];
    let j = first_use_from(g.uses, uses, p, 0);
    lemma_first_use_from(g.uses, uses, p, 0);
    if uses_placed(g) {
        lemma_cut_uses(g, home, cur, d, r, p);
    }
    assert(0 <= pos < list.len() && list[pos] == r);
    assert(ProgPoint::at(p).ix() == p);
    assert(new == list.insert(pos + 1, m as u32));
    assert(new[pos] == r && new[pos + 1] == m);
    assert forall|v: int, i: int|
        0 <= v < g.in_vreg.len() && 0 <= i < g.in_vreg[v].len() implies {
        let x = (#[trigger] g.in_vreg[v][i]) as int;
        &&& x < m
        &&& x != r ==> h.ranges[x] == g.ranges[x] && h.in_range[x] == g.in_range[x]
    } by {
        lemma_below(g.in_vreg, m, v, i);
    }
    assert forall|u: u32| #[trigger] uses.contains(u) implies uses.take(j).contains(u)
        || uses.skip(j).contains(u) by {
        let x = choose|x: int| 0 <= x < uses.len() && uses[x] == u;
        if x < j {
            assert(uses.take(j)[x] == u);
        } else {
            assert(uses.skip(j)[x - j] == u);
        }
    }
    assert forall|v: int, q: int| 0 <= v < g.in_vreg.len() implies #[trigger] covers(h, v, q)
        == covers(g, v, q) by {
        if covers(g, v, q) {
            let i = choose|i: int|
                0 <= i < g.in_vreg[v].len() && ({
                    let range = g.ranges[(#[trigger] g.in_vreg[v][i]) as int].range;
                    range.from.ix() <= q < range.to.ix()
                });
            let x = g.in_vreg[v][i];
            if v == w {
                if x == r {
                    if q < p {
                        assert(h.in_vreg[w][pos] == r);
                    } else {
                        assert(h.in_vreg[w][pos + 1] == m);
                    }
                } else if i <= pos {
                    assert(h.in_vreg[v][i] == x);
                } else {
                    assert(h.in_vreg[v][i + 1] == x);
                }
            } else {
                if x == r {
                    lemma_distinct(g.in_vreg, m, v, i, w, pos);
                }
                assert(h.in_vreg[v][i] == x);
            }
        }
        if covers(h, v, q) {
            let i = choose|i: int|
                0 <= i < h.in_vreg[v].len() && ({
                    let range = h.ranges[(#[trigger] h.in_vreg[v][i]) as int].range;
                    range.from.ix() <= q < range.to.ix()
                });
            if v == w {
                if i == pos || i == pos + 1 {
                    assert(g.in_vreg[w][pos] == r);
                } else if i < pos {
                    assert(h.in_vreg[v][i] == g.in_vreg[v][i]);
                    lemma_neq(g.in_vreg, m, v, i, w, pos);
                } else {
                    assert(h.in_vreg[v][i] == g.in_vreg[v][i - 1]);
                    lemma_neq(g.in_vreg, m, v, i - 1, w, pos);
                }
            } else {
                assert(h.in_vreg[v][i] == g.in_vreg[v][i]);
                lemma_neq(g.in_vreg, m, v, i, w, pos);
            }
        }
    }
    assert forall|v: int, u: u32| 0 <= v < g.in_vreg.len() implies #[trigger] mentions(h, v, u)
        == mentions(g, v, u) by {
        if mentions(g, v, u) {
            let i = choose|i: int|
                0 <= i < g.in_vreg[v].len() && g.in_range[(
                #[trigger] g.in_vreg[v][i]) as int].contains(u);
            let x = g.in_vreg[v][i];
            if v == w {
                if x == r {
                    assert(uses.contains(u));
                    if uses.take(j).contains(u) {
                        assert(h.in_range[h.in_vreg[w][pos] as int].contains(u));
                    } else {
                        assert(h.in_range[h.in_vreg[w][pos + 1] as int].contains(u));
                    }
                } else if i <= pos {
                    assert(h.in_vreg[v][i] == x);
                } else {
                    assert(h.in_vreg[v][i + 1] == x);
                }
            } else {
                if x == r {
                    lemma_distinct(g.in_vreg, m, v, i, w, pos);
                }
                assert(h.in_vreg[v][i] == x);
            }
        }
        if mentions(h, v, u) {
            let i = choose|i: int|
                0 <= i < h.in_vreg[v].len() && h.in_range[(
                #[trigger] h.in_vreg[v][i]) as int].contains(u);
            if v == w {
                if i == pos || i == pos + 1 {
                    let part = h.in_range[h.in_vreg[v][i] as int];
                    let y = choose|y: int| 0 <= y < part.len() && part[y] == u;
                    if i == pos {
                        assert(uses[y] == u);
                    } else {
                        assert(uses[j + y] == u);
                    }
                    assert(g.in_range[g.in_vreg[w][pos] as int].contains(u));
                } else if i < pos {
                    assert(h.in_vreg[v][i] == g.in_vreg[v][i]);
                    lemma_neq(g.in_vreg, m, v, i, w, pos);
                } else {
                    assert(h.in_vreg[v][i] == g.in_vreg[v][i - 1]);
                    lemma_neq(g.in_vreg, m, v, i - 1, w, pos);
                }
            } else {
                assert(h.in_vreg[v][i] == g.in_vreg[v][i]);
                lemma_neq(g.in_vreg, m, v, i, w, pos);
            }
        }
    }
}

proof fn lemma_vreg_insert_in_order(g: GraphState, h: GraphState, v: int, pos: int, r: u32, p: int)
    requires
        vregs_in_order(g),
        lists_ok(g.in_vreg, g.ranges.len() as int),
        0 <= v < g.in_vreg.len(),
        0 <= pos < g.in_vreg[v].len(),
        g.in_vreg[v][pos] == r,
        h.ranges.len() == g.ranges.len() + 1,
        g.ranges.len() < u32::MAX,
        h.in_vreg == g.in_vreg.update(
            v,
            g.in_vreg[v].insert(pos + 1, g.ranges.len() as u32),
        ),
        forall|x: int|
            0 <= x < g.ranges.len() && x != r ==> (#[trigger] h.ranges[x]).range
                == g.ranges[x].range,
        h.ranges[r as int].range.from == g.ranges[r as int].range.from,
        h.ranges[r as int].range.to.ix() == p,
        h.ranges[g.ranges.len() as int].range.from.ix() == p,
        h.ranges[g.ranges.len() as int].range.to == g.ranges[r as int].range.to,
        g.ranges[r as int].range.from.ix() < p < g.ranges[r as int].range.to.ix(),
    ensures
        vregs_in_order(h),
{
    let n = g.ranges.len() as int;
    let list = g.in_vreg[v];
    let new = h.in_vreg[v];
    lemma_below(g.in_vreg, n, v, pos);
    assert forall|w: int, i: int|
        0 <= w < g.in_vreg.len() && 0 <= i < g.in_vreg[w].len() implies {
        &&& (#[trigger] g.in_vreg[w][i]) < n
        &&& (w != v || i != pos) ==> g.in_vreg[w][i] != r
    } by {
        lemma_below(g.in_vreg, n, w, i);
        if w != v || i != pos {
            lemma_neq(g.in_vreg, n, w, i, v, pos);
        }
    }
    assert forall|w: int| 0 <= w < h.in_vreg.len() implies in_order(
        h.ranges,
        #[trigger] h.in_vreg[w],
    ) by {
        assert(in_order(g.ranges, g.in_vreg[w]));
        if w == v {
            assert forall|x: int, y: int| #![trigger new[x], new[y]] 0 <= x < y < new.len() implies h.ranges[new[x] as int].range.precedes(
            h.ranges[new[y] as int].range) by {
                let x0 = if x <= pos {
                    x
                } else {
                    x - 1
                };
                let y0 = if y <= pos {
                    y
                } else {
                    y - 1
                };
                if x != pos + 1 {
                    assert(new[x] == list[x0]);
                    assert(list[x0] == g.in_vreg[v][x0]);
                }
                if y != pos + 1 {
                    assert(new[y] == list[y0]);
                    assert(list[y0] == g.in_vreg[v][y0]);
                }
                if x0 < y0 {
                    assert(g.ranges[list[x0] as int].range.precedes(
                        g.ranges[list[y0] as int].range,
                    ));
                }
            }
        }
    }
}

/// Live range `r` at position `d` is cut at place `p`.
pub proof fn lemma_parts_cut_range(g: GraphState, home: u32, s: Cut, r: u32, p: int, k: int)
    requires
        parts_ok(g, home, s),
        0 <= s.d < s.g.in_bundle[s.cur as int].len(),
        r == s.g.in_bundle[s.cur as int][s.d],
        s.g.bundles.len() < u32::MAX,
        s.g.ranges.len() < u32::MAX,
        s.g.ranges[r as int].range.from.ix() < p < s.g.ranges[r as int].range.to.ix(),
        p <= u32::MAX,
        lists_ok(s.g.in_vreg, s.g.ranges.len() as int),
        lists_ok(s.g.in_bundle, s.g.ranges.len() as int),
        s.g.ranges[r as int].vreg.0 < s.g.in_vreg.len(),
        s.g.in_vreg[s.g.ranges[r as int].vreg.ix()].contains(r),
    ensures
        parts_ok(
            g,
            home,
            Cut {
                g: graph_cut_range(s.g, home, s.cur, s.d, r, p),
                cur: s.g.bundles.len() as u32,
                d: 0,
                made: s.made.push(s.g.bundles.len() as u32),
                k,
            },
        ),
{
    let n = g.bundles.len() as int;
    let h = s.g;
    let m = h.ranges.len() as int;
    let t = graph_cut_range(h, home, s.cur, s.d, r, p);
    let nb = h.bundles.len() as int;
    let cur = s.cur as int;
    let d = s.d;
    let list = h.in_bundle[cur];
    let rest = m as u32;
    let tail = seq![rest] + list.skip(d + 1);
    let old = h.ranges[r as int].range;
    let v = h.ranges[r as int].vreg.ix();
    let pos = position_of(h.in_vreg[v], r);
    assert(ProgPoint::at(p).ix() == p);
    lemma_below(h.in_bundle, m, cur, d);
    assert(0 <= pos < h.in_vreg[v].len() && h.in_vreg[v][pos] == r);
    assert(t.ranges[r as int].range.from == old.from);
    assert(t.ranges[r as int].range.to.ix() == p);
    assert(t.ranges[m].range.from.ix() == p);
    assert(t.ranges[m].range.to == old.to);
    assert forall|x: int| 0 <= x < m && x != r implies (#[trigger] t.ranges[x]) == h.ranges[x] by {}
    // Where a member stood before the cut.
    assert forall|b: int, i: int|
        0 <= b < t.in_bundle.len() && 0 <= i < t.in_bundle[b].len() implies {
        let x = t.in_bundle[b][i];
        if b == nb {
            if i == 0 {
                x == rest && (#[trigger] member(t, b, i)).from.ix() == p && member(t, b, i).to
                    == old.to
            } else {
                x == h.in_bundle[cur][d + i] && member(t, b, i) == member(h, cur, d + i)
            }
        } else if b == cur && i == d {
            x == r && member(t, b, i).from == old.from && member(t, b, i).to.ix() == p
        } else {
            x == h.in_bundle[b][i] && member(t, b, i) == member(h, b, i)
        }
    } by {
        if b == nb {
            assert(t.in_bundle[b][i] == tail[i]);
            if i > 0 {
                assert(tail[i] == list[d + i]);
                lemma_below(h.in_bundle, m, cur, d + i);
                lemma_neq(h.in_bundle, m, cur, d + i, cur, d);
            }
        } else if b == cur {
            assert(t.in_bundle[b][i] == list.take(d + 1)[i]);
            lemma_below(h.in_bundle, m, cur, i);
            if i != d {
                lemma_neq(h.in_bundle, m, cur, i, cur, d);
            }
        } else {
            lemma_below(h.in_bundle, m, b, i);
            lemma_neq(h.in_bundle, m, b, i, cur, d);
        }
    }
    assert(member(h, cur, d) == old);
    assert(others_kept(g, t, home)) by {
        assert forall|x: u32|
            x < g.ranges.len() && !g.in_bundle[home as int].contains(x) implies #[trigger] t.ranges[x as int]
            == g.ranges[x as int] by {
            assert(h.ranges[x as int] == g.ranges[x as int]);
            assert(h.in_bundle[cur][d] == r);
        }
        assert forall|b: int| 0 <= b < n && b != home implies #[trigger] t.in_bundle[b]
            == g.in_bundle[b] by {
            assert(h.in_bundle[b] == g.in_bundle[b]);
        }
        assert forall|b: int, i: int|
            0 <= b < t.in_bundle.len() && is_part(n, home, b) && 0 <= i < t.in_bundle[b].len() implies {
            let r = #[trigger] t.in_bundle[b][i];
            r >= g.ranges.len() || g.in_bundle[home as int].contains(r)
        } by {
            let _ = member(t, b, i);
            if b == nb {
                if i > 0 {
                    assert(t.in_bundle[b][i] == h.in_bundle[cur][d + i]);
                }
            } else {
                assert(t.in_bundle[b][i] == h.in_bundle[b][i]);
            }
        }
        assert forall|b: int, i: int|
            0 <= b < t.in_bundle.len() && is_part(n, home, b) && 0 <= i < t.in_bundle[b].len() implies from_home(
        g, home, t.ranges[(#[trigger] t.in_bundle[b][i]) as int].vreg) by {
            let _ = member(t, b, i);
            if b == nb {
                assert(from_home(g, home, h.ranges[h.in_bundle[cur][d + i] as int].vreg));
                lemma_below(h.in_bundle, m, cur, d + i);
            } else {
                assert(from_home(g, home, h.ranges[h.in_bundle[b][i] as int].vreg));
                lemma_below(h.in_bundle, m, b, i);
            }
        }
        assert forall|x: u32|
            x < g.ranges.len() && !g.in_bundle[home as int].contains(x) implies #[trigger] t.in_range[x as int]
            == g.in_range[x as int] by {
            assert(h.in_range[x as int] == g.in_range[x as int]);
            assert(h.in_bundle[cur][d] == r);
        }
    }
    if vregs_in_order(h) {
        lemma_vreg_insert_in_order(h, t, v, pos, r, p);
    }
    lemma_cut_extent(h, home, s.cur, d, r, p);
    if parts_in_order(g, h, home) {
        lemma_cut_range_in_order(g, home, s, r, p);
    }
    assert forall|o: int|
        0 <= o < n && o != home && apart(
            g.ranges,
            g.in_bundle[home as int],
            #[trigger] g.in_bundle[o],
        ) implies parts_apart(g, t, home, o) by {
        assert(parts_apart(g, h, home, o));
        assert(t.in_bundle[o] == h.in_bundle[o]);
        assert forall|b: int, i: int, j: int|
            #![trigger member(t, b, i), member(t, o, j)]
            0 <= b < t.in_bundle.len() && is_part(n, home, b) && 0 <= i < t.in_bundle[b].len() && 0
                <= j < t.in_bundle[o].len() implies member(t, b, i).precedes(member(t, o, j))
            || member(t, o, j).precedes(member(t, b, i)) by {
            let y = member(h, o, j);
            assert(member(t, o, j) == y);
            let x = if b == nb {
                member(h, cur, d + i)
            } else {
                member(h, b, i)
            };
            assert(x.precedes(y) || y.precedes(x));
        }
    }
}

proof fn lemma_cut_range_in_order(g: GraphState, home: u32, s: Cut, r: u32, p: int)
    requires
        parts_ok(g, home, s),
        parts_in_order(g, s.g, home),
        0 <= s.d < s.g.in_bundle[s.cur as int].len(),
        r == s.g.in_bundle[s.cur as int][s.d],
        s.g.bundles.len() < u32::MAX,
        s.g.ranges.len() < u32::MAX,
        s.g.ranges[r as int].range.from.ix() < p < s.g.ranges[r as int].range.to.ix(),
        p <= u32::MAX,
        lists_ok(s.g.in_bundle, s.g.ranges.len() as int),
    ensures
        parts_in_order(g, graph_cut_range(s.g, home, s.cur, s.d, r, p), home),
{
    let n = g.bundles.len() as int;
    let h = s.g;
    let m = h.ranges.len() as int;
    let t = graph_cut_range(h, home, s.cur, s.d, r, p);
    let nb = h.bundles.len() as int;
    let cur = s.cur as int;
    let d = s.d;
    let list = h.in_bundle[cur];
    let rest = m as u32;
    let tail = seq![rest] + list.skip(d + 1);
    let old = h.ranges[r as int].range;
    assert(ProgPoint::at(p).ix() == p);
    lemma_below(h.in_bundle, m, cur, d);
    // Every member of a part lies in one that was there before, at the same place or, for those of
    // the new part, at a place of the old one.
    assert forall|b: int, i: int|
        0 <= b < t.in_bundle.len() && 0 <= i < t.in_bundle[b].len() implies {
        let x = if b == nb {
            member(h, cur, d + i)
        } else {
            member(h, b, i)
        };
        let y = #[trigger] member(t, b, i);
        &&& x.from.ix() <= y.from.ix()
        &&& y.to.ix() <= x.to.ix()
        &&& b == nb ==> p <= y.from.ix() || i > 0
        &&& b == cur && i == d ==> y.to.ix() <= p
    } by {
        if b == nb {
            assert(t.in_bundle[b][i] == tail[i]);
            if i > 0 {
                assert(tail[i] == list[d + i]);
                lemma_below(h.in_bundle, m, cur, d + i);
                lemma_neq(h.in_bundle, m, cur, d + i, cur, d);
            }
        } else if b == cur {
            assert(t.in_bundle[b][i] == list.take(d + 1)[i]);
            lemma_below(h.in_bundle, m, cur, i);
            if i != d {
                lemma_neq(h.in_bundle, m, cur, i, cur, d);
            }
        } else {
            lemma_below(h.in_bundle, m, b, i);
            lemma_neq(h.in_bundle, m, b, i, cur, d);
        }
    }
    assert forall|b: int, i: int, j: int|
        #![trigger member(t, b, i), member(t, b, j)]
        0 <= b < t.in_bundle.len() && is_part(n, home, b) && 0 <= i < j
            < t.in_bundle[b].len() implies member(t, b, i).precedes(member(t, b, j)) by {
        if b == nb {
            assert(member(h, cur, d + i).precedes(member(h, cur, d + j)));
        } else {
            assert(member(h, b, i).precedes(member(h, b, j)));
        }
    }
    assert forall|a: int, i: int, b: int, j: int|
        #![trigger member(t, a, i), member(t, b, j)]
        0 <= a < t.in_bundle.len() && 0 <= b < t.in_bundle.len() && earlier(n, home, a, b) && 0 <= i
            < t.in_bundle[a].len() && 0 <= j < t.in_bundle[b].len() implies member(
        t,
        a,
        i,
    ).precedes(member(t, b, j)) by {
        if b == nb {
            if a == cur {
                if i < d + j {
                    assert(member(h, cur, i).precedes(member(h, cur, d + j)));
                }
            } else {
                assert(member(h, a, i).precedes(member(h, cur, d + j)));
            }
        } else {
            assert(member(h, a, i).precedes(member(h, b, j)));
        }
    }
}

} // verus!
