//! Splitting a bundle.
use crate::bundles::{fresh_bundle, in_its_vreg, listed};
use crate::code_range::CodeRange;
use crate::data::{LiveBundle, LiveRange, Use, FIXED_USES_MASK};
use crate::func::FuncModel;
use crate::graph::{
    core_ok, fixed_count, graph_ok, lemma_uses_nonneg, members_ok, range_ok, stats_ok, use_fixed,
    use_weight, uses_weight, vreg_ok, GraphState, LiveGraph, MAX_ENTRIES,
};
use crate::index::{DefIndex, LiveBundleIndex, LiveRangeIndex};
use crate::lists::{is_free, lemma_below, lemma_distinct, lemma_neq, lists_ok, node_at, NIL};
use crate::parts::{
    lemma_parts_cut_list, lemma_parts_cut_range, lemma_parts_start, lemma_parts_tag, parts_ok,
};
use crate::reg::{OperandPolicy, ProgPoint, RegAllocError};
use crate::small::{small_get, small_len, small_new, small_push, IndexVec};
use vstd::prelude::*;

verus! {

/// The first position from `i` on whose use is at place `p` or later.
pub open spec fn first_use_from(uses: Seq<Use>, list: Seq<u32>, p: int, i: int) -> int
    decreases list.len() - i,
{
    if i < 0 || i >= list.len() || uses[list[i] as int].pos.ix() >= p {
        i
    } else {
        first_use_from(uses, list, p, i + 1)
    }
}

/// The position of a number in a sequence that holds it.
pub open spec fn position_of(list: Seq<u32>, r: u32) -> int {
    choose|i: int| 0 <= i < list.len() && list[i] == r
}

/// A new bundle with the spill set of bundle `home`.
pub open spec fn split_off_bundle(g: GraphState, home: u32) -> LiveBundle {
    LiveBundle { spillset: g.bundles[home as int].spillset, ..fresh_bundle() }
}

/// The live ranges of bundle `cur` from position `d` on go over to a new bundle. That they belong
/// to it is noted later.
pub open spec fn graph_cut_list(g: GraphState, home: u32, cur: u32, d: int) -> GraphState {
    let list = g.in_bundle[cur as int];
    GraphState {
        bundles: g.bundles.push(split_off_bundle(g, home)),
        in_bundle: g.in_bundle.update(cur as int, list.take(d)).push(list.skip(d)),
        ..g
    }
}

/// The part of live range `r` before place `p`, with its first `j` uses.
pub open spec fn cut_first(g: GraphState, r: u32, p: int, j: int) -> LiveRange {
    let lr = g.ranges[r as int];
    let list = g.in_range[r as int];
    let moved = j < list.len();
    LiveRange {
        range: CodeRange { from: lr.range.from, to: ProgPoint::at(p) },
        uses_spill_weight: if moved {
            uses_weight(g.uses, list.take(j)) as u32
        } else {
            lr.uses_spill_weight
        },
        num_fixed_uses_and_flags: if moved {
            (lr.num_fixed_uses_and_flags & !FIXED_USES_MASK) | (fixed_count(
                g.uses,
                list.take(j),
            ) as u32)
        } else {
            lr.num_fixed_uses_and_flags
        },
        def: if lr.def.is_valid() && g.defs[lr.def.ix()].pos.ix() >= p {
            DefIndex(u32::MAX)
        } else {
            lr.def
        },
        ..lr
    }
}

/// The part of live range `r` from place `p` on, with its uses after the first `j`, in bundle
/// `b`.
pub open spec fn cut_rest(g: GraphState, r: u32, p: int, j: int, b: u32) -> LiveRange {
    let lr = g.ranges[r as int];
    let list = g.in_range[r as int];
    let moved = j < list.len();
    LiveRange {
        range: CodeRange { from: ProgPoint::at(p), to: lr.range.to },
        vreg: lr.vreg,
        bundle: LiveBundleIndex(b),
        uses_spill_weight: if moved {
            (lr.uses_spill_weight - uses_weight(g.uses, list.take(j))) as u32
        } else {
            0
        },
        num_fixed_uses_and_flags: if moved {
            (lr.fixed_uses() - fixed_count(g.uses, list.take(j))) as u32
        } else {
            0
        },
        def: if lr.def.is_valid() && g.defs[lr.def.ix()].pos.ix() >= p {
            lr.def
        } else {
            DefIndex(u32::MAX)
        },
    }
}

/// Live range `r`, at position `d` of bundle `cur`, is split at place `p`. The second part, and
/// the live ranges after it, go over to a new bundle.
pub open spec fn graph_cut_range(g: GraphState, home: u32, cur: u32, d: int, r: u32, p: int) -> GraphState {
    let v = g.ranges[r as int].vreg.ix();
    let rest = g.ranges.len() as u32;
    let nb = g.bundles.len() as u32;
    let uses = g.in_range[r as int];
    let j = first_use_from(g.uses, uses, p, 0);
    let list = g.in_bundle[cur as int];
    GraphState {
        ranges: g.ranges.update(r as int, cut_first(g, r, p, j)).push(cut_rest(g, r, p, j, nb)),
        bundles: g.bundles.push(split_off_bundle(g, home)),
        in_vreg: g.in_vreg.update(
            v,
            g.in_vreg[v].insert(position_of(g.in_vreg[v], r) + 1, rest),
        ),
        in_range: g.in_range.update(r as int, uses.take(j)).push(uses.skip(j)),
        in_bundle: g.in_bundle.update(cur as int, list.take(d + 1)).push(
            seq![rest] + list.skip(d + 1),
        ),
        ..g
    }
}

/// How far a split has come: the tables, the bundle that is filled and the number of live ranges
/// in it, the new bundles, and the number of points that are done with.
pub struct Cut {
    pub g: GraphState,
    pub cur: u32,
    pub d: int,
    pub made: Seq<u32>,
    pub k: int,
}

/// The first position from `k` on whose point is after place `p`.
pub open spec fn skip_points(points: Seq<u32>, k: int, p: int) -> int
    decreases points.len() - k,
{
    if k < 0 || k >= points.len() || points[k] > p {
        k
    } else {
        skip_points(points, k + 1, p)
    }
}

/// Live range `r` is split at the points in it.
pub open spec fn split_rest(s: Cut, home: u32, r: u32, points: Seq<u32>) -> Result<
    Cut,
    RegAllocError,
>
    decreases points.len() - s.k,
{
    let lr = s.g.ranges[r as int];
    if s.k < 0 || s.k >= points.len() || points[s.k] >= lr.range.to.ix() {
        Ok(Cut { d: s.d + 1, ..s })
    } else if points[s.k] <= lr.range.from.ix() {
        split_rest(Cut { k: s.k + 1, ..s }, home, r, points)
    } else if s.g.ranges.len() >= MAX_ENTRIES || s.g.bundles.len() >= MAX_ENTRIES {
        Err(RegAllocError::TooLarge)
    } else {
        let nb = s.g.bundles.len() as u32;
        let t = Cut {
            g: graph_cut_range(s.g, home, s.cur, s.d, r, points[s.k] as int),
            cur: nb,
            d: 0,
            made: s.made.push(nb),
            k: s.k + 1,
        };
        split_rest(t, home, s.g.ranges.len() as u32, points)
    }
}

/// Live range `r` is noted as one of the bundle that is filled.
pub open spec fn cut_tag(s: Cut, r: u32) -> Cut {
    Cut {
        g: GraphState {
            ranges: s.g.ranges.update(
                r as int,
                LiveRange { bundle: LiveBundleIndex(s.cur), ..s.g.ranges[r as int] },
            ),
            ..s.g
        },
        ..s
    }
}

/// The next live range. If a point comes before it a new bundle begins with it.
pub open spec fn split_one(s: Cut, home: u32, r: u32, points: Seq<u32>) -> Result<
    Cut,
    RegAllocError,
> {
    let from = s.g.ranges[r as int].range.from.ix();
    if 0 <= s.k < points.len() && points[s.k] <= from {
        if s.g.bundles.len() >= MAX_ENTRIES {
            Err(RegAllocError::TooLarge)
        } else {
            let nb = s.g.bundles.len() as u32;
            let t = Cut {
                g: graph_cut_list(s.g, home, s.cur, s.d),
                cur: nb,
                d: 0,
                made: s.made.push(nb),
                k: skip_points(points, s.k + 1, from),
            };
            split_rest(cut_tag(t, r), home, r, points)
        }
    } else {
        split_rest(cut_tag(s, r), home, r, points)
    }
}

/// The live ranges from position `i` of the list on.
pub open spec fn split_list(s: Cut, home: u32, list: Seq<u32>, i: int, points: Seq<u32>) -> Result<
    Cut,
    RegAllocError,
>
    decreases list.len() - i,
{
    if i < 0 || i >= list.len() {
        Ok(s)
    } else {
        match split_one(s, home, list[i], points) {
            Ok(t) => split_list(t, home, list, i + 1, points),
            Err(e) => Err(e),
        }
    }
}

/// Bundle `b` is split at the points.
pub open spec fn graph_split(g: GraphState, b: u32, points: Seq<u32>) -> Result<
    Cut,
    RegAllocError,
> {
    let list = g.in_bundle[b as int];
    let start = g.ranges[list[0] as int].range.from.ix();
    let s = Cut { g, cur: b, d: 0, made: Seq::empty(), k: skip_points(points, 0, start) };
    split_list(s, b, list, 0, points)
}

/// In the bundle that is filled the live ranges from position `d` on still belong to bundle
/// `home`; all others belong to the bundle they are in.
pub open spec fn part_members(g: GraphState, home: u32, cur: u32, d: int) -> bool {
    forall|b: int, i: int|
        0 <= b < g.in_bundle.len() && 0 <= i < g.in_bundle[b].len() ==> {
            &&& g.ranges[(#[trigger] g.in_bundle[b][i]) as int].bundle.0 == (if b == cur && i >= d {
                home as int
            } else {
                b
            })
            &&& g.ranges[g.in_bundle[b][i] as int].vreg.is_valid()
        }
}

/// The tables fit together but for the bundles of live ranges that are still to come.
pub open spec fn cut_ok(f: FuncModel, g: GraphState, home: u32, cur: u32, d: int) -> bool {
    &&& core_ok(f, g)
    &&& listed(g)
    &&& part_members(g, home, cur, d)
    &&& home < g.bundles.len()
    &&& cur < g.bundles.len()
    &&& 0 <= d <= g.in_bundle[cur as int].len()
}

/// What a split leaves of the tables: mentions, registers and bundles stay; a live range keeps its
/// register and its bundle or goes to a new bundle; bundles with live ranges keep some.
pub open spec fn split_keeps(g: GraphState, h: GraphState, home: u32, made: Seq<u32>) -> bool {
    &&& h.uses == g.uses
    &&& h.defs == g.defs
    &&& h.vregs == g.vregs
    &&& h.in_vreg.len() == g.in_vreg.len()
    &&& h.ranges.len() >= g.ranges.len()
    &&& h.bundles.len() >= g.bundles.len()
    &&& h.bundles.take(g.bundles.len() as int) == g.bundles
    &&& forall|r: int|
        0 <= r < g.ranges.len() ==> {
            &&& (#[trigger] h.ranges[r]).vreg == g.ranges[r].vreg
            &&& h.ranges[r].bundle == g.ranges[r].bundle || made.contains(h.ranges[r].bundle.0)
        }
    &&& forall|i: int|
        0 <= i < made.len() ==> g.bundles.len() <= (#[trigger] made[i]) < h.bundles.len()
    &&& forall|b: int|
        g.bundles.len() <= b < h.bundles.len() ==> #[trigger] h.bundles[b] == split_off_bundle(
            g,
            home,
        )
}

pub proof fn lemma_first_use_from(uses: Seq<Use>, list: Seq<u32>, p: int, i: int)
    requires
        0 <= i <= list.len(),
    ensures
        i <= first_use_from(uses, list, p, i) <= list.len(),
    decreases list.len() - i,
{
    if i < list.len() {
        lemma_first_use_from(uses, list, p, i + 1);
    }
}

/// The uses before a position and those after it make up all uses.
pub proof fn lemma_uses_split(uses: Seq<Use>, list: Seq<u32>, j: int)
    requires
        0 <= j <= list.len(),
    ensures
        uses_weight(uses, list) == uses_weight(uses, list.take(j)) + uses_weight(
            uses,
            list.skip(j),
        ),
        fixed_count(uses, list) == fixed_count(uses, list.take(j)) + fixed_count(
            uses,
            list.skip(j),
        ),
    decreases list.len(),
{
    if j == list.len() {
        assert(list.take(j) =~= list);
        assert(list.skip(j) =~= Seq::empty());
    } else {
        let t = list.drop_last();
        lemma_uses_split(uses, t, j);
        assert(t.take(j) =~= list.take(j));
        assert(list.skip(j).drop_last() =~= t.skip(j));
    }
}

proof fn lemma_take_next(uses: Seq<Use>, list: Seq<u32>, j: int)
    requires
        0 <= j < list.len(),
    ensures
        uses_weight(uses, list.take(j + 1)) == uses_weight(uses, list.take(j)) + use_weight(
            uses,
            list[j],
        ),
        fixed_count(uses, list.take(j + 1)) == fixed_count(uses, list.take(j)) + if use_fixed(
            uses,
            list[j],
        ) {
            1int
        } else {
            0int
        },
{
    assert(list.take(j + 1).drop_last() =~= list.take(j));
}

proof fn lemma_set_fixed(x: u32, count: u32)
    requires
        count <= FIXED_USES_MASK,
    ensures
        ((x & !FIXED_USES_MASK) | count) & FIXED_USES_MASK == count,
        count & FIXED_USES_MASK == count,
        x & FIXED_USES_MASK <= FIXED_USES_MASK,
{
    assert(((x & !0xff_ffffu32) | count) & 0xff_ffff == count && count & 0xff_ffff == count && x
        & 0xff_ffff <= 0xff_ffff) by (bit_vector)
        requires
            count <= 0xff_ffff,
    ;
}

/// What a cut makes of the tables fits together.
proof fn lemma_cut_range_ok(
    f: FuncModel,
    g: GraphState,
    home: u32,
    cur: u32,
    d: int,
    r: u32,
    p: int,
)
    requires
        cut_ok(f, g, home, cur, d + 1),
        d >= 0,
        r == g.in_bundle[cur as int][d],
        g.ranges.len() < MAX_ENTRIES,
        g.bundles.len() < MAX_ENTRIES,
        g.ranges[r as int].range.from.ix() < p < g.ranges[r as int].range.to.ix(),
        lists_ok(
            graph_cut_range(g, home, cur, d, r, p).in_vreg,
            graph_cut_range(g, home, cur, d, r, p).ranges.len() as int,
        ),
        lists_ok(
            graph_cut_range(g, home, cur, d, r, p).in_bundle,
            graph_cut_range(g, home, cur, d, r, p).ranges.len() as int,
        ),
        lists_ok(
            graph_cut_range(g, home, cur, d, r, p).in_range,
            graph_cut_range(g, home, cur, d, r, p).uses.len() as int,
        ),
    ensures
        cut_ok(f, graph_cut_range(g, home, cur, d, r, p), home, g.bundles.len() as u32, 1),
{
    let h = graph_cut_range(g, home, cur, d, r, p);
    let v = g.ranges[r as int].vreg.ix();
    let rest = g.ranges.len() as u32;
    let nb = g.bundles.len() as u32;
    let uses = g.in_range[r as int];
    let j = first_use_from(g.uses, uses, p, 0);
    let list = g.in_bundle[cur as int];
    let lr = g.ranges[r as int];
    lemma_below(g.in_bundle, g.ranges.len() as int, cur as int, d);
    assert(range_ok(f, g, r as int));
    assert(stats_ok(g, r as int));
    assert(in_its_vreg(g, r));
    lemma_first_use_from(g.uses, uses, p, 0);
    lemma_uses_split(g.uses, uses, j);
    lemma_uses_nonneg(g.uses, uses.take(j));
    lemma_uses_nonneg(g.uses, uses.skip(j));
    lemma_set_fixed(lr.num_fixed_uses_and_flags, 0);
    let cnt = fixed_count(g.uses, uses.take(j));
    lemma_set_fixed(lr.num_fixed_uses_and_flags, cnt as u32);
    lemma_set_fixed(0, (lr.fixed_uses() - cnt) as u32);
    assert(ProgPoint::at(p).ix() == p);
    assert(h.ranges[r as int] == cut_first(g, r, p, j));
    assert(h.ranges[rest as int] == cut_rest(g, r, p, j, nb));
    if j == uses.len() {
        assert(uses.take(j) =~= uses);
        assert(uses.skip(j) =~= Seq::empty());
    }
    assert(0u32 & FIXED_USES_MASK == 0) by {
        lemma_set_fixed(0, 0);
    }
    assert forall|k: int| 0 <= k < h.ranges.len() implies #[trigger] range_ok(f, h, k) by {
        if k < g.ranges.len() {
            assert(range_ok(f, g, k));
        }
    }
    assert forall|k: int| 0 <= k < h.ranges.len() implies #[trigger] stats_ok(h, k) by {
        if k < g.ranges.len() {
            assert(stats_ok(g, k));
        }
    }
    assert forall|w: int| 0 <= w < h.vregs.len() implies #[trigger] vreg_ok(f, h, w) by {
        assert(vreg_ok(f, g, w));
    }
    let pos = position_of(g.in_vreg[v], r);
    assert(0 <= pos < g.in_vreg[v].len() && g.in_vreg[v][pos] == r);
    let vlist = g.in_vreg[v].insert(pos + 1, rest);
    assert forall|w: int, i: int|
        0 <= w < h.in_vreg.len() && 0 <= i < h.in_vreg[w].len() implies h.ranges[(
    #[trigger] h.in_vreg[w][i]) as int].vreg.0 == w by {
        if w == v {
            if i <= pos {
                assert(vlist[i] == g.in_vreg[v][i]);
                lemma_below(g.in_vreg, g.ranges.len() as int, v, i);
            } else if i > pos + 1 {
                assert(vlist[i] == g.in_vreg[v][i - 1]);
                lemma_below(g.in_vreg, g.ranges.len() as int, v, i - 1);
            }
        } else {
            assert(h.in_vreg[w][i] == g.in_vreg[w][i]);
            lemma_below(g.in_vreg, g.ranges.len() as int, w, i);
        }
    }
    // Every live range that was in the list of its register still is.
    assert forall|x: u32| x < g.ranges.len() && in_its_vreg(g, x) implies #[trigger] in_its_vreg(
        h,
        x,
    ) by {
        let w = g.ranges[x as int].vreg.ix();
        let i = choose|i: int| 0 <= i < g.in_vreg[w].len() && g.in_vreg[w][i] == x;
        if w == v {
            if i <= pos {
                assert(vlist[i] == x);
            } else {
                assert(vlist[i + 1] == x);
            }
            assert(h.in_vreg[w].contains(x));
        }
    }
    assert(in_its_vreg(h, rest)) by {
        assert(vlist[pos + 1] == rest);
        assert(h.in_vreg[v].contains(rest));
    }
    let tail = seq![rest] + list.skip(d + 1);
    assert forall|b: int, i: int|
        0 <= b < h.in_bundle.len() && 0 <= i < h.in_bundle[b].len() implies in_its_vreg(
        h,
        #[trigger] h.in_bundle[b][i],
    ) by {
        if b == nb {
            if i > 0 {
                assert(tail[i] == list[d + i]);
                lemma_below(g.in_bundle, g.ranges.len() as int, cur as int, d + i);
                assert(in_its_vreg(g, g.in_bundle[cur as int][d + i]));
            }
        } else {
            assert(h.in_bundle[b][i] == g.in_bundle[b][i]);
            lemma_below(g.in_bundle, g.ranges.len() as int, b, i);
            assert(in_its_vreg(g, g.in_bundle[b][i]));
        }
    }
    assert forall|b: int, i: int|
        0 <= b < h.in_bundle.len() && 0 <= i < h.in_bundle[b].len() implies {
        &&& h.ranges[(#[trigger] h.in_bundle[b][i]) as int].bundle.0 == (if b == nb && i >= 1 {
            home as int
        } else {
            b
        })
        &&& h.ranges[h.in_bundle[b][i] as int].vreg.is_valid()
    } by {
        if b == nb {
            if i > 0 {
                assert(tail[i] == list[d + i]);
                lemma_below(g.in_bundle, g.ranges.len() as int, cur as int, d + i);
                lemma_neq(
                    g.in_bundle,
                    g.ranges.len() as int,
                    cur as int,
                    d + i,
                    cur as int,
                    d,
                );
                assert(g.ranges[g.in_bundle[cur as int][d + i] as int].bundle.0 == home);
            }
        } else {
            assert(h.in_bundle[b][i] == g.in_bundle[b][i]);
            lemma_below(g.in_bundle, g.ranges.len() as int, b, i);
            assert(g.ranges[g.in_bundle[b][i] as int].vreg.is_valid());
        }
    }
}

impl LiveGraph {
    /// Find the first use of a live range at place `p` or later: the use before it, and count and
    /// weight of the uses before it.
    fn uses_before(&self, r: u32, p: ProgPoint) -> (res: (u32, bool, u32, u32))
        requires
            self.linked(),
            core_ok(self.func@, self@),
            r < self@.ranges.len(),
        ensures
            ({
                let list = self@.in_range[r as int];
                let j = first_use_from(self@.uses, list, p.ix(), 0);
                &&& 0 <= j <= list.len()
                &&& res.0 == node_at(list, j - 1)
                &&& res.1 == (j < list.len())
                &&& res.2 == fixed_count(self@.uses, list.take(j))
                &&& res.3 == uses_weight(self@.uses, list.take(j))
                &&& res.2 <= self@.ranges[r as int].fixed_uses()
                &&& res.3 <= self@.ranges[r as int].uses_spill_weight
            }),
    {
        let ghost g = self@;
        let ghost list = g.in_range[r as int];
        assert(stats_ok(g, r as int));
        let mut last_use_in_first_range: u32 = NIL;
        let mut use_iter = self.in_range.first(r as usize);
        let mut num_fixed_uses: u32 = 0;
        let mut uses_spill_weight: u32 = 0;
        let ghost mut j: int = 0;
        proof {
            assert(list.take(0) =~= Seq::empty());
            lemma_uses_split(g.uses, list, 0);
            lemma_uses_nonneg(g.uses, list.skip(0));
        }
        while use_iter != NIL && self.uses[use_iter as usize].pos < p
            invariant
                self.linked(),
                core_ok(self.func@, self@),
                self@ == g,
                r < g.ranges.len(),
                stats_ok(g, r as int),
                list == g.in_range[r as int],
                0 <= j <= list.len(),
                last_use_in_first_range == node_at(list, j - 1),
                use_iter == node_at(list, j),
                use_iter == NIL <==> j == list.len(),
                use_iter != NIL ==> use_iter < g.uses.len(),
                num_fixed_uses == fixed_count(g.uses, list.take(j)),
                uses_spill_weight == uses_weight(g.uses, list.take(j)),
                num_fixed_uses <= g.ranges[r as int].fixed_uses(),
                uses_spill_weight <= g.ranges[r as int].uses_spill_weight,
                first_use_from(g.uses, list, p.ix(), 0) == first_use_from(
                    g.uses,
                    list,
                    p.ix(),
                    j,
                ),
            decreases list.len() - j,
        {
            last_use_in_first_range = use_iter;
            let policy = self.uses[use_iter as usize].operand.policy();
            proof {
                lemma_take_next(g.uses, list, j);
                lemma_uses_split(g.uses, list, j + 1);
                lemma_uses_nonneg(g.uses, list.skip(j + 1));
                lemma_set_fixed(g.ranges[r as int].num_fixed_uses_and_flags, 0);
            }
            if matches!(policy, OperandPolicy::FixedReg(_)) {
                num_fixed_uses = num_fixed_uses + 1;
            }
            uses_spill_weight = uses_spill_weight + crate::data::spill_weight_from_policy(policy);
            use_iter = self.in_range.next(use_iter, Ghost(r as int), Ghost(j));
            proof {
                j = j + 1;
            }
        }
        (last_use_in_first_range, use_iter != NIL, num_fixed_uses, uses_spill_weight)
    }

    /// Split a live range, at position `d` of the bundle that is filled, at place `p`.
    fn cut_range(
        &mut self,
        home: LiveBundleIndex,
        cur: LiveBundleIndex,
        r: LiveRangeIndex,
        p: u32,
        Ghost(d): Ghost<int>,
    ) -> (res: Result<LiveRangeIndex, RegAllocError>)
        requires
            old(self).linked(),
            cut_ok(old(self).func@, old(self)@, home.0, cur.0, d + 1),
            d >= 0,
            r.0 == old(self)@.in_bundle[cur.ix()][d],
            old(self)@.ranges[r.ix()].range.from.ix() < p < old(
                self,
            )@.ranges[r.ix()].range.to.ix(),
        ensures
            final(self).func == old(self).func,
            match res {
                Ok(rest) => {
                    &&& old(self)@.ranges.len() < MAX_ENTRIES
                    &&& old(self)@.bundles.len() < MAX_ENTRIES
                    &&& final(self).linked()
                    &&& final(self)@ == graph_cut_range(
                        old(self)@,
                        home.0,
                        cur.0,
                        d,
                        r.0,
                        p as int,
                    )
                    &&& rest.0 == old(self)@.ranges.len()
                    &&& cut_ok(
                        final(self).func@,
                        final(self)@,
                        home.0,
                        old(self)@.bundles.len() as u32,
                        1,
                    )
                },
                Err(e) => {
                    &&& e == RegAllocError::TooLarge
                    &&& old(self)@.ranges.len() >= MAX_ENTRIES || old(self)@.bundles.len()
                        >= MAX_ENTRIES
                },
            },
    {
        let ghost g = self@;
        let ghost f = self.func@;
        if self.ranges.len() >= MAX_ENTRIES as usize || self.bundles.len()
            >= MAX_ENTRIES as usize {
            return Err(RegAllocError::TooLarge);
        }
        proof {
            lemma_below(g.in_bundle, g.ranges.len() as int, cur.ix(), d);
            assert(range_ok(f, g, r.ix()));
            assert(stats_ok(g, r.ix()));
            assert(in_its_vreg(g, r.0));
        }
        let split_point = ProgPoint::from_index(p);
        let data = self.ranges[r.index()];
        let ghost uses = g.in_range[r.ix()];
        let ghost j = first_use_from(g.uses, uses, p as int, 0);
        let (last_use, moved, num_fixed_uses, uses_spill_weight) = self.uses_before(
            r.0,
            split_point,
        );
        let rest = self.ranges.len();
        let nb = self.bundles.len();
        let mut first = data;
        let mut second = LiveRange {
            range: CodeRange { from: split_point, to: data.range.to },
            vreg: data.vreg,
            bundle: LiveBundleIndex::new(nb),
            uses_spill_weight: 0,
            num_fixed_uses_and_flags: 0,
            def: DefIndex::invalid(),
        };
        first.range.to = split_point;
        if moved {
            proof {
                lemma_set_fixed(data.num_fixed_uses_and_flags, 0);
                lemma_set_fixed(data.num_fixed_uses_and_flags, num_fixed_uses);
            }
            let rest_fixed_uses = data.num_fixed_uses() - num_fixed_uses;
            second.set_num_fixed_uses(rest_fixed_uses);
            second.uses_spill_weight = data.uses_spill_weight - uses_spill_weight;
            first.set_num_fixed_uses(num_fixed_uses);
            first.uses_spill_weight = uses_spill_weight;
        }
        if data.def.is_valid() {
            let def_pos = self.defs[data.def.index()].pos;
            if def_pos >= split_point {
                first.def = DefIndex::invalid();
                second.def = data.def;
            }
        }
        assert(first == cut_first(g, r.0, p as int, j));
        assert(second == cut_rest(g, r.0, p as int, j, nb as u32));
        self.ranges.set(r.index(), first);
        self.ranges.push(second);
        // The list of uses.
        self.in_range.add_list();
        self.in_range.split_after(r.index(), last_use, rest, Ghost(j));
        // The list of the register.
        let ghost v = data.vreg.ix();
        let ghost pos = position_of(g.in_vreg[v], r.0);
        assert(0 <= pos < g.in_vreg[v].len() && g.in_vreg[v][pos] == r.0);
        self.in_vreg.add_node();
        self.in_vreg.insert_after(data.vreg.index(), r.0, rest as u32, Ghost(pos + 1));
        // The lists of the bundles.
        let spillset = self.bundles[home.index()].spillset;
        self.bundles.push(
            LiveBundle {
                spillset,
                allocation: crate::reg::Allocation::none(),
                prio: 0,
                spill_weight_and_props: 0,
            },
        );
        self.in_bundle.add_node();
        self.in_bundle.add_list();
        self.in_bundle.split_after(cur.index(), r.0, nb, Ghost(d + 1));
        let ghost list = g.in_bundle[cur.ix()];
        assert(is_free(self.in_bundle@, rest as u32)) by {
            assert forall|l: int, i: int|
                0 <= l < self.in_bundle@.len() && 0 <= i < self.in_bundle@[l].len() implies (
            #[trigger] self.in_bundle@[l][i]) != rest as u32 by {
                if l == nb {
                    assert(self.in_bundle@[l][i] == list[d + 1 + i]);
                    lemma_below(g.in_bundle, g.ranges.len() as int, cur.ix(), d + 1 + i);
                } else {
                    assert(self.in_bundle@[l][i] == g.in_bundle[l][i]);
                    lemma_below(g.in_bundle, g.ranges.len() as int, l, i);
                }
            }
        }
        self.in_bundle.insert_after(nb, NIL, rest as u32, Ghost(0));
        proof {
            let h = graph_cut_range(g, home.0, cur.0, d, r.0, p as int);
            assert(list.skip(d + 1).insert(0, rest as u32) =~= seq![rest as u32] + list.skip(
                d + 1,
            ));
            assert(self@.in_range =~= h.in_range);
            assert(self@.in_vreg =~= h.in_vreg);
            assert(self@.in_bundle =~= h.in_bundle);
            assert(self@.ranges =~= h.ranges);
            assert(self@ == h);
            self.in_range.lemma_ok();
            self.in_vreg.lemma_ok();
            self.in_bundle.lemma_ok();
            lemma_cut_range_ok(f, g, home.0, cur.0, d, r.0, p as int);
        }
        Ok(LiveRangeIndex::new(rest))
    }
}

/// Bundles with live ranges keep some, and new bundles have some.
pub open spec fn split_nonempty(g: GraphState, h: GraphState, made: Seq<u32>) -> bool {
    &&& forall|b: int|
        0 <= b < g.in_bundle.len() && g.in_bundle[b].len() > 0 ==> (#[trigger] h.in_bundle[b]).len()
            > 0
    &&& forall|i: int| 0 <= i < made.len() ==> h.in_bundle[(#[trigger] made[i]) as int].len() > 0
}

/// What holds between the steps of a split of bundle `home` of the tables `g`: the live ranges
/// after position `s.d` of the bundle that is filled are those in `tail`.
pub open spec fn cut_inv(f: FuncModel, g: GraphState, home: u32, s: Cut, tail: Seq<u32>) -> bool {
    &&& graph_ok(f, g)
    &&& home < g.bundles.len()
    &&& cut_ok(f, s.g, home, s.cur, s.d)
    &&& s.g.in_bundle[s.cur as int].skip(s.d) == tail
    &&& s.cur == home || s.made.contains(s.cur)
    &&& s.k >= 0
    &&& split_keeps(g, s.g, home, s.made)
    &&& split_nonempty(g, s.g, s.made)
    &&& parts_ok(g, home, s)
}

proof fn lemma_push_contains(s: Seq<u32>, x: u32)
    ensures
        s.push(x).contains(x),
        forall|y: u32| s.contains(y) ==> #[trigger] s.push(x).contains(y),
{
    assert(s.push(x)[s.len() as int] == x);
    assert forall|y: u32| s.contains(y) implies #[trigger] s.push(x).contains(y) by {
        let i = choose|i: int| 0 <= i < s.len() && s[i] == y;
        assert(s.push(x)[i] == y);
    }
}

/// Noting the next live range as one of the bundle that is filled.
proof fn lemma_cut_tag(f: FuncModel, g: GraphState, home: u32, s: Cut, r: u32, tail: Seq<u32>)
    requires
        cut_inv(f, g, home, s, tail),
        s.d < s.g.in_bundle[s.cur as int].len(),
        r == s.g.in_bundle[s.cur as int][s.d],
    ensures
        cut_inv(f, g, home, Cut { d: s.d + 1, ..cut_tag(s, r) }, tail.skip(1)),
        tail.len() > 0,
        tail[0] == r,
{
    let h = s.g;
    let t = cut_tag(s, r).g;
    let n = h.ranges.len() as int;
    assert(tail[0] == h.in_bundle[s.cur as int].skip(s.d)[0]);
    lemma_below(h.in_bundle, n, s.cur as int, s.d);
    lemma_parts_tag(g, home, s, r);
    assert forall|k: int| 0 <= k < t.ranges.len() implies #[trigger] range_ok(f, t, k) by {
        assert(range_ok(f, h, k));
    }
    assert forall|k: int| 0 <= k < t.ranges.len() implies #[trigger] stats_ok(t, k) by {
        assert(stats_ok(h, k));
    }
    assert forall|v: int| 0 <= v < t.vregs.len() implies #[trigger] vreg_ok(f, t, v) by {
        assert(vreg_ok(f, h, v));
    }
    assert forall|v: int, i: int|
        0 <= v < t.in_vreg.len() && 0 <= i < t.in_vreg[v].len() implies t.ranges[(
    #[trigger] t.in_vreg[v][i]) as int].vreg.0 == v by {
        lemma_below(h.in_vreg, n, v, i);
    }
    assert forall|b: int, i: int|
        0 <= b < t.in_bundle.len() && 0 <= i < t.in_bundle[b].len() implies in_its_vreg(
        t,
        #[trigger] t.in_bundle[b][i],
    ) by {
        lemma_below(h.in_bundle, n, b, i);
        assert(in_its_vreg(h, h.in_bundle[b][i]));
    }
    assert forall|b: int, i: int|
        0 <= b < t.in_bundle.len() && 0 <= i < t.in_bundle[b].len() implies {
        &&& t.ranges[(#[trigger] t.in_bundle[b][i]) as int].bundle.0 == (if b == s.cur && i >= s.d
            + 1 {
            home as int
        } else {
            b
        })
        &&& t.ranges[t.in_bundle[b][i] as int].vreg.is_valid()
    } by {
        lemma_below(h.in_bundle, n, b, i);
        let x = h.in_bundle[b][i];
        assert(h.ranges[x as int].vreg.is_valid());
        if x == r {
            lemma_distinct(h.in_bundle, n, b, i, s.cur as int, s.d);
        }
    }
    assert(t.in_bundle[s.cur as int].skip(s.d + 1) =~= tail.skip(1));
    assert forall|k: int| 0 <= k < g.ranges.len() implies {
        &&& (#[trigger] t.ranges[k]).vreg == g.ranges[k].vreg
        &&& t.ranges[k].bundle == g.ranges[k].bundle || s.made.contains(t.ranges[k].bundle.0)
    } by {
        assert(h.ranges[k].vreg == g.ranges[k].vreg);
        if k == r {
            if s.cur == home {
                assert(h.ranges[k].bundle.0 == home);
                if h.ranges[k].bundle != g.ranges[k].bundle {
                    assert(s.made.contains(home));
                    let i = choose|i: int| 0 <= i < s.made.len() && s.made[i] == home;
                    assert(g.bundles.len() <= s.made[i]);
                }
            }
        }
    }
}

/// A new bundle takes the live ranges that are still to come.
proof fn lemma_cut_list(f: FuncModel, g: GraphState, home: u32, s: Cut, k: int, tail: Seq<u32>)
    requires
        cut_inv(f, g, home, s, tail),
        1 <= s.d < s.g.in_bundle[s.cur as int].len(),
        s.g.bundles.len() < MAX_ENTRIES,
        k >= 0,
        lists_ok(
            graph_cut_list(s.g, home, s.cur, s.d).in_bundle,
            s.g.ranges.len() as int,
        ),
    ensures
        cut_inv(
            f,
            g,
            home,
            Cut {
                g: graph_cut_list(s.g, home, s.cur, s.d),
                cur: s.g.bundles.len() as u32,
                d: 0,
                made: s.made.push(s.g.bundles.len() as u32),
                k,
            },
            tail,
        ),
{
    let h = s.g;
    let t = graph_cut_list(h, home, s.cur, s.d);
    let nb = h.bundles.len() as u32;
    let n = h.ranges.len() as int;
    let list = h.in_bundle[s.cur as int];
    let made = s.made.push(nb);
    lemma_push_contains(s.made, nb);
    lemma_parts_cut_list(g, home, s, k);
    assert forall|k: int| 0 <= k < t.ranges.len() implies #[trigger] range_ok(f, t, k) by {
        assert(range_ok(f, h, k));
    }
    assert forall|k: int| 0 <= k < t.ranges.len() implies #[trigger] stats_ok(t, k) by {
        assert(stats_ok(h, k));
    }
    assert forall|v: int| 0 <= v < t.vregs.len() implies #[trigger] vreg_ok(f, t, v) by {
        assert(vreg_ok(f, h, v));
    }
    assert forall|b: int, i: int|
        0 <= b < t.in_bundle.len() && 0 <= i < t.in_bundle[b].len() implies in_its_vreg(
        t,
        #[trigger] t.in_bundle[b][i],
    ) by {
        if b == nb {
            assert(t.in_bundle[b][i] == h.in_bundle[s.cur as int][s.d + i]);
            assert(in_its_vreg(h, h.in_bundle[s.cur as int][s.d + i]));
        } else {
            assert(t.in_bundle[b][i] == h.in_bundle[b][i]);
            assert(in_its_vreg(h, h.in_bundle[b][i]));
        }
    }
    assert forall|b: int, i: int|
        0 <= b < t.in_bundle.len() && 0 <= i < t.in_bundle[b].len() implies {
        &&& t.ranges[(#[trigger] t.in_bundle[b][i]) as int].bundle.0 == (if b == nb && i >= 0 {
            home as int
        } else {
            b
        })
        &&& t.ranges[t.in_bundle[b][i] as int].vreg.is_valid()
    } by {
        if b == nb {
            assert(t.in_bundle[b][i] == h.in_bundle[s.cur as int][s.d + i]);
        } else {
            assert(t.in_bundle[b][i] == h.in_bundle[b][i]);
        }
    }
    assert(t.in_bundle[nb as int].skip(0) =~= tail);
    lemma_keeps_push(g, h, t, home, s.made);
    assert forall|i: int| 0 <= i < made.len() implies t.in_bundle[(
    #[trigger] made[i]) as int].len() > 0 by {
        if i < s.made.len() {
            assert(made[i] == s.made[i]);
            assert(h.in_bundle[s.made[i] as int].len() > 0);
        }
    }
    assert forall|b: int|
        0 <= b < g.in_bundle.len() && g.in_bundle[b].len() > 0 implies (
    #[trigger] t.in_bundle[b]).len() > 0 by {
        assert(h.in_bundle[b].len() > 0);
    }
}

/// One more bundle, with the spill set of bundle `home`.
proof fn lemma_keeps_push(g: GraphState, h: GraphState, t: GraphState, home: u32, made: Seq<u32>)
    requires
        split_keeps(g, h, home, made),
        home < g.bundles.len(),
        h.bundles.len() < MAX_ENTRIES,
        t.uses == h.uses,
        t.defs == h.defs,
        t.vregs == h.vregs,
        t.in_vreg.len() == h.in_vreg.len(),
        t.bundles == h.bundles.push(split_off_bundle(h, home)),
        t.ranges.len() >= h.ranges.len(),
        forall|r: int|
            0 <= r < h.ranges.len() ==> (#[trigger] t.ranges[r]).vreg == h.ranges[r].vreg
                && t.ranges[r].bundle == h.ranges[r].bundle,
    ensures
        split_keeps(g, t, home, made.push(h.bundles.len() as u32)),
{
    let nb = h.bundles.len() as u32;
    let more = made.push(nb);
    lemma_push_contains(made, nb);
    assert(t.bundles.take(g.bundles.len() as int) =~= h.bundles.take(g.bundles.len() as int));
    assert(h.bundles[home as int] == h.bundles.take(g.bundles.len() as int)[home as int]);
    assert forall|r: int| 0 <= r < g.ranges.len() implies {
        &&& (#[trigger] t.ranges[r]).vreg == g.ranges[r].vreg
        &&& t.ranges[r].bundle == g.ranges[r].bundle || more.contains(t.ranges[r].bundle.0)
    } by {
        assert(h.ranges[r].vreg == g.ranges[r].vreg);
    }
    assert forall|i: int| 0 <= i < more.len() implies g.bundles.len() <= (#[trigger] more[i])
        < t.bundles.len() by {
        if i < made.len() {
            assert(more[i] == made[i]);
        }
    }
    assert forall|b: int| g.bundles.len() <= b < t.bundles.len() implies #[trigger] t.bundles[b]
        == split_off_bundle(g, home) by {
        if b < h.bundles.len() {
            assert(t.bundles[b] == h.bundles[b]);
        }
    }
}

/// The state of a split beside the tables.
pub struct SplitScan {
    pub cur: LiveBundleIndex,
    pub k: usize,
    pub made: IndexVec,
    /// The live range that was done last.
    pub last: u32,
    pub d: Ghost<int>,
}

impl SplitScan {
    /// How far the split has come, with the tables `g`.
    pub open spec fn cut(&self, g: GraphState) -> Cut {
        Cut { g, cur: self.cur.0, d: self.d@, made: self.made@, k: self.k as int }
    }
}

impl LiveGraph {
    /// Split a live range at the points in it.
    fn split_range(
        &mut self,
        home: LiveBundleIndex,
        scan: &mut SplitScan,
        start: LiveRangeIndex,
        points: &IndexVec,
        Ghost(g): Ghost<GraphState>,
        Ghost(tail): Ghost<Seq<u32>>,
    ) -> (res: Result<(), RegAllocError>)
        requires
            old(self).linked(),
            cut_inv(
                old(self).func@,
                g,
                home.0,
                Cut { d: old(scan).d@ + 1, ..old(scan).cut(old(self)@) },
                tail,
            ),
            old(scan).d@ >= 0,
            start.0 == old(self)@.in_bundle[old(scan).cur.ix()][old(scan).d@],
        ensures
            final(self).func == old(self).func,
            match split_rest(old(scan).cut(old(self)@), home.0, start.0, points@) {
                Ok(c) => {
                    &&& res is Ok
                    &&& final(self).linked()
                    &&& final(scan).cut(final(self)@) == c
                    &&& cut_inv(final(self).func@, g, home.0, c, tail)
                    &&& c.d >= 1
                    &&& c.g.in_bundle[c.cur as int][c.d - 1] == final(scan).last
                },
                Err(e) => res == Err::<(), RegAllocError>(e) && e !is SSA,
            },
    {
        let ghost s0 = scan.cut(self@);
        let f = self.func;
        let mut r = start;
        proof {
            lemma_below(
                self@.in_bundle,
                self@.ranges.len() as int,
                scan.cur.ix(),
                scan.d@,
            );
            assert(range_ok(f@, self@, start.ix()));
        }
        while scan.k < small_len(points) && small_get(points, scan.k)
            < self.ranges[r.index()].range.to.to_index()
            invariant
                self.linked(),
                self.func == f,
                f == old(self).func,
                s0 == old(scan).cut(old(self)@),
                cut_inv(f@, g, home.0, Cut { d: scan.d@ + 1, ..scan.cut(self@) }, tail),
                scan.d@ >= 0,
                r.0 == self@.in_bundle[scan.cur.ix()][scan.d@],
                r.0 < self@.ranges.len(),
                self@.ranges[r.ix()].range.within(f@.insts),
                split_rest(s0, home.0, start.0, points@) == split_rest(
                    scan.cut(self@),
                    home.0,
                    r.0,
                    points@,
                ),
            decreases points@.len() - scan.k,
        {
            let ghost c = scan.cut(self@);
            let point = small_get(points, scan.k);
            let nb = self.bundles.len();
            if point > self.ranges[r.index()].range.from.to_index() {
                let rest = match self.cut_range(home, scan.cur, r, point, Ghost(scan.d@)) {
                    Ok(rest) => rest,
                    Err(e) => {
                        return Err(e);
                    },
                };
                small_push(&mut scan.made, nb as u32);
                scan.cur = LiveBundleIndex::new(nb);
                scan.d = Ghost(0int);
                scan.k = scan.k + 1;
                proof {
                    let t = self@;
                    let c1 = Cut { d: c.d + 1, ..c };
                    assert(parts_ok(g, home.0, c1));
                    assert(parts_ok(g, home.0, c));
                    assert(in_its_vreg(c.g, c.g.in_bundle[c.cur as int][c.d]));
                    lemma_parts_cut_range(g, home.0, c, r.0, point as int, scan.k as int);
                    lemma_keeps_push(g, c.g, t, home.0, c.made);
                    lemma_push_contains(c.made, nb as u32);
                    assert(t.in_bundle[nb as int].skip(1) =~= tail);
                    let made = scan.made@;
                    assert forall|i: int| 0 <= i < made.len() implies t.in_bundle[(
                    #[trigger] made[i]) as int].len() > 0 by {
                        if i < c.made.len() {
                            assert(made[i] == c.made[i]);
                            assert(c.g.in_bundle[c.made[i] as int].len() > 0);
                        }
                    }
                    assert forall|b: int|
                        0 <= b < g.in_bundle.len() && g.in_bundle[b].len() > 0 implies (
                    #[trigger] t.in_bundle[b]).len() > 0 by {
                        assert(c.g.in_bundle[b].len() > 0);
                    }
                    assert(range_ok(f@, t, rest.ix()));
                }
                r = rest;
            } else {
                scan.k = scan.k + 1;
            }
        }
        scan.d = Ghost(scan.d@ + 1);
        scan.last = r.0;
        Ok(())
    }

    /// Go on with the next live range.
    fn split_next(
        &mut self,
        home: LiveBundleIndex,
        scan: &mut SplitScan,
        r: LiveRangeIndex,
        points: &IndexVec,
        Ghost(g): Ghost<GraphState>,
        Ghost(tail): Ghost<Seq<u32>>,
    ) -> (res: Result<(), RegAllocError>)
        requires
            old(self).linked(),
            cut_inv(old(self).func@, g, home.0, old(scan).cut(old(self)@), tail),
            old(scan).d@ < old(self)@.in_bundle[old(scan).cur.ix()].len(),
            r.0 == old(self)@.in_bundle[old(scan).cur.ix()][old(scan).d@],
            old(scan).d@ >= 1 ==> old(scan).last == old(self)@.in_bundle[old(
                scan,
            ).cur.ix()][old(scan).d@ - 1],
            old(scan).d@ >= 1 || old(scan).k >= points@.len() || points@[old(scan).k as int] > old(
                self,
            )@.ranges[r.ix()].range.from.ix(),
        ensures
            final(self).func == old(self).func,
            match split_one(old(scan).cut(old(self)@), home.0, r.0, points@) {
                Ok(c) => {
                    &&& res is Ok
                    &&& final(self).linked()
                    &&& final(scan).cut(final(self)@) == c
                    &&& cut_inv(final(self).func@, g, home.0, c, tail.skip(1))
                    &&& c.d >= 1
                    &&& c.g.in_bundle[c.cur as int][c.d - 1] == final(scan).last
                },
                Err(e) => res == Err::<(), RegAllocError>(e) && e !is SSA,
            },
    {
        let ghost s0 = scan.cut(self@);
        let f = self.func;
        proof {
            lemma_below(self@.in_bundle, self@.ranges.len() as int, scan.cur.ix(), scan.d@);
            assert(range_ok(f@, self@, r.ix()));
        }
        let from = self.ranges[r.index()].range.from.to_index();
        if scan.k < small_len(points) && small_get(points, scan.k) <= from {
            if self.bundles.len() >= MAX_ENTRIES as usize {
                return Err(RegAllocError::TooLarge);
            }
            let nb = self.bundles.len();
            let spillset = self.bundles[home.index()].spillset;
            let ghost list = s0.g.in_bundle[s0.cur as int];
            let prev = scan.last;
            self.bundles.push(
                LiveBundle {
                    spillset,
                    allocation: crate::reg::Allocation::none(),
                    prio: 0,
                    spill_weight_and_props: 0,
                },
            );
            self.in_bundle.add_list();
            self.in_bundle.split_after(scan.cur.index(), prev, nb, Ghost(scan.d@));
            scan.k = scan.k + 1;
            let ghost k1 = scan.k as int;
            while scan.k < small_len(points) && small_get(points, scan.k) <= from
                invariant
                    scan.k >= 0,
                    skip_points(points@, k1, from as int) == skip_points(
                        points@,
                        scan.k as int,
                        from as int,
                    ),
                    *scan == (SplitScan { k: scan.k, ..*scan }),
                    scan.cur.0 == s0.cur,
                    scan.made@ == s0.made,
                    scan.d@ == s0.d,
                decreases points@.len() - scan.k,
            {
                scan.k = scan.k + 1;
            }
            small_push(&mut scan.made, nb as u32);
            scan.cur = LiveBundleIndex::new(nb);
            proof {
                assert(self@.in_bundle =~= graph_cut_list(
                    s0.g,
                    home.0,
                    s0.cur,
                    s0.d,
                ).in_bundle);
                assert(self@ == graph_cut_list(s0.g, home.0, s0.cur, s0.d));
                self.in_bundle.lemma_ok();
                lemma_cut_list(f@, g, home.0, s0, scan.k as int, tail);
            }
            scan.d = Ghost(0int);
            assert(self@.in_bundle[nb as int][0] == list.skip(s0.d)[0]);
        }
        let ghost s1 = scan.cut(self@);
        proof {
            lemma_cut_tag(f@, g, home.0, s1, r.0, tail);
        }
        self.ranges[r.index()].bundle = scan.cur;
        assert(scan.cut(self@) == cut_tag(s1, r.0));
        self.split_range(home, scan, r, points, Ghost(g), Ghost(tail.skip(1)))
    }
}

impl LiveGraph {
    /// Split a bundle at the points. Returns the new bundles.
    pub fn split_bundle(&mut self, bundle: LiveBundleIndex, points: &IndexVec) -> (res: Result<
        IndexVec,
        RegAllocError,
    >)
        requires
            old(self).wf(),
            listed(old(self)@),
            bundle.0 < old(self)@.bundles.len(),
            old(self)@.in_bundle[bundle.ix()].len() > 0,
        ensures
            final(self).func == old(self).func,
            match graph_split(old(self)@, bundle.0, points@) {
                Ok(c) => {
                    &&& res is Ok
                    &&& res->Ok_0@ == c.made
                    &&& final(self)@ == c.g
                    &&& final(self).wf()
                    &&& listed(c.g)
                    &&& split_keeps(old(self)@, c.g, bundle.0, c.made)
                    &&& split_nonempty(old(self)@, c.g, c.made)
                    &&& parts_ok(old(self)@, bundle.0, c)
                },
                Err(e) => res is Err && res->Err_0 == e && e !is SSA,
            },
    {
        let ghost g = self@;
        let f = self.func;
        let ghost list = g.in_bundle[bundle.ix()];
        let first = self.in_bundle.first(bundle.index());
        assert(range_ok(f@, g, first as int));
        let bundle_start = self.ranges[first as usize].range.from.to_index();
        let mut k: usize = 0;
        while k < small_len(points) && small_get(points, k) <= bundle_start
            invariant
                skip_points(points@, 0, bundle_start as int) == skip_points(
                    points@,
                    k as int,
                    bundle_start as int,
                ),
            decreases points@.len() - k,
        {
            k += 1;
        }
        let mut scan = SplitScan {
            cur: bundle,
            k,
            made: small_new(),
            last: NIL,
            d: Ghost(0int),
        };
        let ghost s0 = scan.cut(g);
        let ghost mut i: int = 0;
        let mut iter = first;
        proof {
            assert(list.skip(0) =~= list);
            assert(g.bundles.take(g.bundles.len() as int) =~= g.bundles);
            assert forall|b: int, i: int|
                0 <= b < g.in_bundle.len() && 0 <= i < g.in_bundle[b].len() implies {
                &&& g.ranges[(#[trigger] g.in_bundle[b][i]) as int].bundle.0 == (if b
                    == bundle.ix() && i >= 0 {
                    bundle.ix()
                } else {
                    b
                })
                &&& g.ranges[g.in_bundle[b][i] as int].vreg.is_valid()
            } by {}
            lemma_parts_start(g, bundle.0, k as int);
            assert(cut_inv(f@, g, bundle.0, s0, list.skip(0)));
            assert(s0.made =~= Seq::empty());
        }
        while iter != NIL
            invariant
                self.linked(),
                self.func == f,
                f == old(self).func,
                g == old(self)@,
                list == g.in_bundle[bundle.ix()],
                0 <= i <= list.len(),
                cut_inv(f@, g, bundle.0, scan.cut(self@), list.skip(i)),
                iter == node_at(self@.in_bundle[scan.cur.ix()], scan.d@),
                iter == NIL <==> scan.d@ == self@.in_bundle[scan.cur.ix()].len(),
                i > 0 ==> scan.d@ >= 1,
                scan.d@ >= 1 ==> scan.last == self@.in_bundle[scan.cur.ix()][scan.d@ - 1],
                i == 0 ==> scan.k >= points@.len() || points@[scan.k as int]
                    > self@.ranges[list[0] as int].range.from.ix(),
                graph_split(g, bundle.0, points@) == split_list(s0, bundle.0, list, 0, points@),
                split_list(s0, bundle.0, list, 0, points@) == split_list(
                    scan.cut(self@),
                    bundle.0,
                    list,
                    i,
                    points@,
                ),
            decreases list.len() - i,
        {
            let ghost before = scan.cut(self@);
            proof {
                let cl = self@.in_bundle[scan.cur.ix()];
                assert(cl.skip(scan.d@)[0] == cl[scan.d@]);
                assert(cl.skip(scan.d@).len() == list.skip(i).len());
                assert(list.skip(i)[0] == list[i]);
            }
            match self.split_next(
                bundle,
                &mut scan,
                LiveRangeIndex(iter),
                points,
                Ghost(g),
                Ghost(list.skip(i)),
            ) {
                Ok(()) => {},
                Err(e) => {
                    return Err(e);
                },
            }
            iter = self.in_bundle.next(scan.last, Ghost(scan.cur.ix()), Ghost(scan.d@ - 1));
            proof {
                assert(list.skip(i).skip(1) =~= list.skip(i + 1));
                i = i + 1;
            }
        }
        proof {
            let h = self@;
            let cl = h.in_bundle[scan.cur.ix()];
            assert(cl.skip(scan.d@).len() == 0);
            assert(list.skip(i).len() == 0);
            assert(members_ok(h)) by {
                assert forall|b: int, j: int|
                    0 <= b < h.in_bundle.len() && 0 <= j < h.in_bundle[b].len() implies {
                    &&& h.ranges[(#[trigger] h.in_bundle[b][j]) as int].bundle.0 == b
                    &&& h.ranges[h.in_bundle[b][j] as int].vreg.is_valid()
                } by {}
            }
        }
        Ok(scan.made)
    }
}

} // verus!
