//! Bundles of live ranges: making them and merging them.
use crate::code_range::CodeRange;
use crate::data::{LiveBundle, LiveRange};
use crate::func::FuncModel;
use crate::graph::{graph_ok, range_ok, stats_ok, vreg_ok, GraphState, LiveGraph, MAX_ENTRIES};
use crate::index::{LiveBundleIndex, LiveRangeIndex, SpillSetIndex};
use crate::lists::{is_free, lemma_below, lemma_distinct, lists_ok, node_at, NIL};
use crate::order::{
    bundles_in_order, in_order, law_merge_in_order, lemma_shrunk_bundles, lemma_shrunk_vregs,
    only_shrunk, vregs_in_order,
};
use crate::reg::{Allocation, RegAllocError, RegClass};
use vstd::prelude::*;

verus! {

/// A bundle that holds nothing and is nowhere.
pub open spec fn fresh_bundle() -> LiveBundle {
    LiveBundle {
        spillset: SpillSetIndex(u32::MAX),
        allocation: Allocation::Nowhere,
        prio: 0,
        spill_weight_and_props: 0,
    }
}

/// The tables with one more bundle, which holds nothing.
pub open spec fn graph_add_bundle(g: GraphState) -> GraphState {
    GraphState {
        bundles: g.bundles.push(fresh_bundle()),
        in_bundle: g.in_bundle.push(Seq::empty()),
        ..g
    }
}

/// The live ranges in the list belong to bundle `b`, and the others to the bundles they belonged
/// to.
pub open spec fn retag(ranges: Seq<LiveRange>, list: Seq<u32>, b: u32) -> Seq<LiveRange> {
    Seq::new(
        ranges.len(),
        |r: int|
            if list.contains(r as u32) {
                LiveRange { bundle: LiveBundleIndex(b), ..ranges[r] }
            } else {
                ranges[r]
            },
    )
}

/// The class of the register of a live range.
pub open spec fn class_of(g: GraphState, r: u32) -> RegClass {
    g.vregs[g.ranges[r as int].vreg.ix()].reg.class
}

/// The live ranges of a bundle are of one class.
pub open spec fn uniform(g: GraphState) -> bool {
    forall|b: int, i: int|
        0 <= b < g.in_bundle.len() && 0 <= i < g.in_bundle[b].len() ==> class_of(
            g,
            #[trigger] g.in_bundle[b][i],
        ) == class_of(g, g.in_bundle[b][0])
}

/// The live ranges of a register are in one bundle.
pub open spec fn together(g: GraphState) -> bool {
    forall|v: int, i: int|
        0 <= v < g.in_vreg.len() && 0 <= i < g.in_vreg[v].len() ==> g.ranges[(
        #[trigger] g.in_vreg[v][i]) as int].bundle == g.ranges[g.in_vreg[v][0] as int].bundle
}

/// The live ranges of a register are in one bundle, every live range in a bundle is in the list of
/// its register, the live ranges of a bundle are of one class, and the lists are in order.
pub open spec fn bundled(g: GraphState) -> bool {
    &&& vregs_in_order(g)
    &&& bundles_in_order(g)
    &&& together(g)
    &&& uniform(g)
    &&& forall|v: int, i: int|
        0 <= v < g.in_vreg.len() && 0 <= i < g.in_vreg[v].len() ==> in_its_bundle(
            g,
            #[trigger] g.in_vreg[v][i],
        )
    &&& listed(g)
}

/// Every live range in a bundle is in the list of its register.
pub open spec fn listed(g: GraphState) -> bool {
    forall|b: int, i: int|
        0 <= b < g.in_bundle.len() && 0 <= i < g.in_bundle[b].len() ==> in_its_vreg(
            g,
            #[trigger] g.in_bundle[b][i],
        )
}

/// The live range is in the list of its register.
pub open spec fn in_its_vreg(g: GraphState, r: u32) -> bool {
    &&& g.ranges[r as int].vreg.0 < g.in_vreg.len()
    &&& g.in_vreg[g.ranges[r as int].vreg.ix()].contains(r)
}

/// The live range is in its bundle.
pub open spec fn in_its_bundle(g: GraphState, r: u32) -> bool {
    &&& g.ranges[r as int].bundle.0 < g.in_bundle.len()
    &&& g.in_bundle[g.ranges[r as int].bundle.ix()].contains(r)
}

pub proof fn lemma_add_bundle_ok(f: FuncModel, g: GraphState)
    requires
        graph_ok(f, g),
        g.bundles.len() < MAX_ENTRIES,
    ensures
        graph_ok(f, graph_add_bundle(g)),
        bundled(g) ==> bundled(graph_add_bundle(g)),
{
    let h = graph_add_bundle(g);
    assert(lists_ok(h.in_bundle, h.ranges.len() as int)) by {
        reveal(lists_ok);
    }
    assert forall|r: int| 0 <= r < h.ranges.len() implies #[trigger] range_ok(f, h, r) by {
        assert(range_ok(f, g, r));
    }
    assert forall|r: int| 0 <= r < h.ranges.len() implies #[trigger] stats_ok(h, r) by {
        assert(stats_ok(g, r));
    }
    assert forall|v: int| 0 <= v < h.vregs.len() implies #[trigger] vreg_ok(f, h, v) by {
        assert(vreg_ok(f, g, v));
    }
    if bundled(g) {
        assert forall|v: int, i: int|
            0 <= v < h.in_vreg.len() && 0 <= i < h.in_vreg[v].len() implies in_its_bundle(
            h,
            #[trigger] h.in_vreg[v][i],
        ) by {
            assert(in_its_bundle(g, g.in_vreg[v][i]));
        }
        assert forall|b: int, i: int|
            0 <= b < h.in_bundle.len() && 0 <= i < h.in_bundle[b].len() implies in_its_vreg(
            h,
            #[trigger] h.in_bundle[b][i],
        ) by {
            assert(in_its_vreg(g, g.in_bundle[b][i]));
        }
        assert forall|b: int, i: int|
            0 <= b < h.in_bundle.len() && 0 <= i < h.in_bundle[b].len() implies class_of(
            h,
            #[trigger] h.in_bundle[b][i],
        ) == class_of(h, h.in_bundle[b][0]) by {
            assert(class_of(g, g.in_bundle[b][i]) == class_of(g, g.in_bundle[b][0]));
        }
        assert(together(h));
    }
}

/// The bundles of the live ranges and the lists of the bundles may change as long as they fit.
pub proof fn lemma_rebundled_ok(f: FuncModel, g: GraphState, h: GraphState)
    requires
        graph_ok(f, g),
        h == (GraphState { ranges: h.ranges, in_bundle: h.in_bundle, ..g }),
        h.in_bundle.len() == g.in_bundle.len(),
        h.ranges.len() == g.ranges.len(),
        lists_ok(h.in_bundle, h.ranges.len() as int),
        forall|r: int|
            0 <= r < h.ranges.len() ==> #[trigger] h.ranges[r] == (LiveRange {
                bundle: h.ranges[r].bundle,
                ..g.ranges[r]
            }) && (h.ranges[r].bundle.is_valid() ==> h.ranges[r].bundle.0 < h.bundles.len()),
        forall|b: int, i: int|
            0 <= b < h.in_bundle.len() && 0 <= i < h.in_bundle[b].len() ==> {
                &&& h.ranges[(#[trigger] h.in_bundle[b][i]) as int].bundle.0 == b
                &&& h.ranges[h.in_bundle[b][i] as int].vreg.is_valid()
            },
    ensures
        graph_ok(f, h),
{
    assert forall|k: int| 0 <= k < h.ranges.len() implies #[trigger] range_ok(f, h, k) by {
        assert(range_ok(f, g, k));
        assert(h.ranges[k].range == g.ranges[k].range);
    }
    assert forall|k: int| 0 <= k < h.ranges.len() implies #[trigger] stats_ok(h, k) by {
        assert(stats_ok(g, k));
        assert(h.ranges[k].uses_spill_weight == g.ranges[k].uses_spill_weight);
    }
    assert forall|v: int| 0 <= v < h.vregs.len() implies #[trigger] vreg_ok(f, h, v) by {
        assert(vreg_ok(f, g, v));
    }
    assert forall|v: int, i: int|
        0 <= v < h.in_vreg.len() && 0 <= i < h.in_vreg[v].len() implies h.ranges[(
    #[trigger] h.in_vreg[v][i]) as int].vreg.0 == v by {
        lemma_below(g.in_vreg, g.ranges.len() as int, v, i);
        assert(h.ranges[h.in_vreg[v][i] as int].vreg == g.ranges[g.in_vreg[v][i] as int].vreg);
    }
}

/// The first position from `i` on whose live range does not come before the range.
pub open spec fn first_not_before(
    ranges: Seq<LiveRange>,
    list: Seq<u32>,
    range: CodeRange,
    i: int,
) -> int
    decreases list.len() - i,
{
    if i < 0 || i >= list.len() || !ranges[list[i] as int].range.precedes(range) {
        i
    } else {
        first_not_before(ranges, list, range, i + 1)
    }
}

/// Where a live range over the range has its place among the live ranges of a bundle.
pub open spec fn bundle_place(ranges: Seq<LiveRange>, list: Seq<u32>, range: CodeRange) -> int {
    if list.len() > 0 && ranges[list.last() as int].range.precedes(range) {
        list.len() as int
    } else {
        first_not_before(ranges, list, range, 0)
    }
}

proof fn lemma_first_not_before(ranges: Seq<LiveRange>, list: Seq<u32>, range: CodeRange, i: int)
    requires
        0 <= i <= list.len(),
    ensures
        i <= first_not_before(ranges, list, range, i) <= list.len(),
        forall|k: int|
            i <= k < first_not_before(ranges, list, range, i) ==> ranges[(
            #[trigger] list[k]) as int].range.precedes(range),
        first_not_before(ranges, list, range, i) < list.len() ==> !ranges[list[first_not_before(
            ranges,
            list,
            range,
            i,
        )] as int].range.precedes(range),
    decreases list.len() - i,
{
    if i < list.len() && ranges[list[i] as int].range.precedes(range) {
        lemma_first_not_before(ranges, list, range, i + 1);
    }
}

/// A live range that reaches into none of a bundle leaves the live ranges of the bundle in order.
pub proof fn law_placed_in_order(ranges: Seq<LiveRange>, list: Seq<u32>, lr: u32)
    requires
        in_order(ranges, list),
        ranges[lr as int].range.from.ix() < ranges[lr as int].range.to.ix(),
        forall|k: int|
            0 <= k < list.len() ==> ranges[(#[trigger] list[k]) as int].range.from.ix()
                < ranges[list[k] as int].range.to.ix() && !ranges[list[k] as int].range.meets(
                ranges[lr as int].range,
            ),
    ensures
        in_order(
            ranges,
            list.insert(bundle_place(ranges, list, ranges[lr as int].range), lr),
        ),
{
    let range = ranges[lr as int].range;
    lemma_first_not_before(ranges, list, range, 0);
    let p = bundle_place(ranges, list, range);
    let t = list.insert(p, lr);
    assert forall|i: int, j: int|
        #![trigger t[i], t[j]]
        0 <= i < j < t.len() implies ranges[t[i] as int].range.precedes(
        ranges[t[j] as int].range,
    ) by {
        let i0 = if i < p {
            i
        } else {
            i - 1
        };
        let j0 = if j < p {
            j
        } else {
            j - 1
        };
        if i != p && j != p {
            assert(t[i] == list[i0] && t[j] == list[j0]);
        } else if j == p {
            assert(t[i] == list[i]);
            if p == list.len() && i < p - 1 {
                assert(ranges[list[i] as int].range.precedes(ranges[list[p - 1] as int].range));
            }
        } else {
            assert(t[j] == list[j0]);
            if j0 > p {
                assert(ranges[list[p] as int].range.precedes(ranges[list[j0] as int].range));
            }
        }
    }
}

impl LiveGraph {
    /// Add a bundle that holds nothing.
    pub fn create_bundle(&mut self) -> (r: Result<LiveBundleIndex, RegAllocError>)
        requires
            old(self).wf(),
        ensures
            final(self).func == old(self).func,
            final(self).wf(),
            match r {
                Ok(b) => {
                    &&& old(self)@.bundles.len() < MAX_ENTRIES
                    &&& b.0 == old(self)@.bundles.len()
                    &&& final(self)@ == graph_add_bundle(old(self)@)
                    &&& bundled(old(self)@) ==> bundled(final(self)@)
                },
                Err(e) => {
                    &&& old(self)@.bundles.len() >= MAX_ENTRIES
                    &&& e == RegAllocError::TooLarge
                    &&& final(self)@ == old(self)@
                },
            },
    {
        let idx = self.bundles.len();
        if idx >= MAX_ENTRIES as usize {
            return Err(RegAllocError::TooLarge);
        }
        proof {
            lemma_add_bundle_ok(self.func@, self@);
        }
        self.bundles.push(
            LiveBundle {
                spillset: SpillSetIndex::invalid(),
                allocation: Allocation::none(),
                prio: 0,
                spill_weight_and_props: 0,
            },
        );
        self.in_bundle.add_list();
        Ok(LiveBundleIndex::new(idx))
    }

    /// Put a live range of no bundle into a bundle, before the first live range that does not come
    /// before it.
    pub fn insert_liverange_into_bundle(&mut self, bundle: LiveBundleIndex, lr: LiveRangeIndex)
        requires
            old(self).linked(),
            bundle.0 < old(self)@.bundles.len(),
            old(self)@.bundles.len() == old(self)@.in_bundle.len(),
            old(self)@.bundles.len() <= MAX_ENTRIES,
            lr.0 < old(self)@.ranges.len(),
            old(self)@.ranges.len() <= MAX_ENTRIES,
            is_free(old(self)@.in_bundle, lr.0),
        ensures
            final(self).linked(),
            final(self).func == old(self).func,
            final(self)@ == (GraphState {
                ranges: old(self)@.ranges.update(
                    lr.ix(),
                    LiveRange { bundle, ..old(self)@.ranges[lr.ix()] },
                ),
                in_bundle: old(self)@.in_bundle.update(
                    bundle.ix(),
                    old(self)@.in_bundle[bundle.ix()].insert(
                        bundle_place(
                            old(self)@.ranges,
                            old(self)@.in_bundle[bundle.ix()],
                            old(self)@.ranges[lr.ix()].range,
                        ),
                        lr.0,
                    ),
                ),
                ..old(self)@
            }),
    {
        let ghost s = self@;
        let ghost list = s.in_bundle[bundle.ix()];
        let range = self.ranges[lr.index()].range;
        let last = self.in_bundle.last(bundle.index());
        self.ranges[lr.index()].bundle = bundle;
        let ghost h = self@;
        assert forall|r: int| 0 <= r < s.ranges.len() implies (#[trigger] h.ranges[r]).range
            == s.ranges[r].range by {}
        if last == NIL || self.ranges[last as usize].range.to <= range.from {
            self.in_bundle.insert_after(bundle.index(), last, lr.0, Ghost(list.len() as int));
            return ;
        }
        let mut prev: u32 = NIL;
        let mut iter = self.in_bundle.first(bundle.index());
        let ghost mut i: int = 0;
        while iter != NIL && self.ranges[iter as usize].range.to <= range.from
            invariant
                self.linked(),
                self.func == old(self).func,
                self@ == h,
                h.ranges.len() == s.ranges.len(),
                forall|r: int|
                    0 <= r < s.ranges.len() ==> (#[trigger] h.ranges[r]).range
                        == s.ranges[r].range,
                bundle.0 < h.in_bundle.len(),
                list == h.in_bundle[bundle.ix()],
                0 <= i <= list.len(),
                prev == node_at(list, i - 1),
                iter == node_at(list, i),
                iter == NIL <==> i == list.len(),
                iter != NIL ==> iter < s.ranges.len(),
                first_not_before(s.ranges, list, range, 0) == first_not_before(
                    s.ranges,
                    list,
                    range,
                    i,
                ),
            decreases list.len() - i,
        {
            prev = iter;
            iter = self.in_bundle.next(iter, Ghost(bundle.ix()), Ghost(i));
            proof {
                i = i + 1;
            }
        }
        self.in_bundle.insert_after(bundle.index(), prev, lr.0, Ghost(i));
    }
}

/// Register `v` gets a bundle of all its live ranges, if it has any.
pub open spec fn graph_bundle_vreg(g: GraphState, v: int) -> Result<GraphState, RegAllocError> {
    let list = g.in_vreg[v];
    if list.len() == 0 {
        Ok(g)
    } else if g.bundles.len() >= MAX_ENTRIES {
        Err(RegAllocError::TooLarge)
    } else {
        Ok(
            GraphState {
                bundles: g.bundles.push(fresh_bundle()),
                in_bundle: g.in_bundle.push(list),
                ranges: retag(g.ranges, list, g.bundles.len() as u32),
                ..g
            },
        )
    }
}

/// The registers from `v` on get their bundles.
pub open spec fn graph_bundle_all(g: GraphState, v: int) -> Result<GraphState, RegAllocError>
    decreases g.in_vreg.len() - v,
{
    if v < 0 || v >= g.in_vreg.len() {
        Ok(g)
    } else {
        match graph_bundle_vreg(g, v) {
            Ok(h) => if h.in_vreg == g.in_vreg {
                graph_bundle_all(h, v + 1)
            } else {
                Ok(h)
            },
            Err(e) => Err(e),
        }
    }
}

/// The registers below `v` are bundled, and the live ranges of the others are in no bundle.
spec fn bundled_upto(g: GraphState, v: int) -> bool {
    &&& vregs_in_order(g)
    &&& bundles_in_order(g)
    &&& together(g)
    &&& uniform(g)
    &&& listed(g)
    &&& forall|w: int, i: int|
        0 <= w < g.in_vreg.len() && 0 <= i < g.in_vreg[w].len() ==> if w < v {
            in_its_bundle(g, #[trigger] g.in_vreg[w][i])
        } else {
            g.ranges[g.in_vreg[w][i] as int].bundle.is_invalid()
        }
}

proof fn lemma_bundle_together(f: FuncModel, g: GraphState, h: GraphState, v: int)
    requires
        graph_ok(f, g),
        graph_ok(f, h),
        together(g),
        uniform(g),
        0 <= v < g.vregs.len(),
        graph_bundle_vreg(g, v) == Ok::<GraphState, RegAllocError>(h),
        g.in_vreg[v].len() > 0,
    ensures
        together(h),
        uniform(h),
{
    let n = g.ranges.len() as int;
    let list = g.in_vreg[v];
    let nb = g.bundles.len() as u32;
    assert forall|w: int, i: int|
        0 <= w < g.in_vreg.len() && 0 <= i < g.in_vreg[w].len() implies h.ranges[(
    #[trigger] g.in_vreg[w][i]) as int].bundle == (if w == v {
        LiveBundleIndex(nb)
    } else {
        g.ranges[g.in_vreg[w][i] as int].bundle
    }) by {
        let r = g.in_vreg[w][i];
        lemma_below(g.in_vreg, n, w, i);
        if w == v {
            assert(list.contains(list[i]));
        } else if list.contains(r) {
            let y = choose|y: int| 0 <= y < list.len() && list[y] == r;
            assert(g.in_vreg[v][y] == r);
            lemma_distinct(g.in_vreg, n, w, i, v, y);
        }
    }
    assert forall|b: int, i: int|
        0 <= b < h.in_bundle.len() && 0 <= i < h.in_bundle[b].len() implies class_of(
        h,
        #[trigger] h.in_bundle[b][i],
    ) == class_of(h, h.in_bundle[b][0]) by {
        lemma_below(h.in_bundle, n, b, i);
        lemma_below(h.in_bundle, n, b, 0);
        if b == nb {
            assert(h.in_vreg[v][i] == h.in_bundle[b][i]);
            assert(h.in_vreg[v][0] == h.in_bundle[b][0]);
        } else {
            assert(class_of(g, g.in_bundle[b][i]) == class_of(g, g.in_bundle[b][0]));
        }
    }
}

impl LiveGraph {
    /// Make a bundle of all live ranges of a register, if it has any.
    fn bundle_vreg(&mut self, v: usize) -> (r: Result<(), RegAllocError>)
        requires
            old(self).wf(),
            v < old(self)@.vregs.len(),
            bundled_upto(old(self)@, v as int),
        ensures
            final(self).func == old(self).func,
            match graph_bundle_vreg(old(self)@, v as int) {
                Ok(g) => {
                    &&& r is Ok
                    &&& final(self)@ == g
                    &&& final(self).wf()
                    &&& bundled_upto(g, v + 1)
                },
                Err(e) => r == Err::<(), RegAllocError>(e) && e !is SSA,
            },
    {
        let ghost g = self@;
        let ghost list = g.in_vreg[v as int];
        let mut range = self.in_vreg.first(v);
        if range == NIL {
            return Ok(());
        }
        let bundle = match self.create_bundle() {
            Ok(bundle) => bundle,
            Err(e) => {
                return Err(e);
            },
        };
        let ghost h = self@;
        let ghost b = bundle.0;
        let ghost mut i: int = 0;
        proof {
            assert(retag(h.ranges, list.take(0), b) =~= h.ranges);
            assert(list.take(0) =~= Seq::empty());
            assert(h.in_bundle.update(b as int, list.take(0)) =~= h.in_bundle);
        }
        while range != NIL
            invariant
                self.linked(),
                self.func == old(self).func,
                graph_ok(self.func@, h),
                v < h.vregs.len(),
                h.ranges == g.ranges,
                h.in_vreg == g.in_vreg,
                bundled_upto(g, v as int),
                list == h.in_vreg[v as int],
                bundle.0 == b,
                b == h.in_bundle.len() - 1,
                h.in_bundle[b as int].len() == 0,
                self@ == (GraphState {
                    ranges: retag(h.ranges, list.take(i), b),
                    in_bundle: h.in_bundle.update(b as int, list.take(i)),
                    ..h
                }),
                0 <= i <= list.len(),
                range == node_at(list, i),
                range == NIL <==> i == list.len(),
                range != NIL ==> range < h.ranges.len(),
            decreases list.len() - i,
        {
            let ghost before = self@;
            proof {
                assert(h.in_vreg[v as int][i] == range);
                assert forall|l: int, k: int|
                    0 <= l < before.in_bundle.len() && 0 <= k < before.in_bundle[l].len() implies (
                #[trigger] before.in_bundle[l][k]) != range by {
                    if l == b {
                        if list.take(i)[k] == range {
                            lemma_distinct(
                                h.in_vreg,
                                h.ranges.len() as int,
                                v as int,
                                k,
                                v as int,
                                i,
                            );
                        }
                    } else {
                        assert(h.ranges[h.in_bundle[l][k] as int].bundle.0 == l);
                    }
                }
            }
            proof {
                assert(in_order(g.ranges, g.in_vreg[v as int]));
                assert forall|k: int| 0 <= k < before.in_bundle[b as int].len() implies before.ranges[(
                #[trigger] before.in_bundle[b as int][k]) as int].range.precedes(
                    before.ranges[range as int].range,
                ) by {
                    assert(before.in_bundle[b as int][k] == list[k]);
                    assert(list[i] == range);
                    lemma_below(h.in_vreg, h.ranges.len() as int, v as int, k);
                }
                lemma_first_not_before(
                    before.ranges,
                    before.in_bundle[b as int],
                    before.ranges[range as int].range,
                    0,
                );
                assert(list.take(i).insert(i, range) =~= list.take(i).push(range));
            }
            self.insert_liverange_into_bundle(bundle, LiveRangeIndex(range));
            proof {
                let t = list.take(i + 1);
                assert(t =~= list.take(i).push(range));
                assert forall|r: u32| #[trigger] t.contains(r) == (list.take(i).contains(r) || r == range) by {
                    if list.take(i).contains(r) {
                        let k = choose|k: int| 0 <= k < i && list.take(i)[k] == r;
                        assert(t[k] == r);
                    }
                    if r == range {
                        assert(t[i] == r);
                    }
                    if t.contains(r) {
                        let k = choose|k: int| 0 <= k < i + 1 && t[k] == r;
                        if k < i {
                            assert(list.take(i)[k] == r);
                        }
                    }
                }
                assert(self@.ranges =~= retag(h.ranges, t, b));
                assert(self@.in_bundle =~= h.in_bundle.update(b as int, t));
            }
            range = self.in_vreg.next(range, Ghost(v as int), Ghost(i));
            proof {
                i = i + 1;
            }
        }
        proof {
            assert(list.take(i) =~= list);
            let k = self@;
            assert(k.in_bundle =~= g.in_bundle.push(list));
            assert(k == graph_bundle_vreg(g, v as int)->Ok_0);
            self.in_bundle.lemma_ok();
            assert forall|l: int, j: int|
                0 <= l < k.in_bundle.len() && 0 <= j < k.in_bundle[l].len() implies {
                &&& k.ranges[(#[trigger] k.in_bundle[l][j]) as int].bundle.0 == l
                &&& k.ranges[k.in_bundle[l][j] as int].vreg.is_valid()
            } by {
                if l == b {
                    assert(list[j] == h.in_vreg[v as int][j]);
                    lemma_below(h.in_vreg, h.ranges.len() as int, v as int, j);
                    assert(list.contains(list[j]));
                } else {
                    let r = g.in_bundle[l][j];
                    lemma_below(g.in_bundle, g.ranges.len() as int, l, j);
                    assert(g.ranges[r as int].bundle.0 == l);
                    if list.contains(r) {
                        let x = choose|x: int| 0 <= x < list.len() && list[x] == r;
                        assert(g.in_vreg[v as int][x] == r);
                    }
                }
            }
            assert forall|r: int| 0 <= r < k.ranges.len() implies #[trigger] k.ranges[r] == (
            LiveRange { bundle: k.ranges[r].bundle, ..h.ranges[r] }) && (
            k.ranges[r].bundle.is_valid() ==> k.ranges[r].bundle.0 < k.bundles.len()) by {
                assert(range_ok(self.func@, h, r));
            }
            lemma_rebundled_ok(self.func@, h, k);
            assert(only_shrunk(g.ranges, k.ranges));
            lemma_shrunk_vregs(g, k);
            lemma_shrunk_bundles(g, GraphState { ranges: k.ranges, ..g });
            assert forall|l: int| 0 <= l < k.in_bundle.len() implies in_order(
                k.ranges,
                #[trigger] k.in_bundle[l],
            ) by {
                if l == b {
                    assert(in_order(k.ranges, k.in_vreg[v as int]));
                } else {
                    let g1 = GraphState { ranges: k.ranges, ..g };
                    assert(in_order(g1.ranges, g1.in_bundle[l]));
                }
            }
            assert forall|l: int, j: int|
                0 <= l < k.in_bundle.len() && 0 <= j < k.in_bundle[l].len() implies in_its_vreg(
                k,
                #[trigger] k.in_bundle[l][j],
            ) by {
                let r = k.in_bundle[l][j];
                if l == b {
                    assert(h.in_vreg[v as int][j] == r);
                    lemma_below(h.in_vreg, h.ranges.len() as int, v as int, j);
                    assert(k.in_vreg[v as int].contains(r));
                } else {
                    assert(in_its_vreg(g, g.in_bundle[l][j]));
                    lemma_below(g.in_bundle, g.ranges.len() as int, l, j);
                }
            }
            assert forall|w: int, x: int|
                0 <= w < k.in_vreg.len() && 0 <= x < k.in_vreg[w].len() implies if w < v + 1 {
                in_its_bundle(k, #[trigger] k.in_vreg[w][x])
            } else {
                k.ranges[k.in_vreg[w][x] as int].bundle.is_invalid()
            } by {
                let r = g.in_vreg[w][x];
                lemma_below(g.in_vreg, g.ranges.len() as int, w, x);
                if w == v {
                    assert(list[x] == r);
                    assert(list.contains(r));
                    assert(k.in_bundle[b as int].contains(r));
                } else {
                    if list.contains(r) {
                        let y = choose|y: int| 0 <= y < list.len() && list[y] == r;
                        lemma_distinct(
                            g.in_vreg,
                            g.ranges.len() as int,
                            w,
                            x,
                            v as int,
                            y,
                        );
                    }
                    assert(k.ranges[r as int] == g.ranges[r as int]);
                }
            }
            lemma_bundle_together(self.func@, g, k, v as int);
        }
        Ok(())
    }
}

/// May live ranges of the two lists share a place? Both lists are walked in program order, for
/// at most 200 steps.
pub open spec fn can_merge(
    ranges: Seq<LiveRange>,
    a: Seq<u32>,
    b: Seq<u32>,
    i: int,
    j: int,
    count: int,
) -> bool
    decreases a.len() - i + b.len() - j,
{
    if i < 0 || j < 0 || i >= a.len() || j >= b.len() {
        true
    } else if count >= 200 {
        false
    } else if ranges[a[i] as int].range.from.ix() >= ranges[b[j] as int].range.to.ix() {
        can_merge(ranges, a, b, i, j + 1, count + 1)
    } else if ranges[b[j] as int].range.from.ix() >= ranges[a[i] as int].range.to.ix() {
        can_merge(ranges, a, b, i + 1, j, count + 1)
    } else {
        false
    }
}

/// The two lists in the order in which the live ranges begin.
pub open spec fn merge_lists(ranges: Seq<LiveRange>, a: Seq<u32>, b: Seq<u32>) -> Seq<u32>
    decreases a.len() + b.len(),
{
    if a.len() == 0 {
        b
    } else if b.len() == 0 {
        a
    } else if ranges[a[0] as int].range.from.ix() <= ranges[b[0] as int].range.from.ix() {
        seq![a[0]] + merge_lists(ranges, a.drop_first(), b)
    } else {
        seq![b[0]] + merge_lists(ranges, a, b.drop_first())
    }
}

/// Bundle `from` goes over to bundle `to` if both are of one class and their live ranges do not
/// reach into each other. Says whether it did.
pub open spec fn graph_merge(g: GraphState, from: u32, to: u32) -> (GraphState, bool) {
    let a = g.in_bundle[from as int];
    let b = g.in_bundle[to as int];
    let class_a = g.vregs[g.ranges[a[0] as int].vreg.ix()].reg.class;
    let class_b = g.vregs[g.ranges[b[0] as int].vreg.ix()].reg.class;
    if from == to {
        (g, true)
    } else if class_a != class_b || !can_merge(g.ranges, a, b, 0, 0, 0) {
        (g, false)
    } else {
        let ranges = retag(g.ranges, a, to);
        (
            GraphState {
                ranges,
                in_bundle: g.in_bundle.update(to as int, merge_lists(ranges, a, b)).update(
                    from as int,
                    Seq::empty(),
                ),
                ..g
            },
            true,
        )
    }
}

/// What is in one of the lists is in the merged list, and nothing else.
pub proof fn lemma_merge_members(ranges: Seq<LiveRange>, a: Seq<u32>, b: Seq<u32>, r: u32)
    ensures
        merge_lists(ranges, a, b).contains(r) <==> a.contains(r) || b.contains(r),
        merge_lists(ranges, a, b).len() == a.len() + b.len(),
    decreases a.len() + b.len(),
{
    let m = merge_lists(ranges, a, b);
    if a.len() == 0 || b.len() == 0 {
    } else if ranges[a[0] as int].range.from.ix() <= ranges[b[0] as int].range.from.ix() {
        let t = a.drop_first();
        lemma_merge_members(ranges, t, b, r);
        lemma_cons_contains(a, r);
        lemma_cons_contains(m, r);
        assert(m.drop_first() =~= merge_lists(ranges, t, b));
    } else {
        let t = b.drop_first();
        lemma_merge_members(ranges, a, t, r);
        lemma_cons_contains(b, r);
        lemma_cons_contains(m, r);
        assert(m.drop_first() =~= merge_lists(ranges, a, t));
    }
}

proof fn lemma_merge_together(f: FuncModel, g: GraphState, from: u32, to: u32)
    requires
        graph_ok(f, g),
        bundled(g),
        from < g.bundles.len(),
        to < g.bundles.len(),
        g.in_bundle[from as int].len() > 0,
        g.in_bundle[to as int].len() > 0,
    ensures
        together(graph_merge(g, from, to).0),
        uniform(graph_merge(g, from, to).0),
{
    let (h, done) = graph_merge(g, from, to);
    let n = g.ranges.len() as int;
    let a = g.in_bundle[from as int];
    let b = g.in_bundle[to as int];
    if from != to && done {
        assert forall|v: int, i: int|
            0 <= v < g.in_vreg.len() && 0 <= i < g.in_vreg[v].len() implies h.ranges[(
        #[trigger] g.in_vreg[v][i]) as int].bundle == (if g.ranges[g.in_vreg[v][i] as int].bundle.0
            == from {
            LiveBundleIndex(to)
        } else {
            g.ranges[g.in_vreg[v][i] as int].bundle
        }) by {
            let r = g.in_vreg[v][i];
            lemma_below(g.in_vreg, n, v, i);
            assert(in_its_bundle(g, r));
            if a.contains(r) {
                let x = choose|x: int| 0 <= x < a.len() && a[x] == r;
                assert(g.in_bundle[from as int][x] == r);
            }
        }
        assert(together(h));
        assert forall|l: int, i: int|
            0 <= l < g.in_bundle.len() && 0 <= i < g.in_bundle[l].len() implies class_of(
            h,
            #[trigger] g.in_bundle[l][i],
        ) == class_of(g, g.in_bundle[l][0]) by {
            lemma_below(g.in_bundle, n, l, i);
        }
        let class = class_of(g, a[0]);
        let merged = merge_lists(h.ranges, a, b);
        assert forall|i: int| 0 <= i < merged.len() implies class_of(h, #[trigger] merged[i])
            == class by {
            let r = merged[i];
            assert(merged.contains(r));
            lemma_merge_members(h.ranges, a, b, r);
            if a.contains(r) {
                let x = choose|x: int| 0 <= x < a.len() && a[x] == r;
                assert(g.in_bundle[from as int][x] == r);
            } else {
                let x = choose|x: int| 0 <= x < b.len() && b[x] == r;
                assert(g.in_bundle[to as int][x] == r);
            }
        }
        assert forall|l: int, i: int|
            0 <= l < h.in_bundle.len() && 0 <= i < h.in_bundle[l].len() implies class_of(
            h,
            #[trigger] h.in_bundle[l][i],
        ) == class_of(h, h.in_bundle[l][0]) by {
            if l == to {
                assert(h.in_bundle[l] == merged);
                assert(class_of(h, merged[i]) == class);
                assert(class_of(h, merged[0]) == class);
            } else {
                assert(class_of(h, g.in_bundle[l][i]) == class_of(g, g.in_bundle[l][0]));
                assert(class_of(h, g.in_bundle[l][0]) == class_of(g, g.in_bundle[l][0]));
            }
        }
    }
}

pub proof fn lemma_cons_contains(s: Seq<u32>, r: u32)
    requires
        s.len() > 0,
    ensures
        s.contains(r) <==> s[0] == r || s.drop_first().contains(r),
{
    if s.drop_first().contains(r) {
        let i = choose|i: int| 0 <= i < s.drop_first().len() && s.drop_first()[i] == r;
        assert(s[i + 1] == r);
    }
    if s.contains(r) {
        let i = choose|i: int| 0 <= i < s.len() && s[i] == r;
        if i > 0 {
            assert(s.drop_first()[i - 1] == r);
        }
    }
}

impl LiveGraph {
    /// May the live ranges of the two bundles share a place?
    fn bundles_can_merge(&self, from: LiveBundleIndex, to: LiveBundleIndex) -> (r: bool)
        requires
            self.wf(),
            from.0 < self@.bundles.len(),
            to.0 < self@.bundles.len(),
        ensures
            r == can_merge(
                self@.ranges,
                self@.in_bundle[from.ix()],
                self@.in_bundle[to.ix()],
                0,
                0,
                0,
            ),
    {
        let ghost a = self@.in_bundle[from.ix()];
        let ghost b = self@.in_bundle[to.ix()];
        let mut iter0 = self.in_bundle.first(from.index());
        let mut iter1 = self.in_bundle.first(to.index());
        let mut range_count: u32 = 0;
        let ghost mut i: int = 0;
        let ghost mut j: int = 0;
        while iter0 != NIL && iter1 != NIL
            invariant
                self.wf(),
                from.0 < self@.bundles.len(),
                to.0 < self@.bundles.len(),
                a == self@.in_bundle[from.ix()],
                b == self@.in_bundle[to.ix()],
                0 <= i <= a.len(),
                0 <= j <= b.len(),
                iter0 == node_at(a, i),
                iter1 == node_at(b, j),
                iter0 == NIL <==> i == a.len(),
                iter1 == NIL <==> j == b.len(),
                iter0 != NIL ==> iter0 < self@.ranges.len(),
                iter1 != NIL ==> iter1 < self@.ranges.len(),
                range_count <= 200,
                can_merge(self@.ranges, a, b, 0, 0, 0) == can_merge(
                    self@.ranges,
                    a,
                    b,
                    i,
                    j,
                    range_count as int,
                ),
            decreases a.len() - i + b.len() - j,
        {
            if range_count >= 200 {
                return false;
            }
            range_count += 1;
            let r0 = self.ranges[iter0 as usize].range;
            let r1 = self.ranges[iter1 as usize].range;
            if r0.from >= r1.to {
                iter1 = self.in_bundle.next(iter1, Ghost(to.ix()), Ghost(j));
                proof {
                    j = j + 1;
                }
            } else if r1.from >= r0.to {
                iter0 = self.in_bundle.next(iter0, Ghost(from.ix()), Ghost(i));
                proof {
                    i = i + 1;
                }
            } else {
                return false;
            }
        }
        true
    }

    /// Note a bundle as the bundle of all live ranges of another one.
    fn retag_bundle(&mut self, from: LiveBundleIndex, to: LiveBundleIndex)
        requires
            old(self).wf(),
            from.0 < old(self)@.bundles.len(),
            to.0 < old(self)@.bundles.len(),
        ensures
            final(self).linked(),
            final(self).func == old(self).func,
            final(self)@ == (GraphState {
                ranges: retag(old(self)@.ranges, old(self)@.in_bundle[from.ix()], to.0),
                ..old(self)@
            }),
    {
        let ghost g = self@;
        let ghost list = g.in_bundle[from.ix()];
        let mut iter = self.in_bundle.first(from.index());
        let ghost mut i: int = 0;
        assert(retag(g.ranges, list.take(0), to.0) =~= g.ranges);
        while iter != NIL
            invariant
                self.linked(),
                self.func == old(self).func,
                graph_ok(self.func@, g),
                from.0 < g.bundles.len(),
                list == g.in_bundle[from.ix()],
                self@ == (GraphState { ranges: retag(g.ranges, list.take(i), to.0), ..g }),
                0 <= i <= list.len(),
                iter == node_at(list, i),
                iter == NIL <==> i == list.len(),
                iter != NIL ==> iter < g.ranges.len(),
            decreases list.len() - i,
        {
            self.ranges[iter as usize].bundle = to;
            proof {
                let t = list.take(i + 1);
                assert(t =~= list.take(i).push(iter));
                assert forall|r: u32| #[trigger] t.contains(r) == (list.take(i).contains(r) || r == iter) by {
                    if list.take(i).contains(r) {
                        let k = choose|k: int| 0 <= k < i && list.take(i)[k] == r;
                        assert(t[k] == r);
                    }
                    if r == iter {
                        assert(t[i] == r);
                    }
                    if t.contains(r) {
                        let k = choose|k: int| 0 <= k < i + 1 && t[k] == r;
                        if k < i {
                            assert(list.take(i)[k] == r);
                        }
                    }
                }
                assert(self@.ranges =~= retag(g.ranges, t, to.0));
            }
            iter = self.in_bundle.next(iter, Ghost(from.ix()), Ghost(i));
            proof {
                i = i + 1;
            }
        }
        assert(list.take(i) =~= list);
    }

    /// Merge the list of one bundle into the list of another one.
    fn merge_bundle_lists(&mut self, from: LiveBundleIndex, to: LiveBundleIndex)
        requires
            old(self).linked(),
            old(self)@.bundles.len() == old(self)@.in_bundle.len(),
            old(self)@.bundles.len() <= MAX_ENTRIES,
            old(self)@.ranges.len() <= MAX_ENTRIES,
            from.0 < old(self)@.bundles.len(),
            to.0 < old(self)@.bundles.len(),
            from != to,
        ensures
            final(self).linked(),
            final(self).func == old(self).func,
            final(self)@ == (GraphState {
                in_bundle: old(self)@.in_bundle.update(
                    to.ix(),
                    merge_lists(
                        old(self)@.ranges,
                        old(self)@.in_bundle[from.ix()],
                        old(self)@.in_bundle[to.ix()],
                    ),
                ).update(from.ix(), Seq::empty()),
                ..old(self)@
            }),
    {
        let ghost g = self@;
        let ghost a = g.in_bundle[from.ix()];
        let ghost b = g.in_bundle[to.ix()];
        let ghost merged = merge_lists(g.ranges, a, b);
        let ghost mut p: Seq<u32> = Seq::empty();
        let ghost mut x = a;
        let ghost mut y = b;
        let mut iter0 = self.in_bundle.first(from.index());
        let mut iter1 = self.in_bundle.first(to.index());
        let mut prev: u32 = NIL;
        proof {
            assert(p + y =~= b);
            assert(p + merge_lists(g.ranges, x, y) =~= merged);
            assert(g.in_bundle =~= g.in_bundle.update(to.ix(), p + y).update(from.ix(), x));
        }
        while iter0 != NIL
            invariant
                self.linked(),
                self.func == old(self).func,
                from.0 < g.bundles.len(),
                to.0 < g.bundles.len(),
                g.bundles.len() == g.in_bundle.len(),
                g.bundles.len() <= MAX_ENTRIES,
                g.ranges.len() <= MAX_ENTRIES,
                from != to,
                self@ == (GraphState {
                    in_bundle: g.in_bundle.update(to.ix(), p + y).update(from.ix(), x),
                    ..g
                }),
                p + merge_lists(g.ranges, x, y) == merged,
                iter0 == node_at(x, 0),
                iter0 == NIL <==> x.len() == 0,
                iter0 != NIL ==> iter0 < g.ranges.len(),
                iter1 == node_at(y, 0),
                iter1 == NIL <==> y.len() == 0,
                iter1 != NIL ==> iter1 < g.ranges.len(),
                prev == node_at(p + y, p.len() - 1),
            decreases x.len() + y.len(),
        {
            let ghost before = self@;
            assert(before.in_bundle[to.ix()] == p + y);
            assert(before.in_bundle[from.ix()] == x);
            let take0 = iter1 == NIL || self.ranges[iter0 as usize].range.from
                <= self.ranges[iter1 as usize].range.from;
            if take0 {
                let n = self.in_bundle.remove_after(from.index(), NIL, Ghost(0));
                assert(x.remove(0) =~= x.drop_first());
                assert(self@.in_bundle[to.ix()] == p + y);
                assert(self@.in_bundle[from.ix()] == x.drop_first());
                self.in_bundle.insert_after(to.index(), prev, n, Ghost(p.len() as int));
                prev = n;
                iter0 = self.in_bundle.first(from.index());
                proof {
                    assert((p + y).insert(p.len() as int, n) =~= p.push(n) + y);
                    assert(p + (seq![n] + merge_lists(g.ranges, x.drop_first(), y)) =~= p.push(n)
                        + merge_lists(g.ranges, x.drop_first(), y));
                    if y.len() == 0 {
                        assert(seq![x[0]] + x.drop_first() =~= x);
                        assert(merge_lists(g.ranges, x, y) =~= x);
                        assert(merge_lists(g.ranges, x.drop_first(), y) =~= x.drop_first());
                    }
                    p = p.push(n);
                    x = x.drop_first();
                    assert(self@.in_bundle =~= g.in_bundle.update(to.ix(), p + y).update(
                        from.ix(),
                        x,
                    ));
                }
            } else {
                let n = iter1;
                prev = n;
                assert((p + y)[p.len() as int] == n);
                iter1 = self.in_bundle.next(n, Ghost(to.ix()), Ghost(p.len() as int));
                proof {
                    assert(p.push(n) + y.drop_first() =~= p + y);
                    assert(p + (seq![n] + merge_lists(g.ranges, x, y.drop_first())) =~= p.push(n)
                        + merge_lists(g.ranges, x, y.drop_first()));
                    p = p.push(n);
                    y = y.drop_first();
                }
            }
        }
        proof {
            assert(x =~= Seq::empty());
            assert(merge_lists(g.ranges, x, y) == y);
        }
    }

    /// Merge one bundle into another one if both are of one class and their live ranges do not
    /// reach into each other. Says whether they are one bundle now.
    pub fn merge_bundles(&mut self, from: LiveBundleIndex, to: LiveBundleIndex) -> (r: bool)
        requires
            old(self).wf(),
            bundled(old(self)@),
            from.0 < old(self)@.bundles.len(),
            to.0 < old(self)@.bundles.len(),
            old(self)@.in_bundle[from.ix()].len() > 0,
            old(self)@.in_bundle[to.ix()].len() > 0,
        ensures
            final(self).wf(),
            final(self).func == old(self).func,
            (final(self)@, r) == graph_merge(old(self)@, from.0, to.0),
            bundled(final(self)@),
    {
        if from == to {
            return true;
        }
        let ghost g = self@;
        let ghost a = g.in_bundle[from.ix()];
        let ghost b = g.in_bundle[to.ix()];
        let first_from = self.in_bundle.first(from.index());
        let first_to = self.in_bundle.first(to.index());
        proof {
            assert(g.in_bundle[from.ix()][0] == first_from);
            assert(g.in_bundle[to.ix()][0] == first_to);
            assert(range_ok(self.func@, g, first_from as int));
            assert(range_ok(self.func@, g, first_to as int));
        }
        let vreg_from = self.ranges[first_from as usize].vreg;
        let vreg_to = self.ranges[first_to as usize].vreg;
        if self.vregs[vreg_from.index()].reg.class() != self.vregs[vreg_to.index()].reg.class() {
            return false;
        }
        if !self.bundles_can_merge(from, to) {
            return false;
        }
        self.retag_bundle(from, to);
        let ghost ranges = self@.ranges;
        self.merge_bundle_lists(from, to);
        proof {
            let h = self@;
            let merged = merge_lists(ranges, a, b);
            self.in_bundle.lemma_ok();
            assert forall|l: int, j: int|
                0 <= l < h.in_bundle.len() && 0 <= j < h.in_bundle[l].len() implies {
                &&& h.ranges[(#[trigger] h.in_bundle[l][j]) as int].bundle.0 == l
                &&& h.ranges[h.in_bundle[l][j] as int].vreg.is_valid()
            } by {
                let r = h.in_bundle[l][j];
                if l == to.ix() {
                    assert(merged.contains(merged[j]));
                    lemma_merge_members(ranges, a, b, r);
                    if a.contains(r) {
                        let x = choose|x: int| 0 <= x < a.len() && a[x] == r;
                        assert(g.in_bundle[from.ix()][x] == r);
                        lemma_below(g.in_bundle, g.ranges.len() as int, from.ix(), x);
                    } else {
                        let x = choose|x: int| 0 <= x < b.len() && b[x] == r;
                        assert(g.in_bundle[to.ix()][x] == r);
                        lemma_below(g.in_bundle, g.ranges.len() as int, to.ix(), x);
                    }
                } else {
                    assert(g.in_bundle[l][j] == r);
                    lemma_below(g.in_bundle, g.ranges.len() as int, l, j);
                    if a.contains(r) {
                        let x = choose|x: int| 0 <= x < a.len() && a[x] == r;
                        assert(g.in_bundle[from.ix()][x] == r);
                        assert(g.ranges[r as int].bundle.0 == from.0);
                    }
                }
            }
            assert forall|r: int| 0 <= r < h.ranges.len() implies #[trigger] h.ranges[r] == (
            LiveRange { bundle: h.ranges[r].bundle, ..g.ranges[r] }) && (
            h.ranges[r].bundle.is_valid() ==> h.ranges[r].bundle.0 < h.bundles.len()) by {
                assert(range_ok(self.func@, g, r));
            }
            lemma_rebundled_ok(self.func@, g, h);
            law_merge_in_order(self.func@, g, from.0, to.0);
            assert(only_shrunk(g.ranges, h.ranges));
            lemma_shrunk_vregs(g, h);
            lemma_merge_together(self.func@, g, from.0, to.0);
            assert forall|v: int, i: int|
                0 <= v < h.in_vreg.len() && 0 <= i < h.in_vreg[v].len() implies in_its_bundle(
                h,
                #[trigger] h.in_vreg[v][i],
            ) by {
                let r = g.in_vreg[v][i];
                assert(in_its_bundle(g, r));
                lemma_below(g.in_vreg, g.ranges.len() as int, v, i);
                lemma_merge_members(ranges, a, b, r);
                let o = g.ranges[r as int].bundle;
                if a.contains(r) {
                    assert(h.in_bundle[to.ix()].contains(r));
                } else {
                    assert(o.0 != from.0);
                    if o.0 == to.0 {
                        assert(h.in_bundle[to.ix()].contains(r));
                    }
                }
            }
            assert forall|l: int, j: int|
                0 <= l < h.in_bundle.len() && 0 <= j < h.in_bundle[l].len() implies in_its_vreg(
                h,
                #[trigger] h.in_bundle[l][j],
            ) by {
                let r = h.in_bundle[l][j];
                if l == to.ix() {
                    assert(merged.contains(merged[j]));
                    lemma_merge_members(ranges, a, b, r);
                    if a.contains(r) {
                        let x = choose|x: int| 0 <= x < a.len() && a[x] == r;
                        assert(in_its_vreg(g, g.in_bundle[from.ix()][x]));
                        lemma_below(g.in_bundle, g.ranges.len() as int, from.ix(), x);
                    } else {
                        let x = choose|x: int| 0 <= x < b.len() && b[x] == r;
                        assert(in_its_vreg(g, g.in_bundle[to.ix()][x]));
                        lemma_below(g.in_bundle, g.ranges.len() as int, to.ix(), x);
                    }
                } else {
                    assert(in_its_vreg(g, g.in_bundle[l][j]));
                    lemma_below(g.in_bundle, g.ranges.len() as int, l, j);
                }
            }
        }
        true
    }
}

impl LiveGraph {
    /// Make a bundle for every register that has live ranges.
    pub fn bundle_all(&mut self) -> (r: Result<(), RegAllocError>)
        requires
            old(self).wf(),
            old(self)@.bundles.len() == 0,
            vregs_in_order(old(self)@),
        ensures
            final(self).func == old(self).func,
            match graph_bundle_all(old(self)@, 0) {
                Ok(g) => r is Ok && final(self)@ == g && final(self).wf() && bundled(g),
                Err(e) => r == Err::<(), RegAllocError>(e) && e !is SSA,
            },
    {
        let ghost g = self@;
        let n = self.vregs.len();
        let mut v: usize = 0;
        proof {
            assert forall|w: int, i: int|
                0 <= w < g.in_vreg.len() && 0 <= i < g.in_vreg[w].len() implies if w < 0 {
                in_its_bundle(g, #[trigger] g.in_vreg[w][i])
            } else {
                g.ranges[g.in_vreg[w][i] as int].bundle.is_invalid()
            } by {
                lemma_below(g.in_vreg, g.ranges.len() as int, w, i);
                assert(range_ok(self.func@, g, g.in_vreg[w][i] as int));
            }
        }
        while v < n
            invariant
                self.wf(),
                self.func == old(self).func,
                g == old(self)@,
                n == self@.vregs.len(),
                v <= n,
                bundled_upto(self@, v as int),
                graph_bundle_all(g, 0) == graph_bundle_all(self@, v as int),
            decreases n - v,
        {
            match self.bundle_vreg(v) {
                Ok(()) => {},
                Err(e) => {
                    return Err(e);
                },
            }
            v += 1;
        }
        proof {
            let h = self@;
            assert forall|w: int, i: int|
                0 <= w < h.in_vreg.len() && 0 <= i < h.in_vreg[w].len() implies in_its_bundle(
                h,
                #[trigger] h.in_vreg[w][i],
            ) by {}
        }
        Ok(())
    }
}

} // verus!
