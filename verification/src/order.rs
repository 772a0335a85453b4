//! The live ranges of a register, and those of a bundle, are in program order and do not reach
//! into each other.
use crate::bundles::{can_merge, graph_merge, lemma_merge_members, merge_lists};
use crate::code_range::CodeRange;
use crate::data::LiveRange;
use crate::func::FuncModel;
use crate::graph::{
    fresh_range, graph_add_range, graph_ok, graph_set_range, range_ok, GraphState, COALESCE_LIMIT,
};
use crate::index::VRegIndex;
use crate::lists::{lemma_below, lemma_neq, lemma_remove_ok, lists_ok, NIL};
use crate::live::{
    graph_add_live, graph_distribute, graph_join, graph_scan, hull, lemma_distribute_frame,
};
use vstd::prelude::*;

verus! {

/// Each live range in the list ends before the next one begins.
pub open spec fn in_order(ranges: Seq<LiveRange>, list: Seq<u32>) -> bool {
    forall|i: int, j: int|
        #![trigger list[i], list[j]]
        0 <= i < j < list.len() ==> ranges[list[i] as int].range.precedes(
            ranges[list[j] as int].range,
        )
}

/// The live ranges of every register are in order.
pub open spec fn vregs_in_order(g: GraphState) -> bool {
    forall|v: int| 0 <= v < g.in_vreg.len() ==> in_order(g.ranges, #[trigger] g.in_vreg[v])
}

/// The live ranges of every bundle are in order.
pub open spec fn bundles_in_order(g: GraphState) -> bool {
    forall|b: int| 0 <= b < g.in_bundle.len() ==> in_order(g.ranges, #[trigger] g.in_bundle[b])
}

/// Is every live range in its old place or a part of it?
pub open spec fn only_shrunk(a: Seq<LiveRange>, b: Seq<LiveRange>) -> bool {
    &&& b.len() >= a.len()
    &&& forall|r: int|
        0 <= r < a.len() ==> {
            &&& a[r].range.from.ix() <= (#[trigger] b[r]).range.from.ix()
            &&& b[r].range.to.ix() <= a[r].range.to.ix()
        }
}

/// Live ranges that shrink stay in order.
pub proof fn lemma_shrunk_in_order(a: Seq<LiveRange>, b: Seq<LiveRange>, list: Seq<u32>)
    requires
        in_order(a, list),
        only_shrunk(a, b),
        forall|i: int| 0 <= i < list.len() ==> (#[trigger] list[i]) < a.len(),
    ensures
        in_order(b, list),
{
}

/// The registers stay in order where live ranges shrink.
pub proof fn lemma_shrunk_vregs(g: GraphState, h: GraphState)
    requires
        vregs_in_order(g),
        h.in_vreg == g.in_vreg,
        only_shrunk(g.ranges, h.ranges),
        lists_ok(g.in_vreg, g.ranges.len() as int),
    ensures
        vregs_in_order(h),
{
    assert forall|v: int| 0 <= v < h.in_vreg.len() implies in_order(
        h.ranges,
        #[trigger] h.in_vreg[v],
    ) by {
        assert(in_order(g.ranges, g.in_vreg[v]));
        assert forall|i: int| 0 <= i < h.in_vreg[v].len() implies (#[trigger] h.in_vreg[v][i])
            < g.ranges.len() by {
            lemma_below(g.in_vreg, g.ranges.len() as int, v, i);
        }
        lemma_shrunk_in_order(g.ranges, h.ranges, h.in_vreg[v]);
    }
}

/// The bundles stay in order where live ranges shrink.
pub proof fn lemma_shrunk_bundles(g: GraphState, h: GraphState)
    requires
        bundles_in_order(g),
        h.in_bundle == g.in_bundle,
        only_shrunk(g.ranges, h.ranges),
        lists_ok(g.in_bundle, g.ranges.len() as int),
    ensures
        bundles_in_order(h),
{
    assert forall|b: int| 0 <= b < h.in_bundle.len() implies in_order(
        h.ranges,
        #[trigger] h.in_bundle[b],
    ) by {
        assert(in_order(g.ranges, g.in_bundle[b]));
        assert forall|i: int| 0 <= i < h.in_bundle[b].len() implies (
        #[trigger] h.in_bundle[b][i]) < g.ranges.len() by {
            lemma_below(g.in_bundle, g.ranges.len() as int, b, i);
        }
        lemma_shrunk_in_order(g.ranges, h.ranges, h.in_bundle[b]);
    }
}

/// No live range of one list reaches into one of the other list.
pub open spec fn apart(ranges: Seq<LiveRange>, a: Seq<u32>, b: Seq<u32>) -> bool {
    forall|i: int, j: int|
        #![trigger a[i], b[j]]
        0 <= i < a.len() && 0 <= j < b.len() ==> ranges[a[i] as int].range.precedes(
            ranges[b[j] as int].range,
        ) || ranges[b[j] as int].range.precedes(ranges[a[i] as int].range)
}

/// Every live range in the list begins before it ends.
pub open spec fn all_nonempty(ranges: Seq<LiveRange>, list: Seq<u32>) -> bool {
    forall|i: int|
        0 <= i < list.len() ==> ranges[(#[trigger] list[i]) as int].range.from.ix()
            < ranges[list[i] as int].range.to.ix()
}

proof fn lemma_can_merge_apart(
    ranges: Seq<LiveRange>,
    a: Seq<u32>,
    b: Seq<u32>,
    i: int,
    j: int,
    count: int,
)
    requires
        in_order(ranges, a),
        in_order(ranges, b),
        all_nonempty(ranges, a),
        all_nonempty(ranges, b),
        0 <= i <= a.len(),
        0 <= j <= b.len(),
        can_merge(ranges, a, b, i, j, count),
    ensures
        apart(ranges, a.skip(i), b.skip(j)),
    decreases a.len() - i + b.len() - j,
{
    if i < a.len() && j < b.len() {
        let x = a.skip(i);
        let y = b.skip(j);
        if ranges[a[i] as int].range.from.ix() >= ranges[b[j] as int].range.to.ix() {
            lemma_can_merge_apart(ranges, a, b, i, j + 1, count + 1);
            assert forall|p: int, q: int| #![trigger x[p], y[q]] 0 <= p < x.len() && 0 <= q
                < y.len() implies ranges[x[p] as int].range.precedes(ranges[y[q] as int].range)
                || ranges[y[q] as int].range.precedes(ranges[x[p] as int].range) by {
                assert(x[p] == a[i + p]);
                if q == 0 {
                    if p > 0 {
                        assert(ranges[a[i] as int].range.precedes(ranges[a[i + p] as int].range));
                    }
                } else {
                    assert(y[q] == b.skip(j + 1)[q - 1]);
                }
            }
        } else {
            lemma_can_merge_apart(ranges, a, b, i + 1, j, count + 1);
            assert forall|p: int, q: int| #![trigger x[p], y[q]] 0 <= p < x.len() && 0 <= q
                < y.len() implies ranges[x[p] as int].range.precedes(ranges[y[q] as int].range)
                || ranges[y[q] as int].range.precedes(ranges[x[p] as int].range) by {
                assert(y[q] == b[j + q]);
                if p == 0 {
                    if q > 0 {
                        assert(ranges[b[j] as int].range.precedes(ranges[b[j + q] as int].range));
                    }
                } else {
                    assert(x[p] == a.skip(i + 1)[p - 1]);
                }
            }
        }
    }
}

proof fn lemma_merge_lists_in_order(ranges: Seq<LiveRange>, a: Seq<u32>, b: Seq<u32>)
    requires
        in_order(ranges, a),
        in_order(ranges, b),
        all_nonempty(ranges, a),
        all_nonempty(ranges, b),
        apart(ranges, a, b),
    ensures
        in_order(ranges, merge_lists(ranges, a, b)),
    decreases a.len() + b.len(),
{
    if a.len() > 0 && b.len() > 0 {
        let m = merge_lists(ranges, a, b);
        let (x, y, first) = if ranges[a[0] as int].range.from.ix()
            <= ranges[b[0] as int].range.from.ix() {
            (a.drop_first(), b, a[0])
        } else {
            (a, b.drop_first(), b[0])
        };
        assert(in_order(ranges, x) && in_order(ranges, y));
        assert(apart(ranges, x, y));
        lemma_merge_lists_in_order(ranges, x, y);
        let t = merge_lists(ranges, x, y);
        assert(m =~= seq![first] + t);
        assert forall|k: int| 0 <= k < t.len() implies ranges[first as int].range.precedes(
            ranges[(#[trigger] t[k]) as int].range,
        ) by {
            lemma_merge_members(ranges, x, y, t[k]);
            assert(ranges[a[0] as int].range.precedes(ranges[b[0] as int].range)
                || ranges[b[0] as int].range.precedes(ranges[a[0] as int].range));
            if x.contains(t[k]) {
                let p = choose|p: int| 0 <= p < x.len() && x[p] == t[k];
                if first == a[0] && x.len() < a.len() {
                    assert(a[p + 1] == t[k]);
                } else {
                    assert(a[p] == t[k]);
                    if p > 0 {
                        assert(ranges[a[0] as int].range.precedes(ranges[a[p] as int].range));
                    }
                }
            } else {
                let p = choose|p: int| 0 <= p < y.len() && y[p] == t[k];
                if y.len() < b.len() {
                    assert(b[p + 1] == t[k]);
                } else {
                    assert(b[p] == t[k]);
                    if p > 0 {
                        assert(ranges[b[0] as int].range.precedes(ranges[b[p] as int].range));
                    }
                }
            }
        }
        assert forall|p: int, q: int| #![trigger m[p], m[q]] 0 <= p < q < m.len() implies ranges[m[p] as int].range.precedes(
        ranges[m[q] as int].range) by {
            assert(m[q] == t[q - 1]);
            if p > 0 {
                assert(m[p] == t[p - 1]);
            }
        }
    }
}

/// Merged bundles keep their live ranges in order.
pub proof fn law_merge_in_order(f: FuncModel, g: GraphState, from: u32, to: u32)
    requires
        graph_ok(f, g),
        bundles_in_order(g),
        from < g.bundles.len(),
        to < g.bundles.len(),
    ensures
        bundles_in_order(graph_merge(g, from, to).0),
{
    let (h, merged) = graph_merge(g, from, to);
    let a = g.in_bundle[from as int];
    let b = g.in_bundle[to as int];
    if from != to && merged {
        let ranges = h.ranges;
        assert(only_shrunk(g.ranges, ranges));
        lemma_shrunk_bundles(g, GraphState { ranges, ..g });
        assert(in_order(ranges, a) && in_order(ranges, b)) by {
            let k = GraphState { ranges, ..g };
            assert(in_order(k.ranges, k.in_bundle[from as int]));
            assert(in_order(k.ranges, k.in_bundle[to as int]));
        }
        assert(in_order(g.ranges, g.in_bundle[from as int]));
        assert(in_order(g.ranges, g.in_bundle[to as int]));
        assert forall|l: int, k: int|
            0 <= l < g.in_bundle.len() && 0 <= k < g.in_bundle[l].len() implies {
            let r = (#[trigger] g.in_bundle[l][k]) as int;
            r < g.ranges.len() && g.ranges[r].range.from.ix() < g.ranges[r].range.to.ix()
                && ranges[r].range == g.ranges[r].range
        } by {
            lemma_below(g.in_bundle, g.ranges.len() as int, l, k);
            assert(range_ok(f, g, g.in_bundle[l][k] as int));
        }
        assert(all_nonempty(g.ranges, a)) by {
            assert forall|k: int| 0 <= k < a.len() implies g.ranges[(
            #[trigger] a[k]) as int].range.from.ix() < g.ranges[a[k] as int].range.to.ix() by {
                assert(g.in_bundle[from as int][k] == a[k]);
            }
        }
        assert(all_nonempty(g.ranges, b)) by {
            assert forall|k: int| 0 <= k < b.len() implies g.ranges[(
            #[trigger] b[k]) as int].range.from.ix() < g.ranges[b[k] as int].range.to.ix() by {
                assert(g.in_bundle[to as int][k] == b[k]);
            }
        }
        lemma_can_merge_apart(g.ranges, a, b, 0, 0, 0);
        assert(a.skip(0) =~= a && b.skip(0) =~= b);
        assert(apart(ranges, a, b)) by {
            assert forall|i: int, j: int| #![trigger a[i], b[j]] 0 <= i < a.len() && 0 <= j
                < b.len() implies ranges[a[i] as int].range.precedes(ranges[b[j] as int].range)
                || ranges[b[j] as int].range.precedes(ranges[a[i] as int].range) by {
                assert(g.in_bundle[from as int][i] == a[i]);
                assert(g.in_bundle[to as int][j] == b[j]);
            }
        }
        assert(all_nonempty(ranges, a)) by {
            assert forall|k: int| 0 <= k < a.len() implies ranges[(
            #[trigger] a[k]) as int].range.from.ix() < ranges[a[k] as int].range.to.ix() by {
                assert(g.in_bundle[from as int][k] == a[k]);
            }
        }
        assert(all_nonempty(ranges, b)) by {
            assert forall|k: int| 0 <= k < b.len() implies ranges[(
            #[trigger] b[k]) as int].range.from.ix() < ranges[b[k] as int].range.to.ix() by {
                assert(g.in_bundle[to as int][k] == b[k]);
            }
        }
        lemma_merge_lists_in_order(ranges, a, b);
        assert forall|l: int| 0 <= l < h.in_bundle.len() implies in_order(
            h.ranges,
            #[trigger] h.in_bundle[l],
        ) by {
            if l != from && l != to {
                let k = GraphState { ranges, ..g };
                assert(in_order(k.ranges, k.in_bundle[l]));
            }
        }
    }
}

/// How far the scan for `range` over the live ranges of register `v` has come: those before
/// position `i` end before `range` begins, but for `merged`, which stands at position `i - 1`,
/// covers `range`, and may reach into those from `i` on no further than `range` does.
pub open spec fn scan_ok(
    g: GraphState,
    v: u32,
    range: CodeRange,
    pass: bool,
    i: int,
    merged: u32,
) -> bool {
    let list = g.in_vreg[v as int];
    &&& v < g.in_vreg.len()
    &&& 0 <= i <= list.len()
    &&& lists_ok(g.in_vreg, g.ranges.len() as int)
    &&& g.ranges.len() < NIL
    &&& g.in_range.len() == g.ranges.len()
    &&& forall|r: int| 0 <= r < g.ranges.len() ==> (#[trigger] g.ranges[r]).range.from.ix()
        < g.ranges[r].range.to.ix()
    &&& forall|w: int|
        0 <= w < g.in_vreg.len() && w != v ==> in_order(g.ranges, #[trigger] g.in_vreg[w])
    &&& if merged == NIL {
        &&& in_order(g.ranges, list)
        &&& pass || i == 0
        &&& forall|k: int|
            0 <= k < i ==> g.ranges[(#[trigger] list[k]) as int].range.precedes(range)
    } else {
        let m = g.ranges[merged as int].range;
        &&& i > 0
        &&& list[i - 1] == merged
        &&& in_order(g.ranges, list.take(i))
        &&& in_order(g.ranges, list.skip(i))
        &&& m.from.ix() <= range.from.ix()
        &&& range.to.ix() <= m.to.ix()
        &&& forall|k: int| i <= k < list.len() ==> {
            &&& m.to.ix() <= range.to.ix() || m.precedes(
                g.ranges[(#[trigger] list[k]) as int].range,
            )
            &&& pass ==> range.from.ix() < g.ranges[list[k] as int].range.from.ix()
        }
        &&& forall|k: int| 0 <= k < i - 1 ==> g.ranges[(#[trigger] list[k]) as int].range.precedes(m)
    }
}

pub proof fn lemma_join_step(g: GraphState, v: u32, range: CodeRange, pass: bool, i: int, merged: u32)
    requires
        scan_ok(g, v, range, pass, i, merged),
        merged != NIL,
        i < g.in_vreg[v as int].len(),
        graph_join(g, v, i, merged) is Ok,
    ensures
        scan_ok(graph_join(g, v, i, merged)->Ok_0, v, range, pass, i, merged),
        graph_join(g, v, i, merged)->Ok_0.in_vreg == g.in_vreg.update(
            v as int,
            g.in_vreg[v as int].remove(i),
        ),
{
    let n = g.ranges.len() as int;
    let list = g.in_vreg[v as int];
    let r = list[i];
    let lr = g.ranges[r as int];
    let m = g.ranges[merged as int];
    lemma_below(g.in_vreg, n, v as int, i);
    lemma_below(g.in_vreg, n, v as int, i - 1);
    lemma_neq(g.in_vreg, n, v as int, i, v as int, i - 1);
    let g1 = graph_set_range(
        g,
        merged,
        LiveRange {
            range: CodeRange {
                from: m.range.from,
                to: if lr.range.to.ix() > m.range.to.ix() {
                    lr.range.to
                } else {
                    m.range.to
                },
            },
            def: if lr.def.is_valid() {
                lr.def
            } else {
                m.def
            },
            ..m
        },
    );
    lemma_distribute_frame(g1, v, r, merged);
    let h1 = graph_distribute(g1, v, r, merged)->Ok_0;
    let h = graph_join(g, v, i, merged)->Ok_0;
    lemma_remove_ok(g.in_vreg, n, v as int, i);
    let rest = list.remove(i);
    assert(h.in_vreg == g.in_vreg.update(v as int, rest));
    assert forall|k: int| 0 <= k < n && k != merged implies (#[trigger] h.ranges[k]).range
        == g.ranges[k].range by {}
    assert(h.ranges[merged as int].range == g1.ranges[merged as int].range);
    assert forall|w: int| 0 <= w < h.in_vreg.len() && w != v implies in_order(
        h.ranges,
        #[trigger] h.in_vreg[w],
    ) by {
        assert(h.in_vreg[w] == g.in_vreg[w]);
        assert(in_order(g.ranges, g.in_vreg[w]));
        assert forall|k: int| 0 <= k < g.in_vreg[w].len() implies #[trigger] g.in_vreg[w][k]
            != merged && g.in_vreg[w][k] < n by {
            lemma_neq(g.in_vreg, n, w, k, v as int, i - 1);
            lemma_below(g.in_vreg, n, w, k);
        }
    }
    assert forall|k: int| 0 <= k < rest.len() implies {
        &&& k < i ==> #[trigger] rest[k] == list[k]
        &&& k >= i ==> rest[k] == list[k + 1]
        &&& rest[k] < n
        &&& k != i - 1 ==> rest[k] != merged
    } by {
        let k0 = if k < i {
            k
        } else {
            k + 1
        };
        lemma_below(g.in_vreg, n, v as int, k0);
        if k0 != i - 1 {
            lemma_neq(g.in_vreg, n, v as int, k0, v as int, i - 1);
        }
    }
    let mh = h.ranges[merged as int].range;
    let before = rest.take(i);
    assert forall|a: int, b: int| #![trigger before[a], before[b]] 0 <= a < b < before.len() implies h.ranges[before[a] as int].range.precedes(
    h.ranges[before[b] as int].range) by {
        assert(list.take(i)[a] == list[a]);
        assert(list.take(i)[b] == list[b]);
        assert(before[a] == rest[a]);
        assert(before[b] == rest[b]);
    }
    let after = rest.skip(i);
    assert forall|a: int, b: int| #![trigger after[a], after[b]] 0 <= a < b < after.len() implies h.ranges[after[a] as int].range.precedes(
    h.ranges[after[b] as int].range) by {
        assert(list.skip(i)[a + 1] == list[a + 1 + i]);
        assert(list.skip(i)[b + 1] == list[b + 1 + i]);
        assert(after[a] == rest[a + i]);
        assert(after[b] == rest[b + i]);
    }
    assert forall|k: int| i <= k < rest.len() implies {
        &&& mh.to.ix() <= range.to.ix() || mh.precedes(h.ranges[(#[trigger] rest[k]) as int].range)
        &&& pass ==> range.from.ix() < h.ranges[rest[k] as int].range.from.ix()
    } by {
        assert(rest[k] == list[k + 1]);
        assert(list.skip(i)[0] == list[i]);
        assert(list.skip(i)[k + 1 - i] == list[k + 1]);
        assert(lr.range.precedes(g.ranges[list[k + 1] as int].range));
    }
    assert forall|k: int| 0 <= k < i - 1 implies h.ranges[(
    #[trigger] rest[k]) as int].range.precedes(mh) by {
        assert(rest[k] == list[k]);
    }
    assert(rest[i - 1] == merged);
}

pub proof fn lemma_grow_step(g: GraphState, v: u32, range: CodeRange, pass: bool, i: int)
    requires
        scan_ok(g, v, range, pass, i, NIL),
        i < g.in_vreg[v as int].len(),
        range.from.ix() < range.to.ix(),
        pass ==> range.from.ix() < g.ranges[g.in_vreg[v as int][i] as int].range.to.ix(),
    ensures
        ({
            let r = g.in_vreg[v as int][i];
            let lr = g.ranges[r as int];
            scan_ok(
                graph_set_range(g, r, LiveRange { range: hull(lr.range, range), ..lr }),
                v,
                range,
                pass,
                i + 1,
                r,
            )
        }),
{
    let n = g.ranges.len() as int;
    let list = g.in_vreg[v as int];
    let r = list[i];
    let lr = g.ranges[r as int];
    lemma_below(g.in_vreg, n, v as int, i);
    let h = graph_set_range(g, r, LiveRange { range: hull(lr.range, range), ..lr });
    assert(h.ranges[r as int].range == hull(lr.range, range));
    assert forall|w: int, k: int|
        0 <= w < g.in_vreg.len() && 0 <= k < g.in_vreg[w].len() && (w != v || k
            != i) implies (#[trigger] g.in_vreg[w][k]) != r && g.in_vreg[w][k] < n by {
        lemma_neq(g.in_vreg, n, w, k, v as int, i);
        lemma_below(g.in_vreg, n, w, k);
    }
    assert forall|w: int| 0 <= w < h.in_vreg.len() && w != v implies in_order(
        h.ranges,
        #[trigger] h.in_vreg[w],
    ) by {
        assert(in_order(g.ranges, g.in_vreg[w]));
    }
    let before = list.take(i + 1);
    assert forall|a: int, b: int| #![trigger before[a], before[b]] 0 <= a < b < before.len() implies h.ranges[before[a] as int].range.precedes(
    h.ranges[before[b] as int].range) by {
        assert(before[a] == list[a]);
        assert(before[b] == list[b]);
        assert(g.ranges[list[a] as int].range.precedes(g.ranges[list[b] as int].range));
    }
    let after = list.skip(i + 1);
    assert forall|a: int, b: int| #![trigger after[a], after[b]] 0 <= a < b < after.len() implies h.ranges[after[a] as int].range.precedes(
    h.ranges[after[b] as int].range) by {
        assert(after[a] == list[a + i + 1]);
        assert(after[b] == list[b + i + 1]);
    }
    assert forall|k: int| i + 1 <= k < list.len() implies {
        &&& h.ranges[r as int].range.to.ix() <= range.to.ix() || h.ranges[r as int].range.precedes(
            h.ranges[(#[trigger] list[k]) as int].range,
        )
        &&& pass ==> range.from.ix() < h.ranges[list[k] as int].range.from.ix()
    } by {
        assert(g.in_vreg[v as int][k] != r);
        assert(lr.range.precedes(g.ranges[list[k] as int].range));
    }
    assert forall|k: int| 0 <= k < i implies h.ranges[(#[trigger] list[k]) as int].range.precedes(
        h.ranges[r as int].range,
    ) by {
        assert(g.in_vreg[v as int][k] != r);
        assert(g.ranges[list[k] as int].range.precedes(lr.range));
    }
}

/// Making room for `range` leaves the live ranges in order.
pub proof fn lemma_scan_order(g: GraphState, v: u32, range: CodeRange, pass: bool, i: int, merged: u32)
    requires
        scan_ok(g, v, range, pass, i, merged),
        range.from.ix() < range.to.ix(),
        graph_scan(g, v, range, pass, i, merged) is Ok,
    ensures
        ({
            let s = graph_scan(g, v, range, pass, i, merged)->Ok_0;
            let list = s.g.in_vreg[v as int];
            &&& scan_ok(s.g, v, range, pass, s.at, s.merged)
            &&& vregs_in_order(s.g)
            &&& forall|k: int|
                s.at <= k < list.len() ==> range.precedes(
                    s.g.ranges[(#[trigger] list[k]) as int].range,
                )
        }),
    decreases g.in_vreg[v as int].len() - i,
{
    let n = g.ranges.len() as int;
    let list = g.in_vreg[v as int];
    if i >= list.len() {
        lemma_scan_end(g, v, range, pass, i, merged);
    } else {
        let r = list[i];
        let lr = g.ranges[r as int];
        lemma_below(g.in_vreg, n, v as int, i);
        if range.from.ix() >= lr.range.to.ix() && pass {
            assert(merged == NIL);
            lemma_scan_order(g, v, range, pass, i + 1, merged);
        } else if range.to.ix() <= lr.range.from.ix() {
            lemma_scan_end(g, v, range, pass, i, merged);
        } else if merged == NIL {
            let h = graph_set_range(g, r, LiveRange { range: hull(lr.range, range), ..lr });
            lemma_grow_step(g, v, range, pass, i);
            lemma_scan_order(h, v, range, pass, i + 1, r);
        } else {
            lemma_join_step(g, v, range, pass, i, merged);
            let h = graph_join(g, v, i, merged)->Ok_0;
            lemma_scan_order(h, v, range, pass, i, merged);
        }
    }
}

proof fn lemma_scan_end(g: GraphState, v: u32, range: CodeRange, pass: bool, i: int, merged: u32)
    requires
        scan_ok(g, v, range, pass, i, merged),
        i < g.in_vreg[v as int].len() ==> range.precedes(
            g.ranges[g.in_vreg[v as int][i] as int].range,
        ),
    ensures
        vregs_in_order(g),
        forall|k: int|
            i <= k < g.in_vreg[v as int].len() ==> range.precedes(
                g.ranges[(#[trigger] g.in_vreg[v as int][k]) as int].range,
            ),
{
    let list = g.in_vreg[v as int];
    assert forall|k: int| i <= k < list.len() implies range.precedes(
        g.ranges[(#[trigger] list[k]) as int].range,
    ) && (k > i ==> g.ranges[list[i] as int].range.precedes(g.ranges[list[k] as int].range)) by {
        if merged != NIL && k > i {
            assert(list.skip(i)[0] == list[i]);
            assert(list.skip(i)[k - i] == list[k]);
        }
        lemma_below(g.in_vreg, g.ranges.len() as int, v as int, i);
    }
    if merged != NIL {
        let m = g.ranges[merged as int].range;
        assert forall|a: int, b: int| #![trigger list[a], list[b]] 0 <= a < b < list.len() implies g.ranges[list[a] as int].range.precedes(
        g.ranges[list[b] as int].range) by {
            lemma_below(g.in_vreg, g.ranges.len() as int, v as int, a);
            lemma_below(g.in_vreg, g.ranges.len() as int, v as int, b);
            if b < i {
                assert(list.take(i)[a] == list[a]);
                assert(list.take(i)[b] == list[b]);
            } else if a >= i {
                assert(list.skip(i)[a - i] == list[a]);
                assert(list.skip(i)[b - i] == list[b]);
            } else {
                assert(m.precedes(g.ranges[list[b] as int].range));
                if a < i - 1 {
                    lemma_below(g.in_vreg, g.ranges.len() as int, v as int, i - 1);
                    assert(g.ranges[list[a] as int].range.precedes(m));
                    assert(m.from.ix() < m.to.ix());
                }
            }
        }
    }
    assert forall|w: int| 0 <= w < g.in_vreg.len() implies in_order(
        g.ranges,
        #[trigger] g.in_vreg[w],
    ) by {}
}

/// A register that becomes live over a range keeps its live ranges in order, and the live range
/// that is returned covers the range.
pub proof fn law_add_live_in_order(
    f: FuncModel,
    g: GraphState,
    v: u32,
    range: CodeRange,
    num_ranges: int,
)
    requires
        graph_ok(f, g),
        vregs_in_order(g),
        v < f.num_vregs,
        range.within(f.insts),
    ensures
        graph_add_live(g, v, range, num_ranges) matches Ok(a) ==> {
            &&& vregs_in_order(a.g)
            &&& a.g.ranges[a.lr as int].range.from.ix() <= range.from.ix()
            &&& range.to.ix() <= a.g.ranges[a.lr as int].range.to.ix()
            &&& a.g.in_vreg[v as int].contains(a.lr)
        },
{
    let pass = num_ranges < COALESCE_LIMIT;
    if let Ok(a) = graph_add_live(g, v, range, num_ranges) {
        assert(in_order(g.ranges, g.in_vreg[v as int]));
        assert forall|r: int| 0 <= r < g.ranges.len() implies (
        #[trigger] g.ranges[r]).range.from.ix() < g.ranges[r].range.to.ix() by {
            assert(range_ok(f, g, r));
        }
        lemma_scan_order(g, v, range, pass, 0, NIL);
        let s = graph_scan(g, v, range, pass, 0, NIL)->Ok_0;
        let list = s.g.in_vreg[v as int];
        if s.merged == NIL {
            let n = s.g.ranges.len() as int;
            let h = graph_add_range(
                s.g,
                LiveRange { vreg: VRegIndex(v), ..fresh_range(range) },
            );
            let new = list.insert(s.at, a.lr);
            assert(a.g.in_vreg[v as int] == new);
            assert(new[s.at] == a.lr);
            assert forall|w: int, k: int|
                0 <= w < s.g.in_vreg.len() && 0 <= k < s.g.in_vreg[w].len() implies (
            #[trigger] s.g.in_vreg[w][k]) < n by {
                lemma_below(s.g.in_vreg, n, w, k);
            }
            assert forall|w: int| 0 <= w < a.g.in_vreg.len() implies in_order(
                a.g.ranges,
                #[trigger] a.g.in_vreg[w],
            ) by {
                assert(in_order(s.g.ranges, s.g.in_vreg[w]));
                if w == v {
                    assert forall|x: int, y: int| #![trigger new[x], new[y]] 0 <= x < y
                        < new.len() implies a.g.ranges[new[x] as int].range.precedes(
                    a.g.ranges[new[y] as int].range) by {
                        let x0 = if x < s.at {
                            x
                        } else {
                            x - 1
                        };
                        let y0 = if y < s.at {
                            y
                        } else {
                            y - 1
                        };
                        if x != s.at {
                            assert(new[x] == list[x0]);
                        }
                        if y != s.at {
                            assert(new[y] == list[y0]);
                        }
                    }
                }
            }
        } else {
            assert(list[s.at - 1] == s.merged);
        }
    }
}

} // verus!
