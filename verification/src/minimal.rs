//! A split around all mentions of a bundle ends in minimal bundles.
use crate::code_range::CodeRange;
use crate::data::{LiveRange, Use};
use crate::func::FuncModel;
use crate::graph::{graph_ok, mention_ok, range_ok, GraphState, MAX_ENTRIES};
use crate::held::defs_placed;
use crate::index::Inst;
use crate::lists::{is_free, lemma_below, lemma_insert_ok, lemma_neq, lemma_split_ok, lists_ok, NIL};
use crate::order::in_order;
use crate::points::{
    all_points, all_use_points, apart_points, inner_starts, split_bounds, use_points, Bounds,
};
use crate::props::bundle_minimal;
use crate::reg::ProgPoint;
use crate::sort::{keys_sorted, law_stable_sort, lemma_sorted_has, stable_sort, HasKey};
use crate::split::{
    cut_first, cut_rest, cut_tag, first_use_from, graph_cut_list, graph_cut_range, graph_split,
    lemma_first_use_from, skip_points, split_list, split_one, split_rest, Cut,
};
use crate::uses::uses_placed;
use vstd::prelude::*;

verus! {

/// Is the use one of a live range of bundle `home`?
pub open spec fn home_use(g: GraphState, home: u32, u: u32) -> bool {
    exists|i: int|
        0 <= i < g.in_bundle[home as int].len() && g.in_range[(
        #[trigger] g.in_bundle[home as int][i]) as int].contains(u)
}

/// Is the definition one of a live range of bundle `home`?
pub open spec fn home_def(g: GraphState, home: u32, d: u32) -> bool {
    exists|i: int|
        0 <= i < g.in_bundle[home as int].len() && g.ranges[(
        #[trigger] g.in_bundle[home as int][i]) as int].def.0 == d
}

/// Does a live range of bundle `home` begin at place `p`?
pub open spec fn home_start(g: GraphState, home: u32, p: int) -> bool {
    exists|i: int|
        0 <= i < g.in_bundle[home as int].len() && g.ranges[(
        #[trigger] g.in_bundle[home as int][i]) as int].range.from.ix() == p
}

/// Uses and definition of live range `q` lie in it, and its uses are in order.
pub open spec fn mentions_inside(h: GraphState, q: u32) -> bool {
    let range = h.ranges[q as int].range;
    let uses = h.in_range[q as int];
    &&& forall|j: int| 0 <= j < uses.len() ==> range.has(h.uses[(#[trigger] uses[j]) as int].pos)
    &&& forall|i: int, j: int|
        #![trigger uses[i], uses[j]]
        0 <= i < j < uses.len() ==> h.uses[uses[i] as int].pos.ix() <= h.uses[uses[j] as int].pos.ix()
    &&& h.ranges[q as int].def.is_valid() ==> range.has(h.defs[h.ranges[q as int].def.ix()].pos)
}

/// Live range `q` of the tables `h` holds mentions of bundle `home` of the tables `g`, and begins
/// where one of its live ranges does or at a point.
#[verifier::opaque]
pub open spec fn comes_from(g: GraphState, home: u32, points: Seq<u32>, h: GraphState, q: u32) -> bool {
    let lr = h.ranges[q as int];
    &&& lr.range.from.ix() < lr.range.to.ix()
    &&& mentions_inside(h, q)
    &&& forall|j: int|
        0 <= j < h.in_range[q as int].len() ==> home_use(g, home, #[trigger] h.in_range[q as int][j])
    &&& lr.def.is_valid() ==> home_def(g, home, lr.def.0)
    &&& home_start(g, home, lr.range.from.ix()) || exists|k: int|
        0 <= k < points.len() && #[trigger] points[k] == lr.range.from.ix()
    &&& g.ranges[g.in_bundle[home as int][0] as int].range.from.ix() <= lr.range.from.ix()
    &&& lr.range.to.ix() <= g.ranges[g.in_bundle[home as int].last() as int].range.to.ix()
}

/// No point is inside the range.
#[verifier::opaque]
pub open spec fn uncut(points: Seq<u32>, range: CodeRange) -> bool {
    forall|k: int|
        0 <= k < points.len() ==> !(range.from.ix() < #[trigger] points[k] < range.to.ix())
}

/// No point is between the two ranges.
#[verifier::opaque]
pub open spec fn unparted(points: Seq<u32>, a: CodeRange, b: CodeRange) -> bool {
    &&& a.to.ix() <= b.from.ix()
    &&& forall|k: int| 0 <= k < points.len() ==> !(a.to.ix() <= #[trigger] points[k] <= b.from.ix())
}

proof fn lemma_comes_same(
    g: GraphState,
    home: u32,
    points: Seq<u32>,
    h: GraphState,
    t: GraphState,
    q: u32,
)
    requires
        comes_from(g, home, points, h, q),
        t.ranges[q as int].range == h.ranges[q as int].range,
        t.ranges[q as int].def == h.ranges[q as int].def,
        t.in_range[q as int] == h.in_range[q as int],
        t.uses == h.uses,
        t.defs == h.defs,
    ensures
        comes_from(g, home, points, t, q),
{
    reveal(comes_from);
}

/// Is the bundle one of the parts?
pub open spec fn is_made(home: u32, made: Seq<u32>, b: int) -> bool {
    b == home || exists|i: int| 0 <= i < made.len() && #[trigger] made[i] == b
}

/// The live ranges of the parts are cut at the points, and live ranges that a point parts are in
/// different parts. In the bundle that is filled this holds of the first `n` live ranges.
pub open spec fn cut_up(g: GraphState, home: u32, points: Seq<u32>, s: Cut, n: int) -> bool {
    let h = s.g;
    &&& forall|b: int, i: int|
        0 <= b < h.in_bundle.len() && is_made(home, s.made, b) && 0 <= i < h.in_bundle[b].len() && (
        b == s.cur ==> i < n) ==> comes_from(g, home, points, h, #[trigger] h.in_bundle[b][i])
            && uncut(points, h.ranges[h.in_bundle[b][i] as int].range)
    &&& forall|b: int, i: int|
        0 <= b < h.in_bundle.len() && is_made(home, s.made, b) && 0 < i < h.in_bundle[b].len() && (b
            == s.cur ==> i < n) ==> #[trigger] neighbours(points, h, b, i)
}

/// No point parts live range `i` of bundle `b` from the one before it.
pub open spec fn neighbours(points: Seq<u32>, h: GraphState, b: int, i: int) -> bool {
    unparted(
        points,
        h.ranges[h.in_bundle[b][i - 1] as int].range,
        h.ranges[h.in_bundle[b][i] as int].range,
    )
}

/// The live ranges of the list from position `i` on are as they were.
pub open spec fn still_whole(g: GraphState, list: Seq<u32>, h: GraphState, i: int) -> bool {
    forall|j: int|
        i <= j < list.len() ==> {
            let r = #[trigger] list[j];
            &&& h.ranges[r as int].range == g.ranges[r as int].range
            &&& h.ranges[r as int].def == g.ranges[r as int].def
            &&& h.in_range[r as int] == g.in_range[r as int]
        }
}

/// The shape of the tables during a split: `n` live ranges of the bundle that is filled are done or
/// in work, and after them come those of the list from position `i` on.
pub open spec fn cut_shape(g: GraphState, home: u32, s: Cut, n: int, i: int) -> bool {
    let h = s.g;
    let list = g.in_bundle[home as int];
    &&& home < g.in_bundle.len()
    &&& g.in_bundle.len() <= h.in_bundle.len()
    &&& h.bundles.len() == h.in_bundle.len()
    &&& h.bundles.len() <= MAX_ENTRIES
    &&& h.ranges.len() <= MAX_ENTRIES
    &&& h.in_range.len() == h.ranges.len()
    &&& h.uses == g.uses
    &&& h.defs == g.defs
    &&& lists_ok(h.in_bundle, h.ranges.len() as int)
    &&& forall|j: int| 0 <= j < s.made.len() ==> g.in_bundle.len() <= (#[trigger] s.made[j]) < h.in_bundle.len()
    &&& is_made(home, s.made, s.cur as int)
    &&& s.cur < h.in_bundle.len()
    &&& 0 <= n <= h.in_bundle[s.cur as int].len()
    &&& 0 <= i <= list.len()
    &&& h.in_bundle[s.cur as int].skip(n) == list.skip(i)
    &&& still_whole(g, list, h, i)
    &&& s.k >= 0
}

/// The points before position `k` are no later than place `p`.
pub open spec fn points_upto(points: Seq<u32>, k: int, p: int) -> bool {
    forall|j: int| 0 <= j < k && j < points.len() ==> (#[trigger] points[j]) <= p
}

proof fn lemma_skip_points(points: Seq<u32>, k: int, p: int)
    requires
        0 <= k,
        points_upto(points, k, p),
    ensures
        k <= skip_points(points, k, p),
        points_upto(points, skip_points(points, k, p), p),
        skip_points(points, k, p) < points.len() ==> points[skip_points(points, k, p)] > p,
    decreases points.len() - k,
{
    if k < points.len() && points[k] <= p {
        lemma_skip_points(points, k + 1, p);
    }
}

proof fn lemma_tail_head(g: GraphState, home: u32, s: Cut, n: int, i: int)
    requires
        cut_shape(g, home, s, n, i),
        i < g.in_bundle[home as int].len(),
    ensures
        n < s.g.in_bundle[s.cur as int].len(),
        s.g.in_bundle[s.cur as int][n] == g.in_bundle[home as int][i],
        s.g.in_bundle[s.cur as int].skip(n + 1) == g.in_bundle[home as int].skip(i + 1),
{
    let list = g.in_bundle[home as int];
    let cl = s.g.in_bundle[s.cur as int];
    assert(cl.skip(n).len() == list.skip(i).len());
    assert(cl.skip(n)[0] == cl[n]);
    assert(list.skip(i)[0] == list[i]);
    assert(cl.skip(n + 1) =~= cl.skip(n).skip(1));
    assert(list.skip(i + 1) =~= list.skip(i).skip(1));
}

proof fn lemma_push_empty_ok(a: Seq<Seq<u32>>, nodes: int)
    requires
        lists_ok(a, nodes),
    ensures
        lists_ok(a.push(Seq::empty()), nodes),
{
    reveal(lists_ok);
    let b = a.push(Seq::empty());
    assert forall|l: int, i: int|
        0 <= l < b.len() && 0 <= i < b[l].len() implies (#[trigger] b[l][i]) < nodes by {
        assert(b[l] == a[l]);
        let _ = a[l][i];
    }
    assert forall|l: int, i: int, m: int, j: int|
        #![trigger b[l][i], b[m][j]]
        0 <= l < b.len() && 0 <= i < b[l].len() && 0 <= m < b.len() && 0 <= j < b[m].len()
            && b[l][i] == b[m][j] implies l == m && i == j by {
        let _ = (a[l][i], a[m][j]);
    }
}

/// The list of a bundle is parted, and the second half goes to a new one.
proof fn lemma_part_ok(a: Seq<Seq<u32>>, nodes: int, l: int, d: int)
    requires
        lists_ok(a, nodes),
        0 <= l < a.len(),
        0 <= d <= a[l].len(),
    ensures
        lists_ok(a.update(l, a[l].take(d)).push(a[l].skip(d)), nodes),
{
    let b = a.push(Seq::empty());
    lemma_push_empty_ok(a, nodes);
    lemma_split_ok(b, nodes, l, d, a.len() as int);
    assert(b.update(l, b[l].take(d)).update(a.len() as int, b[l].skip(d)) =~= a.update(
        l,
        a[l].take(d),
    ).push(a[l].skip(d)));
}

/// A new live range comes first in the new list.
proof fn lemma_part_new_ok(a: Seq<Seq<u32>>, nodes: u32, l: int, d: int)
    requires
        lists_ok(a, nodes as int),
        0 <= l < a.len(),
        0 <= d <= a[l].len(),
    ensures
        lists_ok(a.update(l, a[l].take(d)).push(seq![nodes] + a[l].skip(d)), nodes + 1),
{
    let b = a.update(l, a[l].take(d)).push(a[l].skip(d));
    lemma_part_ok(a, nodes as int, l, d);
    assert(lists_ok(b, nodes + 1) && is_free(b, nodes)) by {
        reveal(lists_ok);
    }
    lemma_insert_ok(b, nodes + 1, a.len() as int, 0, nodes);
    assert(b[a.len() as int].insert(0, nodes) =~= seq![nodes] + a[l].skip(d));
    assert(b.update(a.len() as int, b[a.len() as int].insert(0, nodes)) =~= a.update(
        l,
        a[l].take(d),
    ).push(seq![nodes] + a[l].skip(d)));
}

/// Live range `r` is in work, after `s.d` live ranges of the bundle that is filled.
pub open spec fn in_work(g: GraphState, home: u32, points: Seq<u32>, s: Cut, r: u32, i: int) -> bool {
    let h = s.g;
    let list = g.in_bundle[home as int];
    &&& cut_shape(g, home, s, s.d + 1, i)
    &&& s.d >= 0
    &&& r == h.in_bundle[s.cur as int][s.d]
    &&& cut_up(g, home, points, s, s.d)
    &&& comes_from(g, home, points, h, r)
    &&& s.d > 0 ==> neighbours(points, h, s.cur as int, s.d)
    &&& points_upto(points, s.k, h.ranges[r as int].range.from.ix())
    &&& forall|j: int|
        i <= j < list.len() ==> h.ranges[r as int].range.to.ix() <= g.ranges[(
        #[trigger] list[j]) as int].range.from.ix()
}

/// The last live range of the bundle that is filled is done.
pub open spec fn last_done(g: GraphState, home: u32, points: Seq<u32>, s: Cut, i: int) -> bool {
    let list = g.in_bundle[home as int];
    let last = s.g.ranges[s.g.in_bundle[s.cur as int][s.d - 1] as int].range;
    &&& s.d >= 1
    &&& cut_shape(g, home, s, s.d, i)
    &&& cut_up(g, home, points, s, s.d)
    &&& forall|j: int| 0 <= j < s.k && j < points.len() ==> (#[trigger] points[j]) < last.to.ix()
    &&& forall|j: int| s.k <= j < points.len() ==> (#[trigger] points[j]) >= last.to.ix()
    &&& forall|j: int|
        i <= j < list.len() ==> last.to.ix() <= g.ranges[(#[trigger] list[j]) as int].range.from.ix()
}

/// The two parts of a live range hold the mentions of it.
proof fn lemma_halves(g: GraphState, home: u32, points: Seq<u32>, s: Cut, r: u32, k: int)
    requires
        comes_from(g, home, points, s.g, r),
        r < s.g.ranges.len(),
        s.g.in_range.len() == s.g.ranges.len(),
        s.g.ranges.len() < MAX_ENTRIES,
        0 <= k < points.len(),
        s.g.ranges[r as int].range.from.ix() < points[k] < s.g.ranges[r as int].range.to.ix(),
    ensures
        ({
            let t = graph_cut_range(s.g, home, s.cur, s.d, r, points[k] as int);
            &&& comes_from(g, home, points, t, r)
            &&& comes_from(g, home, points, t, s.g.ranges.len() as u32)
        }),
{
    reveal(comes_from);
    let h = s.g;
    let p = points[k] as int;
    let t = graph_cut_range(h, home, s.cur, s.d, r, p);
    let rest = h.ranges.len() as u32;
    let uses = h.in_range[r as int];
    let j = first_use_from(h.uses, uses, p, 0);
    lemma_first_use_from(h.uses, uses, p, 0);
    lemma_uses_before(h.uses, uses, p, 0);
    assert(t.in_range[r as int] == uses.take(j));
    assert(t.in_range[rest as int] == uses.skip(j));
    assert(t.ranges[r as int] == cut_first(h, r, p, j));
    assert(t.ranges[rest as int] == cut_rest(h, r, p, j, h.bundles.len() as u32));
    assert forall|i: int| 0 <= i < uses.skip(j).len() implies t.ranges[rest as int].range.has(
        h.uses[(#[trigger] uses.skip(j)[i]) as int].pos,
    ) && home_use(g, home, uses.skip(j)[i]) by {
        assert(uses.skip(j)[i] == uses[j + i]);
        if i > 0 {
            let _ = (uses[j], uses[j + i]);
        }
    }
    assert forall|i: int| 0 <= i < uses.take(j).len() implies t.ranges[r as int].range.has(
        h.uses[(#[trigger] uses.take(j)[i]) as int].pos,
    ) && home_use(g, home, uses.take(j)[i]) by {
        assert(uses.take(j)[i] == uses[i]);
    }
    assert forall|a: int, b: int|
        #![trigger uses.skip(j)[a], uses.skip(j)[b]]
        0 <= a < b < uses.skip(j).len() implies h.uses[uses.skip(j)[a] as int].pos.ix()
        <= h.uses[uses.skip(j)[b] as int].pos.ix() by {
        let _ = (uses[j + a], uses[j + b]);
    }
    assert forall|a: int, b: int|
        #![trigger uses.take(j)[a], uses.take(j)[b]]
        0 <= a < b < uses.take(j).len() implies h.uses[uses.take(j)[a] as int].pos.ix()
        <= h.uses[uses.take(j)[b] as int].pos.ix() by {
        let _ = (uses[a], uses[b]);
    }
    assert(points[k] == t.ranges[rest as int].range.from.ix());
}

proof fn lemma_uses_before(uses: Seq<Use>, list: Seq<u32>, p: int, i: int)
    requires
        0 <= i <= list.len(),
    ensures
        forall|k: int|
            i <= k < first_use_from(uses, list, p, i) ==> uses[(#[trigger] list[k]) as int].pos.ix()
                < p,
        first_use_from(uses, list, p, i) < list.len() ==> uses[list[first_use_from(
            uses,
            list,
            p,
            i,
        )] as int].pos.ix() >= p,
    decreases list.len() - i,
{
    if i < list.len() && uses[list[i] as int].pos.ix() < p {
        lemma_uses_before(uses, list, p, i + 1);
    }
}

/// A live range is cut at the next point.
proof fn lemma_work_cut(g: GraphState, home: u32, points: Seq<u32>, s: Cut, r: u32, i: int)
    requires
        in_work(g, home, points, s, r, i),
        keys_sorted(points),
        0 <= s.k < points.len(),
        s.g.ranges[r as int].range.from.ix() < points[s.k] < s.g.ranges[r as int].range.to.ix(),
        s.g.ranges.len() < MAX_ENTRIES,
        s.g.bundles.len() < MAX_ENTRIES,
    ensures
        in_work(
            g,
            home,
            points,
            Cut {
                g: graph_cut_range(s.g, home, s.cur, s.d, r, points[s.k] as int),
                cur: s.g.bundles.len() as u32,
                d: 0,
                made: s.made.push(s.g.bundles.len() as u32),
                k: s.k + 1,
            },
            s.g.ranges.len() as u32,
            i,
        ),
{
    let h = s.g;
    let p = points[s.k] as int;
    let nb = h.bundles.len() as u32;
    let rest = h.ranges.len() as u32;
    let cl = h.in_bundle[s.cur as int];
    let list = g.in_bundle[home as int];
    let t = graph_cut_range(h, home, s.cur, s.d, r, p);
    let made = s.made.push(nb);
    let n = h.ranges.len() as int;
    let c = Cut { g: t, cur: nb, d: 0, made, k: s.k + 1 };
    lemma_below(h.in_bundle, n, s.cur as int, s.d);
    lemma_part_new_ok(h.in_bundle, rest, s.cur as int, s.d + 1);
    lemma_halves(g, home, points, s, r, s.k);
    assert(t.in_bundle[nb as int].skip(1) =~= cl.skip(s.d + 1));
    assert(t.in_bundle[nb as int][0] == rest);
    assert forall|j: int| 0 <= j < made.len() implies g.in_bundle.len() <= (#[trigger] made[j])
        < t.in_bundle.len() by {
        if j < s.made.len() {
            assert(made[j] == s.made[j]);
        }
    }
    assert(made[s.made.len() as int] == nb);
    assert forall|j: int| i <= j < list.len() implies {
        let q = #[trigger] list[j];
        &&& t.ranges[q as int].range == g.ranges[q as int].range
        &&& t.ranges[q as int].def == g.ranges[q as int].def
        &&& t.in_range[q as int] == g.in_range[q as int]
    } by {
        assert(cl.skip(s.d + 1)[j - i] == list.skip(i)[j - i]);
        assert(cl[s.d + 1 + j - i] == list[j]);
        lemma_neq(h.in_bundle, n, s.cur as int, s.d, s.cur as int, s.d + 1 + j - i);
        lemma_below(h.in_bundle, n, s.cur as int, s.d + 1 + j - i);
    }
    assert forall|b: int| is_made(home, made, b) && b != nb implies is_made(home, s.made, b) by {
        if b != home {
            let j = choose|j: int| 0 <= j < made.len() && #[trigger] made[j] == b;
            assert(s.made[j] == b);
        }
    }
    // The live ranges that were done are as they were.
    assert forall|b: int, j: int|
        0 <= b < h.in_bundle.len() && 0 <= j < t.in_bundle[b].len() && !(b == s.cur && j == s.d) implies {
        let q = #[trigger] t.in_bundle[b][j];
        &&& q == h.in_bundle[b][j]
        &&& t.ranges[q as int] == h.ranges[q as int]
        &&& t.in_range[q as int] == h.in_range[q as int]
    } by {
        lemma_neq(h.in_bundle, n, b, j, s.cur as int, s.d);
        lemma_below(h.in_bundle, n, b, j);
    }
    assert(uncut(points, t.ranges[r as int].range)) by {
        reveal(uncut);
        assert forall|k: int| 0 <= k < points.len() implies !(t.ranges[r as int].range.from.ix()
            < #[trigger] points[k] < t.ranges[r as int].range.to.ix()) by {
            if k > s.k {
                assert(points[s.k].key() <= points[k].key());
            }
        }
    }
    assert forall|b: int, j: int|
        0 <= b < t.in_bundle.len() && is_made(home, made, b) && 0 <= j < t.in_bundle[b].len() && (b
            == nb ==> j < 0) implies comes_from(g, home, points, t, #[trigger] t.in_bundle[b][j])
        && uncut(points, t.ranges[t.in_bundle[b][j] as int].range) by {
        if !(b == s.cur && j == s.d) {
            let q = h.in_bundle[b][j];
            assert(t.in_bundle[b][j] == q);
            lemma_comes_same(g, home, points, h, t, q);
        }
    }
    assert forall|b: int, j: int|
        0 <= b < t.in_bundle.len() && is_made(home, made, b) && 0 < j < t.in_bundle[b].len() && (b
            == nb ==> j < 0) implies #[trigger] neighbours(points, t, b, j) by {
        assert(neighbours(points, h, b, j));
        assert(t.in_bundle[b][j - 1] == h.in_bundle[b][j - 1]);
        assert(t.in_bundle[b][j] == h.in_bundle[b][j]);
        if b == s.cur && j == s.d {
            reveal(unparted);
        }
    }
    assert(points_upto(points, s.k + 1, p)) by {
        reveal(comes_from);
    }
    assert(cut_shape(g, home, c, 1, i));
}

proof fn lemma_work(g: GraphState, home: u32, points: Seq<u32>, s: Cut, r: u32, i: int)
    requires
        in_work(g, home, points, s, r, i),
        keys_sorted(points),
    ensures
        split_rest(s, home, r, points) matches Ok(t) ==> last_done(g, home, points, t, i),
    decreases points.len() - s.k,
{
    let lr = s.g.ranges[r as int];
    if s.k >= points.len() || points[s.k] >= lr.range.to.ix() {
        let t = Cut { d: s.d + 1, ..s };
        assert(uncut(points, lr.range)) by {
            reveal(uncut);
            assert forall|k: int| 0 <= k < points.len() implies !(lr.range.from.ix()
                < #[trigger] points[k] < lr.range.to.ix()) by {
                if k > s.k {
                    assert(points[s.k].key() <= points[k].key());
                }
            }
        }
        assert forall|j: int| s.k <= j < points.len() implies (#[trigger] points[j])
            >= lr.range.to.ix() by {
            if j > s.k {
                assert(points[s.k].key() <= points[j].key());
            }
        }
        assert(lr.range.from.ix() < lr.range.to.ix()) by {
            reveal(comes_from);
        }
        assert(cut_up(g, home, points, t, t.d));
    } else if points[s.k] <= lr.range.from.ix() {
        let t = Cut { k: s.k + 1, ..s };
        assert(cut_up(g, home, points, t, t.d));
        assert(in_work(g, home, points, t, r, i));
        lemma_work(g, home, points, t, r, i);
    } else if s.g.ranges.len() < MAX_ENTRIES && s.g.bundles.len() < MAX_ENTRIES {
        lemma_work_cut(g, home, points, s, r, i);
        let nb = s.g.bundles.len() as u32;
        let t = Cut {
            g: graph_cut_range(s.g, home, s.cur, s.d, r, points[s.k] as int),
            cur: nb,
            d: 0,
            made: s.made.push(nb),
            k: s.k + 1,
        };
        lemma_work(g, home, points, t, s.g.ranges.len() as u32, i);
    }
}

/// The live ranges of bundle `home` are in order and hold their mentions.
pub open spec fn home_ok(g: GraphState, home: u32, points: Seq<u32>) -> bool {
    let list = g.in_bundle[home as int];
    &&& in_order(g.ranges, list)
    &&& forall|i: int| 0 <= i < list.len() ==> comes_from(g, home, points, g, #[trigger] list[i])
}

/// The next live range is noted as one of the bundle that is filled.
proof fn lemma_next_tag(g: GraphState, home: u32, points: Seq<u32>, s: Cut, i: int)
    requires
        home_ok(g, home, points),
        cut_shape(g, home, s, s.d, i),
        i < g.in_bundle[home as int].len(),
        cut_up(g, home, points, s, s.d),
        points_upto(
            points,
            s.k,
            g.ranges[g.in_bundle[home as int][i] as int].range.from.ix(),
        ),
        s.d > 0 ==> unparted(
            points,
            s.g.ranges[s.g.in_bundle[s.cur as int][s.d - 1] as int].range,
            g.ranges[g.in_bundle[home as int][i] as int].range,
        ),
    ensures
        in_work(
            g,
            home,
            points,
            cut_tag(s, g.in_bundle[home as int][i]),
            g.in_bundle[home as int][i],
            i + 1,
        ),
{
    let h = s.g;
    let list = g.in_bundle[home as int];
    let r = list[i];
    let c = cut_tag(s, r);
    let t = c.g;
    let n = h.ranges.len() as int;
    lemma_tail_head(g, home, s, s.d, i);
    lemma_below(h.in_bundle, n, s.cur as int, s.d);
    assert forall|q: int| 0 <= q < n implies {
        &&& (#[trigger] t.ranges[q]).range == h.ranges[q].range
        &&& t.ranges[q].def == h.ranges[q].def
    } by {}
    lemma_comes_same(g, home, points, g, t, r);
    assert forall|b: int, j: int|
        0 <= b < t.in_bundle.len() && is_made(home, c.made, b) && 0 <= j < t.in_bundle[b].len() && (
        b == c.cur ==> j < s.d) implies comes_from(g, home, points, t, #[trigger] t.in_bundle[b][j])
        && uncut(points, t.ranges[t.in_bundle[b][j] as int].range) by {
        lemma_below(h.in_bundle, n, b, j);
        assert(comes_from(g, home, points, h, h.in_bundle[b][j]));
        lemma_comes_same(g, home, points, h, t, h.in_bundle[b][j]);
    }
    assert forall|b: int, j: int|
        0 <= b < t.in_bundle.len() && is_made(home, c.made, b) && 0 < j < t.in_bundle[b].len() && (b
            == c.cur ==> j < s.d) implies #[trigger] neighbours(points, t, b, j) by {
        lemma_below(h.in_bundle, n, b, j);
        lemma_below(h.in_bundle, n, b, j - 1);
        assert(neighbours(points, h, b, j));
    }
    if s.d > 0 {
        lemma_below(h.in_bundle, n, s.cur as int, s.d - 1);
    }
    assert forall|j: int| i + 1 <= j < list.len() implies {
        let q = #[trigger] list[j];
        &&& t.ranges[q as int].range == g.ranges[q as int].range
        &&& t.ranges[q as int].def == g.ranges[q as int].def
        &&& t.in_range[q as int] == g.in_range[q as int]
    } by {
        let cl = h.in_bundle[s.cur as int];
        assert(cl.skip(s.d + 1).len() == list.skip(i + 1).len());
        assert(cl.skip(s.d + 1)[j - i - 1] == list.skip(i + 1)[j - i - 1]);
        assert(cl[s.d + j - i] == list[j]);
        lemma_below(h.in_bundle, n, s.cur as int, s.d + j - i);
    }
    assert forall|j: int| i + 1 <= j < list.len() implies t.ranges[r as int].range.to.ix()
        <= g.ranges[(#[trigger] list[j]) as int].range.from.ix() by {
        let _ = (list[i], list[j]);
    }
    assert(cut_shape(g, home, c, c.d + 1, i + 1));
}

/// A new bundle takes the live ranges that are still to come.
proof fn lemma_next_bundle(g: GraphState, home: u32, points: Seq<u32>, s: Cut, i: int, k: int)
    requires
        home_ok(g, home, points),
        last_done(g, home, points, s, i),
        i < g.in_bundle[home as int].len(),
        s.g.bundles.len() < MAX_ENTRIES,
        k >= 0,
    ensures
        ({
            let c = Cut {
                g: graph_cut_list(s.g, home, s.cur, s.d),
                cur: s.g.bundles.len() as u32,
                d: 0,
                made: s.made.push(s.g.bundles.len() as u32),
                k,
            };
            cut_shape(g, home, c, 0, i) && cut_up(g, home, points, c, 0)
        }),
{
    let h = s.g;
    let nb = h.bundles.len() as u32;
    let t = graph_cut_list(h, home, s.cur, s.d);
    let made = s.made.push(nb);
    let cl = h.in_bundle[s.cur as int];
    lemma_part_ok(h.in_bundle, h.ranges.len() as int, s.cur as int, s.d);
    assert(t.in_bundle[nb as int].skip(0) =~= cl.skip(s.d));
    assert forall|j: int| 0 <= j < made.len() implies g.in_bundle.len() <= (#[trigger] made[j])
        < t.in_bundle.len() by {
        if j < s.made.len() {
            assert(made[j] == s.made[j]);
        }
    }
    assert(made[s.made.len() as int] == nb);
    assert forall|b: int| is_made(home, made, b) && b != nb implies is_made(home, s.made, b) by {
        if b != home {
            let j = choose|j: int| 0 <= j < made.len() && #[trigger] made[j] == b;
            assert(s.made[j] == b);
        }
    }
    assert forall|b: int, j: int|
        0 <= b < t.in_bundle.len() && is_made(home, made, b) && 0 <= j < t.in_bundle[b].len() && (b
            == nb ==> j < 0) implies comes_from(g, home, points, t, #[trigger] t.in_bundle[b][j])
        && uncut(points, t.ranges[t.in_bundle[b][j] as int].range) by {
        assert(t.in_bundle[b][j] == h.in_bundle[b][j]);
        lemma_comes_same(g, home, points, h, t, h.in_bundle[b][j]);
    }
    assert forall|b: int, j: int|
        0 <= b < t.in_bundle.len() && is_made(home, made, b) && 0 < j < t.in_bundle[b].len() && (b
            == nb ==> j < 0) implies #[trigger] neighbours(points, t, b, j) by {
        assert(neighbours(points, h, b, j));
        assert(t.in_bundle[b][j] == h.in_bundle[b][j]);
        assert(t.in_bundle[b][j - 1] == h.in_bundle[b][j - 1]);
    }
}

/// The next live range is done.
proof fn lemma_next(g: GraphState, home: u32, points: Seq<u32>, s: Cut, i: int)
    requires
        home_ok(g, home, points),
        keys_sorted(points),
        i < g.in_bundle[home as int].len(),
        last_done(g, home, points, s, i) || {
            &&& s.d == 0
            &&& cut_shape(g, home, s, 0, i)
            &&& cut_up(g, home, points, s, 0)
            &&& points_upto(
                points,
                s.k,
                g.ranges[g.in_bundle[home as int][i] as int].range.from.ix(),
            )
            &&& s.k < points.len() ==> points[s.k]
                > g.ranges[g.in_bundle[home as int][i] as int].range.from.ix()
        },
    ensures
        split_one(s, home, g.in_bundle[home as int][i], points) matches Ok(t) ==> last_done(
            g,
            home,
            points,
            t,
            i + 1,
        ),
{
    let r = g.in_bundle[home as int][i];
    let from = g.ranges[r as int].range.from.ix();
    assert(s.g.ranges[r as int].range == g.ranges[r as int].range);
    if s.k < points.len() && points[s.k] <= from {
        if s.g.bundles.len() < MAX_ENTRIES {
            let nb = s.g.bundles.len() as u32;
            let k = skip_points(points, s.k + 1, from);
            let t = Cut {
                g: graph_cut_list(s.g, home, s.cur, s.d),
                cur: nb,
                d: 0,
                made: s.made.push(nb),
                k,
            };
            assert(points_upto(points, s.k + 1, from));
            lemma_skip_points(points, s.k + 1, from);
            lemma_next_bundle(g, home, points, s, i, k);
            lemma_next_tag(g, home, points, t, i);
            lemma_work(g, home, points, cut_tag(t, r), r, i + 1);
        }
    } else {
        if s.d > 0 {
            let last = s.g.ranges[s.g.in_bundle[s.cur as int][s.d - 1] as int].range;
            assert(unparted(points, last, g.ranges[r as int].range)) by {
                reveal(unparted);
                assert forall|k: int| 0 <= k < points.len() implies !(last.to.ix()
                    <= #[trigger] points[k] <= from) by {
                    if k > s.k {
                        assert(points[s.k].key() <= points[k].key());
                    }
                }
            }
        }
        lemma_next_tag(g, home, points, s, i);
        lemma_work(g, home, points, cut_tag(s, r), r, i + 1);
    }
}

proof fn lemma_rest(g: GraphState, home: u32, points: Seq<u32>, s: Cut, i: int)
    requires
        home_ok(g, home, points),
        keys_sorted(points),
        last_done(g, home, points, s, i),
    ensures
        split_list(s, home, g.in_bundle[home as int], i, points) matches Ok(t) ==> last_done(
            g,
            home,
            points,
            t,
            g.in_bundle[home as int].len() as int,
        ),
    decreases g.in_bundle[home as int].len() - i,
{
    let list = g.in_bundle[home as int];
    if i < list.len() {
        lemma_next(g, home, points, s, i);
        if let Ok(t) = split_one(s, home, list[i], points) {
            lemma_rest(g, home, points, t, i + 1);
        }
    }
}

/// A split leaves no point in a live range of a part, nor between two live ranges of it.
proof fn lemma_split_cut_up(g: GraphState, home: u32, points: Seq<u32>)
    requires
        home < g.in_bundle.len(),
        g.in_bundle.len() == g.bundles.len(),
        g.bundles.len() <= MAX_ENTRIES,
        g.ranges.len() <= MAX_ENTRIES,
        g.in_range.len() == g.ranges.len(),
        lists_ok(g.in_bundle, g.ranges.len() as int),
        g.in_bundle[home as int].len() > 0,
        home_ok(g, home, points),
        keys_sorted(points),
    ensures
        graph_split(g, home, points) matches Ok(t) ==> cut_up(
            g,
            home,
            points,
            t,
            t.g.in_bundle[t.cur as int].len() as int,
        ) && t.g.uses == g.uses && t.g.defs == g.defs,
{
    let list = g.in_bundle[home as int];
    let start = g.ranges[list[0] as int].range.from.ix();
    let s = Cut { g, cur: home, d: 0, made: Seq::empty(), k: skip_points(points, 0, start) };
    lemma_skip_points(points, 0, start);
    assert(list.skip(0) =~= list);
    lemma_next(g, home, points, s, 0);
    if let Ok(t) = split_one(s, home, list[0], points) {
        lemma_rest(g, home, points, t, 1);
        if let Ok(u) = split_list(t, home, list, 1, points) {
            assert(u.g.in_bundle[u.cur as int].skip(u.d).len() == list.skip(list.len() as int).len());
        }
    }
}

/// The points around an instruction are among the points, those at the ends of the bundle aside.
pub open spec fn around(points: Seq<u32>, inst: Inst, start: int, end: int) -> bool {
    &&& 2 * inst.0 > start ==> points.contains((2 * inst.0) as u32)
    &&& 2 * inst.0 + 2 < end ==> points.contains((2 * inst.0 + 2) as u32)
}

/// Nothing of the first points is lost.
pub open spec fn points_stay(a: Seq<u32>, b: Seq<u32>) -> bool {
    forall|x: u32| a.contains(x) ==> #[trigger] b.contains(x)
}

proof fn lemma_push_stay(a: Seq<u32>, x: u32)
    ensures
        points_stay(a, a.push(x)),
        a.push(x).contains(x),
{
    assert(a.push(x)[a.len() as int] == x);
    assert forall|y: u32| a.contains(y) implies #[trigger] a.push(x).contains(y) by {
        let i = choose|i: int| 0 <= i < a.len() && a[i] == y;
        assert(a.push(x)[i] == y);
    }
}

/// The points around uses are found.
proof fn lemma_use_points_has(
    uses: Seq<Use>,
    list: Seq<u32>,
    start: ProgPoint,
    j: int,
    out: Seq<u32>,
)
    requires
        0 <= j <= list.len(),
        forall|i: int| 0 <= i < list.len() ==> 2 * uses[(#[trigger] list[i]) as int].pos.inst.0 + 2 <= u32::MAX,
    ensures
        points_stay(out, use_points(uses, list, start, j, out)),
        forall|i: int|
            j <= i < list.len() ==> around(
                use_points(uses, list, start, j, out),
                uses[(#[trigger] list[i]) as int].pos.inst,
                start.ix(),
                u32::MAX as int,
            ),
    decreases list.len() - j,
{
    if j < list.len() {
        let before = ProgPoint::before(uses[list[j] as int].pos.inst);
        let first = if before.ix() > start.ix() {
            out.push(before.ix() as u32)
        } else {
            out
        };
        let next = first.push((before.ix() + 2) as u32);
        lemma_push_stay(out, before.ix() as u32);
        lemma_push_stay(first, (before.ix() + 2) as u32);
        lemma_use_points_has(uses, list, start, j + 1, next);
    }
}

/// The points around the mentions of live range `r` are among the points.
pub open spec fn around_range(g: GraphState, points: Seq<u32>, b: Bounds, r: u32) -> bool {
    let lr = g.ranges[r as int];
    let uses = g.in_range[r as int];
    &&& lr.def.is_valid() ==> around(
        points,
        g.defs[lr.def.ix()].pos.inst,
        b.start.ix(),
        b.end.ix(),
    )
    &&& forall|j: int|
        0 <= j < uses.len() ==> around(
            points,
            g.uses[(#[trigger] uses[j]) as int].pos.inst,
            b.start.ix(),
            b.end.ix(),
        )
}

proof fn lemma_around_stay(g: GraphState, a: Seq<u32>, c: Seq<u32>, b: Bounds, r: u32)
    requires
        around_range(g, a, b, r),
        points_stay(a, c),
    ensures
        around_range(g, c, b, r),
{
    let uses = g.in_range[r as int];
    assert forall|j: int| 0 <= j < uses.len() implies around(
        c,
        g.uses[(#[trigger] uses[j]) as int].pos.inst,
        b.start.ix(),
        b.end.ix(),
    ) by {
        assert(around(a, g.uses[uses[j] as int].pos.inst, b.start.ix(), b.end.ix()));
    }
}

/// The points around all mentions are found.
proof fn lemma_all_points_has(
    f: FuncModel,
    g: GraphState,
    list: Seq<u32>,
    b: Bounds,
    i: int,
    out: Seq<u32>,
)
    requires
        graph_ok(f, g),
        0 <= i <= list.len(),
        b.end.ix() <= u32::MAX,
        forall|k: int| 0 <= k < list.len() ==> (#[trigger] list[k]) < g.ranges.len(),
    ensures
        points_stay(out, all_points(g, list, b, i, out)),
        forall|k: int|
            i <= k < list.len() ==> around_range(g, all_points(g, list, b, i, out), b, #[trigger] list[k]),
    decreases list.len() - i,
{
    if i < list.len() {
        let r = list[i];
        let lr = g.ranges[r as int];
        let inst = g.defs[lr.def.ix()].pos.inst;
        let before = ProgPoint::before(inst);
        let end = ProgPoint::before(Inst((inst.0 + 1) as u32));
        assert(range_ok(f, g, r as int));
        if lr.def.is_valid() {
            assert(mention_ok(f, g.defs[lr.def.ix()].pos, g.defs[lr.def.ix()].slot));
        }
        let o1 = if lr.def.is_valid() && before.ix() > b.start.ix() {
            out.push(before.ix() as u32)
        } else {
            out
        };
        let o2 = if lr.def.is_valid() && end.ix() < b.end.ix() {
            o1.push(end.ix() as u32)
        } else {
            o1
        };
        lemma_push_stay(out, before.ix() as u32);
        lemma_push_stay(o1, end.ix() as u32);
        let uses = g.in_range[r as int];
        assert forall|j: int| 0 <= j < uses.len() implies 2 * g.uses[(
        #[trigger] uses[j]) as int].pos.inst.0 + 2 <= u32::MAX by {
            lemma_below(g.in_range, g.uses.len() as int, r as int, j);
            assert(mention_ok(f, g.uses[uses[j] as int].pos, g.uses[uses[j] as int].slot));
        }
        let o3 = use_points(g.uses, uses, b.start, 0, o2);
        lemma_use_points_has(g.uses, uses, b.start, 0, o2);
        assert(around_range(g, o3, b, r)) by {
            assert forall|j: int| 0 <= j < uses.len() implies around(
                o3,
                g.uses[(#[trigger] uses[j]) as int].pos.inst,
                b.start.ix(),
                b.end.ix(),
            ) by {
                assert(around(o3, g.uses[uses[j] as int].pos.inst, b.start.ix(), u32::MAX as int));
            }
        }
        lemma_all_points_has(f, g, list, b, i + 1, o3);
        let all = all_points(g, list, b, i, out);
        assert(all == all_points(g, list, b, i + 1, o3));
        assert forall|k: int| i <= k < list.len() implies around_range(g, all, b, #[trigger] list[k]) by {
            if k == i {
                lemma_around_stay(g, o3, all, b, r);
            }
        }
    }
}

/// The starts in the middle of an instruction are found.
proof fn lemma_inner_starts_has(
    ranges: Seq<LiveRange>,
    list: Seq<u32>,
    i: int,
    out: Seq<u32>,
)
    requires
        0 <= i <= list.len(),
    ensures
        points_stay(out, inner_starts(ranges, list, i, out)),
        forall|k: int|
            i <= k < list.len() && ranges[(#[trigger] list[k]) as int].range.from.pos is After
                ==> inner_starts(ranges, list, i, out).contains(
                ranges[list[k] as int].range.from.ix() as u32,
            ),
    decreases list.len() - i,
{
    if i < list.len() {
        let from = ranges[list[i] as int].range.from;
        let next = if from.pos is After {
            out.push(from.ix() as u32)
        } else {
            out
        };
        lemma_push_stay(out, from.ix() as u32);
        lemma_inner_starts_has(ranges, list, i + 1, next);
    }
}

proof fn lemma_sort_stay(a: Seq<u32>)
    ensures
        points_stay(a, stable_sort(a)),
{
    assert forall|x: u32| a.contains(x) implies #[trigger] stable_sort(a).contains(x) by {
        let i = choose|i: int| 0 <= i < a.len() && a[i] == x;
        lemma_sorted_has(a, i);
    }
}

/// What the points hold at which a bundle comes apart.
proof fn lemma_apart_has(f: FuncModel, g: GraphState, b: u32)
    requires
        graph_ok(f, g),
        b < g.in_bundle.len(),
        g.in_bundle[b as int].len() > 0,
    ensures
        keys_sorted(apart_points(g, b)),
        forall|k: int|
            0 <= k < g.in_bundle[b as int].len() ==> {
                let r = #[trigger] g.in_bundle[b as int][k];
                &&& around_range(g, apart_points(g, b), split_bounds(g, b, NIL), r)
                &&& g.ranges[r as int].range.from.pos is After ==> apart_points(g, b).contains(
                    g.ranges[r as int].range.from.ix() as u32,
                )
            },
{
    let list = g.in_bundle[b as int];
    let bounds = split_bounds(g, b, NIL);
    let p0 = all_points(g, list, bounds, 0, Seq::empty());
    let p1 = all_use_points(g, b);
    let p2 = inner_starts(g.ranges, list, 0, p1);
    let p3 = apart_points(g, b);
    assert forall|k: int| 0 <= k < list.len() implies (#[trigger] list[k]) < g.ranges.len() by {
        lemma_below(g.in_bundle, g.ranges.len() as int, b as int, k);
    }
    assert(list.last() == list[list.len() - 1]);
    assert(range_ok(f, g, list[list.len() - 1] as int));
    lemma_all_points_has(f, g, list, bounds, 0, Seq::empty());
    lemma_sort_stay(p0);
    lemma_inner_starts_has(g.ranges, list, 0, p1);
    lemma_sort_stay(p2);
    law_stable_sort(p2);
    assert forall|k: int| 0 <= k < list.len() implies {
        let r = #[trigger] list[k];
        &&& around_range(g, p3, bounds, r)
        &&& g.ranges[r as int].range.from.pos is After ==> p3.contains(
            g.ranges[r as int].range.from.ix() as u32,
        )
    } by {
        let r = list[k];
        assert(points_stay(p0, p3)) by {
            assert forall|x: u32| p0.contains(x) implies #[trigger] p3.contains(x) by {
                assert(p1.contains(x));
                assert(p2.contains(x));
            }
        }
        lemma_around_stay(g, p0, p3, bounds, r);
        if g.ranges[r as int].range.from.pos is After {
            assert(p2.contains(g.ranges[r as int].range.from.ix() as u32));
        }
    }
}

/// Does live range `q` hold a use or a definition?
pub open spec fn holds_mention(h: GraphState, q: u32) -> bool {
    h.ranges[q as int].def.is_valid() || h.in_range[q as int].len() > 0
}

/// The live ranges of a bundle hold its mentions.
proof fn lemma_home_ok(f: FuncModel, g: GraphState, b: u32, points: Seq<u32>)
    requires
        graph_ok(f, g),
        b < g.in_bundle.len(),
        in_order(g.ranges, g.in_bundle[b as int]),
        uses_placed(g),
        defs_placed(g),
    ensures
        home_ok(g, b, points),
{
    reveal(comes_from);
    let list = g.in_bundle[b as int];
    assert forall|i: int| 0 <= i < list.len() implies comes_from(g, b, points, g, #[trigger] list[i]) by {
        let r = list[i];
        lemma_below(g.in_bundle, g.ranges.len() as int, b as int, i);
        lemma_below(g.in_bundle, g.ranges.len() as int, b as int, 0);
        lemma_below(g.in_bundle, g.ranges.len() as int, b as int, list.len() - 1);
        assert(range_ok(f, g, r as int));
        assert(range_ok(f, g, list[0] as int));
        assert(range_ok(f, g, list[list.len() - 1] as int));
        let _ = (list[0], list[list.len() - 1]);
        assert(g.in_bundle[b as int][i] == r);
        assert(home_start(g, b, g.ranges[r as int].range.from.ix()));
        let uses = g.in_range[r as int];
        assert forall|j: int| 0 <= j < uses.len() implies home_use(g, b, #[trigger] uses[j]) by {
            assert(g.in_range[g.in_bundle[b as int][i] as int].contains(uses[j]));
        }
        assert forall|j: int| 0 <= j < uses.len() implies g.ranges[r as int].range.has(
            g.uses[(#[trigger] uses[j]) as int].pos,
        ) by {
            let _ = g.in_range[r as int][j];
        }
        assert forall|j: int, k: int|
            #![trigger uses[j], uses[k]]
            0 <= j < k < uses.len() implies g.uses[uses[j] as int].pos.ix()
            <= g.uses[uses[k] as int].pos.ix() by {
            let _ = (g.in_range[r as int][j], g.in_range[r as int][k]);
        }
    }
}

/// The instruction of a mention of a live range of a part.
proof fn lemma_mention_of(f: FuncModel, g: GraphState, b: u32, h: GraphState, q: u32) -> (inst: Inst)
    requires
        graph_ok(f, g),
        b < g.in_bundle.len(),
        g.in_bundle[b as int].len() > 0,
        comes_from(g, b, apart_points(g, b), h, q),
        h.uses == g.uses,
        h.defs == g.defs,
        holds_mention(h, q),
    ensures
        h.ranges[q as int].range.from.ix() < 2 * inst.0 + 2,
        2 * inst.0 < h.ranges[q as int].range.to.ix(),
        2 * inst.0 + 2 <= u32::MAX,
        around(
            apart_points(g, b),
            inst,
            g.ranges[g.in_bundle[b as int][0] as int].range.from.ix(),
            g.ranges[g.in_bundle[b as int].last() as int].range.to.ix(),
        ),
{
    reveal(comes_from);
    lemma_apart_has(f, g, b);
    let list = g.in_bundle[b as int];
    let lr = h.ranges[q as int];
    if lr.def.is_valid() {
        let i = choose|i: int|
            0 <= i < list.len() && g.ranges[(#[trigger] g.in_bundle[b as int][i]) as int].def.0
                == lr.def.0;
        let r = list[i];
        lemma_below(g.in_bundle, g.ranges.len() as int, b as int, i);
        assert(range_ok(f, g, r as int));
        assert(mention_ok(f, g.defs[lr.def.ix()].pos, g.defs[lr.def.ix()].slot));
        assert(around_range(g, apart_points(g, b), split_bounds(g, b, NIL), r));
        g.defs[lr.def.ix()].pos.inst
    } else {
        let u = h.in_range[q as int][0];
        let i = choose|i: int|
            0 <= i < list.len() && g.in_range[(
            #[trigger] g.in_bundle[b as int][i]) as int].contains(u);
        let r = list[i];
        let j = choose|j: int| 0 <= j < g.in_range[r as int].len() && g.in_range[r as int][j] == u;
        lemma_below(g.in_bundle, g.ranges.len() as int, b as int, i);
        lemma_below(g.in_range, g.uses.len() as int, r as int, j);
        assert(mention_ok(f, g.uses[u as int].pos, g.uses[u as int].slot));
        assert(around_range(g, apart_points(g, b), split_bounds(g, b, NIL), r));
        g.uses[u as int].pos.inst
    }
}

/// A live range of a part that begins in the middle of an instruction begins at a point.
proof fn lemma_inner_start(f: FuncModel, g: GraphState, b: u32, h: GraphState, q: u32)
    requires
        graph_ok(f, g),
        b < g.in_bundle.len(),
        g.in_bundle[b as int].len() > 0,
        comes_from(g, b, apart_points(g, b), h, q),
        h.ranges[q as int].range.from.ix() % 2 == 1,
    ensures
        apart_points(g, b).contains(h.ranges[q as int].range.from.ix() as u32),
{
    reveal(comes_from);
    lemma_apart_has(f, g, b);
    let p = h.ranges[q as int].range.from.ix();
    let points = apart_points(g, b);
    if home_start(g, b, p) {
        let i = choose|i: int|
            0 <= i < g.in_bundle[b as int].len() && g.ranges[(
            #[trigger] g.in_bundle[b as int][i]) as int].range.from.ix() == p;
        assert(g.ranges[g.in_bundle[b as int][i] as int].range.from.pos is After);
    } else {
        let k = choose|k: int| 0 <= k < points.len() && #[trigger] points[k] == p;
        assert(points[k] == p as u32);
    }
}

/// The live range lies within one instruction.
proof fn lemma_one_instruction(range: CodeRange, inst: Inst)
    requires
        2 * inst.0 <= range.from.ix() < range.to.ix() <= 2 * inst.0 + 2,
    ensures
        range.from.inst == inst,
        range.to.pred().inst == inst,
{
}

/// A split around all mentions of a bundle ends in minimal bundles: every part that holds a use or a
/// definition is one live range within one instruction.
pub proof fn law_split_to_minimal(f: FuncModel, g: GraphState, b: u32, x: u32, i: int)
    requires
        graph_ok(f, g),
        b < g.in_bundle.len(),
        g.in_bundle[b as int].len() > 0,
        in_order(g.ranges, g.in_bundle[b as int]),
        uses_placed(g),
        defs_placed(g),
        graph_split(g, b, apart_points(g, b)) is Ok,
        is_made(b, graph_split(g, b, apart_points(g, b))->Ok_0.made, x as int),
        x < graph_split(g, b, apart_points(g, b))->Ok_0.g.in_bundle.len(),
        0 <= i < graph_split(g, b, apart_points(g, b))->Ok_0.g.in_bundle[x as int].len(),
        holds_mention(
            graph_split(g, b, apart_points(g, b))->Ok_0.g,
            graph_split(g, b, apart_points(g, b))->Ok_0.g.in_bundle[x as int][i],
        ),
    ensures
        bundle_minimal(graph_split(g, b, apart_points(g, b))->Ok_0.g, x),
{
    let points = apart_points(g, b);
    let c = graph_split(g, b, points)->Ok_0;
    let h = c.g;
    let parts = h.in_bundle[x as int];
    let q = parts[i];
    lemma_apart_has(f, g, b);
    lemma_home_ok(f, g, b, points);
    lemma_split_cut_up(g, b, points);
    assert(comes_from(g, b, points, h, h.in_bundle[x as int][i]));
    let inst = lemma_mention_of(f, g, b, h, q);
    let range = h.ranges[q as int].range;
    assert(range.from.ix() >= 2 * inst.0 && range.to.ix() <= 2 * inst.0 + 2 && range.from.ix()
        < range.to.ix()) by {
        reveal(comes_from);
        reveal(uncut);
        if points.contains((2 * inst.0) as u32) {
            let k = choose|k: int| 0 <= k < points.len() && points[k] == (2 * inst.0) as u32;
            let _ = points[k];
        }
        if points.contains((2 * inst.0 + 2) as u32) {
            let k = choose|k: int| 0 <= k < points.len() && points[k] == (2 * inst.0 + 2) as u32;
            let _ = points[k];
        }
    }
    lemma_one_instruction(range, inst);
    if i > 0 {
        assert(neighbours(points, h, x as int, i));
        assert(comes_from(g, b, points, h, h.in_bundle[x as int][i - 1]));
        lemma_alone(f, g, b, h, parts[i - 1], q, inst, true);
    } else if parts.len() > 1 {
        assert(neighbours(points, h, x as int, 1));
        assert(comes_from(g, b, points, h, h.in_bundle[x as int][1]));
        lemma_alone(f, g, b, h, q, parts[1], inst, false);
    }
}

/// Of two live ranges one of which is within an instruction with points around it, a point parts
/// one from the other.
proof fn lemma_alone(
    f: FuncModel,
    g: GraphState,
    b: u32,
    h: GraphState,
    first: u32,
    second: u32,
    inst: Inst,
    inner_second: bool,
)
    requires
        graph_ok(f, g),
        b < g.in_bundle.len(),
        g.in_bundle[b as int].len() > 0,
        comes_from(g, b, apart_points(g, b), h, first),
        comes_from(g, b, apart_points(g, b), h, second),
        2 * inst.0 + 2 <= u32::MAX,
        around(
            apart_points(g, b),
            inst,
            g.ranges[g.in_bundle[b as int][0] as int].range.from.ix(),
            g.ranges[g.in_bundle[b as int].last() as int].range.to.ix(),
        ),
        ({
            let range = h.ranges[if inner_second {
                second
            } else {
                first
            } as int].range;
            2 * inst.0 <= range.from.ix() && range.to.ix() <= 2 * inst.0 + 2
        }),
    ensures
        !unparted(
            apart_points(g, b),
            h.ranges[first as int].range,
            h.ranges[second as int].range,
        ),
{
    reveal(comes_from);
    reveal(unparted);
    let points = apart_points(g, b);
    let a = h.ranges[first as int].range;
    let z = h.ranges[second as int].range;
    let p = if inner_second {
        if a.to.ix() <= 2 * inst.0 {
            2 * inst.0
        } else {
            z.from.ix()
        }
    } else {
        if z.from.ix() >= 2 * inst.0 + 2 {
            2 * inst.0 + 2
        } else {
            z.from.ix()
        }
    };
    if unparted(points, a, z) {
        if p == z.from.ix() && p != 2 * inst.0 && p != 2 * inst.0 + 2 {
            lemma_inner_start(f, g, b, h, second);
        }
        assert(points.contains(p as u32));
        let k = choose|k: int| 0 <= k < points.len() && points[k] == p as u32;
        assert(points[k] == p);
    }
}

} // verus!
