//! Every bundle gets a location that meets what its mentions demand.
use crate::assign::{base_ok, queued_ok, same_lists, AllocState, SpillSetState};
use crate::bundles::{bundled, class_of, in_its_bundle, in_its_vreg, uniform};
use crate::data::Use;
use crate::func::{FuncModel, MachModel};
use crate::graph::{graph_ok, range_ok, GraphState, MAX_ENTRIES};
use crate::index::LiveBundleIndex;
use crate::lists::{lemma_below, lemma_distinct};
use crate::liveness::Ctx;
use crate::order::in_order;
use crate::parts::{from_home, is_part, parts_ok};
use crate::place::{is_queued, sets_below};
use crate::probe::{alloc_evict, alloc_set_hint, alloc_try};
use crate::props::{graph_requirement, list_requirement, range_requirement, uses_requirement};
use crate::queue::{lemma_queue_position, queue_insert, queue_position, PrioQueueEntry};
use crate::reg::{Allocation, PReg, RegClass};
use crate::requirement::Requirement;
use crate::split::{split_keeps, split_off_bundle, Cut};
use vstd::prelude::*;

verus! {

/// The registers that are listed for a class are of that class.
pub open spec fn classes_ok(m: MachModel) -> bool {
    forall|class: RegClass, i: int|
        0 <= i < m.regs_by_class[class.ix()].len() ==> (
        #[trigger] m.regs_by_class[class.ix()][i]).class == class
}

/// Does register `p` meet the demand?
pub open spec fn reg_meets(m: MachModel, q: Requirement, p: PReg) -> bool {
    match q {
        Requirement::Fixed(x) => p == x,
        Requirement::Register(class) => classes_ok(m) ==> p.class == class,
        Requirement::Any(class) => classes_ok(m) ==> p.class == class,
    }
}

/// The class of the live ranges of a bundle.
pub open spec fn bundle_class(g: GraphState, b: u32) -> RegClass {
    class_of(g, g.in_bundle[b as int][0])
}

/// The spill set of the bundle is of the class of the bundle.
pub open spec fn set_classed(s: AllocState, b: u32) -> bool {
    let set = s.g.bundles[b as int].spillset;
    set.0 < s.spillsets.len() ==> s.spillsets[set.ix()].class == bundle_class(s.g, b)
}

/// The hints are of the classes of their spill sets.
pub open spec fn hints_classed(m: MachModel, sets: Seq<SpillSetState>) -> bool {
    classes_ok(m) ==> forall|i: int|
        0 <= i < sets.len() ==> ((#[trigger] sets[i]).reg_hint matches Some(p) ==> p.class
            == sets[i].class)
}

/// The bundle was put aside and can be in any location. If it is one of the first `k` of those it
/// is entered in its spill set.
pub open spec fn is_aside(s: AllocState, k: int, b: u32) -> bool {
    &&& exists|m: int|
        0 <= m < s.spilled.len() && (#[trigger] s.spilled[m]).0 == b && (m >= k
            || s.spillsets[s.g.bundles[b as int].spillset.ix()].bundles.contains(b))
    &&& graph_requirement(s.g, b) matches Some(Requirement::Any(_))
}

/// The bundle has a register that meets what its mentions demand, or waits in the queue or aside.
pub open spec fn settled_bundle(c: Ctx, s: AllocState, k: int, b: u32) -> bool {
    match s.g.bundles[b as int].allocation {
        Allocation::Reg(p) => graph_requirement(s.g, b) matches Some(q) && reg_meets(c.m, q, p),
        Allocation::Stack(_) => false,
        Allocation::Nowhere => is_queued(s.queue, b) || is_aside(s, k, b),
    }
}

/// Every bundle with live ranges that is not in `busy` has a register that meets what its mentions
/// demand, or waits; classes fit together.
pub open spec fn settled(c: Ctx, s: AllocState, k: int, busy: Set<u32>) -> bool {
    &&& uniform(s.g)
    &&& hints_classed(c.m, s.spillsets)
    &&& forall|b: u32|
        b < s.g.bundles.len() && s.g.in_bundle[b as int].len() > 0 ==> #[trigger] set_classed(s, b)
    &&& forall|b: u32|
        b < s.g.bundles.len() && s.g.in_bundle[b as int].len() > 0 && !busy.contains(b)
            ==> #[trigger] settled_bundle(c, s, k, b)
}

/// What the mentions of live range `r` are told apart by.
pub open spec fn same_mentions(g: GraphState, h: GraphState, r: u32) -> bool {
    &&& h.in_range[r as int] == g.in_range[r as int]
    &&& h.ranges[r as int].def == g.ranges[r as int].def
    &&& h.ranges[r as int].vreg == g.ranges[r as int].vreg
}

proof fn lemma_same_list_requirement(
    g: GraphState,
    h: GraphState,
    list: Seq<u32>,
    i: int,
    q: Requirement,
)
    requires
        h.uses == g.uses,
        h.defs == g.defs,
        forall|k: int| 0 <= k < list.len() ==> same_mentions(g, h, #[trigger] list[k]),
    ensures
        list_requirement(h, list, i, q) == list_requirement(g, list, i, q),
    decreases list.len() - i,
{
    if 0 <= i < list.len() {
        assert(same_mentions(g, h, list[i]));
        assert(range_requirement(h, list[i], q) == range_requirement(g, list[i], q));
        match range_requirement(g, list[i], q) {
            Some(n) => {
                lemma_same_list_requirement(g, h, list, i + 1, n);
            },
            None => {},
        }
    }
}

/// A bundle with the same mentions has the same demands.
pub proof fn lemma_same_requirement(g: GraphState, h: GraphState, b: u32)
    requires
        h.uses == g.uses,
        h.defs == g.defs,
        h.vregs == g.vregs,
        g.in_bundle[b as int].len() > 0,
        h.in_bundle[b as int] == g.in_bundle[b as int],
        forall|k: int|
            0 <= k < g.in_bundle[b as int].len() ==> same_mentions(
                g,
                h,
                #[trigger] g.in_bundle[b as int][k],
            ),
    ensures
        graph_requirement(h, b) == graph_requirement(g, b),
        bundle_class(h, b) == bundle_class(g, b),
{
    let list = g.in_bundle[b as int];
    assert forall|k: int| 0 <= k < list.len() implies same_mentions(g, h, #[trigger] list[k]) by {
        assert(same_mentions(g, h, g.in_bundle[b as int][k]));
    }
    assert(same_mentions(g, h, g.in_bundle[b as int][0]));
    lemma_same_list_requirement(
        g,
        h,
        list,
        0,
        Requirement::Any(g.vregs[g.ranges[list[0] as int].vreg.ix()].reg.class),
    );
}

/// A step that touches one bundle.
pub proof fn lemma_settled_step(
    c: Ctx,
    s: AllocState,
    t: AllocState,
    k: int,
    k2: int,
    busy: Set<u32>,
    now: Set<u32>,
    touched: u32,
)
    requires
        base_ok(c, s),
        sets_below(s.g, s.spillsets.len() as int),
        settled(c, s, k, busy),
        same_lists(s.g, t.g),
        forall|b: int|
            0 <= b < s.g.bundles.len() && b != touched ==> {
                &&& (#[trigger] t.g.bundles[b]).allocation == s.g.bundles[b].allocation
                &&& t.g.bundles[b].spillset == s.g.bundles[b].spillset
            },
        s.spillsets.len() <= t.spillsets.len() <= MAX_ENTRIES,
        forall|i: int|
            0 <= i < s.spillsets.len() ==> {
                &&& (#[trigger] t.spillsets[i]).class == s.spillsets[i].class
                &&& forall|x: u32|
                    s.spillsets[i].bundles.contains(x) ==> #[trigger] t.spillsets[i].bundles.contains(
                        x,
                    )
            },
        hints_classed(c.m, t.spillsets),
        forall|b: u32| b != touched && is_queued(s.queue, b) ==> #[trigger] is_queued(t.queue, b),
        s.spilled.len() <= t.spilled.len(),
        forall|i: int| 0 <= i < s.spilled.len() ==> #[trigger] t.spilled[i] == s.spilled[i],
        k2 == k || k2 == k + 1 && 0 <= k < s.spilled.len() && s.spilled[k].0 == touched,
        touched < s.g.bundles.len() && s.g.in_bundle[touched as int].len() > 0 ==> set_classed(
            t,
            touched,
        ),
        touched < s.g.bundles.len() && s.g.in_bundle[touched as int].len() > 0 && !now.contains(
            touched,
        ) ==> settled_bundle(c, t, k2, touched),
        forall|b: u32| #[trigger] busy.contains(b) && b != touched ==> now.contains(b),
    ensures
        settled(c, t, k2, now),
{
    assert forall|b: int, i: int|
        0 <= b < t.g.in_bundle.len() && 0 <= i < t.g.in_bundle[b].len() implies class_of(
        t.g,
        #[trigger] t.g.in_bundle[b][i],
    ) == class_of(t.g, t.g.in_bundle[b][0]) by {
        assert(class_of(s.g, s.g.in_bundle[b][i]) == class_of(s.g, s.g.in_bundle[b][0]));
    }
    assert forall|b: u32|
        b < t.g.bundles.len() && t.g.in_bundle[b as int].len() > 0 implies #[trigger] set_classed(
        t,
        b,
    ) by {
        if b != touched {
            assert(set_classed(s, b));
            assert(t.g.bundles[b as int].spillset == s.g.bundles[b as int].spillset);
        }
    }
    assert forall|b: u32|
        b < t.g.bundles.len() && t.g.in_bundle[b as int].len() > 0 && !now.contains(
            b,
        ) implies #[trigger] settled_bundle(c, t, k2, b) by {
        if b != touched {
            assert(settled_bundle(c, s, k, b));
            assert(t.g.bundles[b as int].allocation == s.g.bundles[b as int].allocation);
            assert forall|i: int| 0 <= i < s.g.in_bundle[b as int].len() implies same_mentions(
                s.g,
                t.g,
                #[trigger] s.g.in_bundle[b as int][i],
            ) by {}
            lemma_same_requirement(s.g, t.g, b);
            if is_aside(s, k, b) {
                let m = choose|m: int|
                    0 <= m < s.spilled.len() && (#[trigger] s.spilled[m]).0 == b && (m >= k
                        || s.spillsets[s.g.bundles[b as int].spillset.ix()].bundles.contains(b));
                assert(queued_ok(s.g, s.spillsets.len() as int, s.spilled[m].0));
                assert(t.spilled[m].0 == b);
                assert(is_aside(t, k2, b));
            }
        }
    }
}

/// What is queued stays so when one more bundle is queued.
pub proof fn lemma_queue_insert(s: Seq<PrioQueueEntry>, e: PrioQueueEntry)
    ensures
        forall|b: u32| is_queued(s, b) ==> #[trigger] is_queued(queue_insert(s, e), b),
        is_queued(queue_insert(s, e), e.bundle.0),
{
    lemma_queue_position(s, e, 0);
    let p = queue_position(s, e, 0);
    let t = queue_insert(s, e);
    assert(t[p] == e);
    assert forall|b: u32| is_queued(s, b) implies #[trigger] is_queued(t, b) by {
        let i = choose|i: int| 0 <= i < s.len() && (#[trigger] s[i]).bundle.0 == b;
        if i < p {
            assert(t[i].bundle.0 == b);
        } else {
            assert(t[i + 1].bundle.0 == b);
        }
    }
}

/// A split makes the parts busy.
pub proof fn lemma_settled_split(
    c: Ctx,
    s: AllocState,
    t: AllocState,
    k: int,
    home: u32,
    cut: Cut,
    busy: Set<u32>,
    now: Set<u32>,
)
    requires
        base_ok(c, s),
        graph_ok(c.f, t.g),
        settled(c, s, k, busy),
        t == (AllocState { g: t.g, stats: t.stats, ..s }),
        cut.g == t.g,
        parts_ok(s.g, home, cut),
        split_keeps(s.g, t.g, home, cut.made),
        s.g.in_bundle[home as int].len() > 0,
        forall|b: u32| #[trigger] busy.contains(b) ==> now.contains(b),
        now.contains(home),
        forall|i: int| 0 <= i < cut.made.len() ==> now.contains(#[trigger] cut.made[i]),
    ensures
        settled(c, t, k, now),
{
    let g = s.g;
    let h = t.g;
    let n = g.bundles.len() as int;
    let class = bundle_class(g, home);
    assert forall|b: int| 0 <= b < n implies #[trigger] h.bundles[b] == g.bundles[b] by {
        assert(h.bundles.take(n)[b] == h.bundles[b]);
    }
    // The live ranges of the parts are of the class of the bundle that was split.
    assert forall|b: int, i: int|
        0 <= b < h.in_bundle.len() && is_part(n, home, b) && 0 <= i < h.in_bundle[b].len() implies class_of(
    h, #[trigger] h.in_bundle[b][i]) == class by {
        let v = h.ranges[h.in_bundle[b][i] as int].vreg;
        assert(from_home(g, home, v));
        let j = choose|j: int|
            0 <= j < g.in_bundle[home as int].len() && g.ranges[(
            #[trigger] g.in_bundle[home as int][j]) as int].vreg == v;
        assert(class_of(g, g.in_bundle[home as int][j]) == class);
    }
    // The live ranges of the others are as they were.
    assert forall|b: int, i: int|
        0 <= b < n && b != home && 0 <= i < g.in_bundle[b].len() implies same_mentions(
        g,
        h,
        #[trigger] g.in_bundle[b][i],
    ) && h.in_bundle[b] == g.in_bundle[b] by {
        let r = g.in_bundle[b][i];
        assert(h.in_bundle[b] == g.in_bundle[b]);
        lemma_below(g.in_bundle, g.ranges.len() as int, b, i);
        if g.in_bundle[home as int].contains(r) {
            let j = choose|j: int|
                0 <= j < g.in_bundle[home as int].len() && g.in_bundle[home as int][j] == r;
            lemma_distinct(g.in_bundle, g.ranges.len() as int, b, i, home as int, j);
        }
        assert(h.ranges[r as int] == g.ranges[r as int]);
        assert(h.in_range[r as int] == g.in_range[r as int]);
    }
    assert forall|b: int, i: int|
        0 <= b < h.in_bundle.len() && 0 <= i < h.in_bundle[b].len() implies class_of(
        h,
        #[trigger] h.in_bundle[b][i],
    ) == class_of(h, h.in_bundle[b][0]) by {
        if is_part(n, home, b) {
            assert(class_of(h, h.in_bundle[b][i]) == class);
            assert(class_of(h, h.in_bundle[b][0]) == class);
        } else {
            assert(h.in_bundle[b] == g.in_bundle[b]);
            assert(same_mentions(g, h, g.in_bundle[b][i]));
            assert(same_mentions(g, h, g.in_bundle[b][0]));
            assert(class_of(g, g.in_bundle[b][i]) == class_of(g, g.in_bundle[b][0]));
        }
    }
    assert forall|b: u32|
        b < h.bundles.len() && h.in_bundle[b as int].len() > 0 implies #[trigger] set_classed(t, b) by {
        if is_part(n, home, b as int) {
            assert(class_of(h, h.in_bundle[b as int][0]) == class);
            assert(set_classed(s, home));
            if b != home {
                assert(h.bundles[b as int] == split_off_bundle(g, home));
            }
        } else {
            assert(h.in_bundle[b as int] == g.in_bundle[b as int]);
            assert(set_classed(s, b));
            assert(same_mentions(g, h, g.in_bundle[b as int][0]));
        }
    }
    assert forall|b: u32|
        b < h.bundles.len() && h.in_bundle[b as int].len() > 0 && !now.contains(
            b,
        ) implies #[trigger] settled_bundle(c, t, k, b) by {
        if b >= n {
            assert(cut.made[b - n] == b);
        } else {
            assert(h.in_bundle[b as int] == g.in_bundle[b as int]);
            assert(settled_bundle(c, s, k, b));
            lemma_same_requirement(g, h, b);
            if is_aside(s, k, b) {
                let m = choose|m: int|
                    0 <= m < s.spilled.len() && (#[trigger] s.spilled[m]).0 == b && (m >= k
                        || s.spillsets[s.g.bundles[b as int].spillset.ix()].bundles.contains(b));
                assert(t.spilled[m].0 == b);
                assert(is_aside(t, k, b));
            }
        }
    }
}

/// The first live range of a bundle is the first one of its register.
pub proof fn lemma_bundle_first(f: FuncModel, g: GraphState, b: int)
    requires
        graph_ok(f, g),
        bundled(g),
        0 <= b < g.in_bundle.len(),
        g.in_bundle[b].len() > 0,
    ensures
        ({
            let r = g.in_bundle[b][0];
            let v = g.ranges[r as int].vreg.ix();
            &&& 0 <= v < g.in_vreg.len()
            &&& g.in_vreg[v].len() > 0
            &&& g.in_vreg[v][0] == r
            &&& g.ranges[r as int].bundle.0 == b
        }),
{
    let n = g.ranges.len() as int;
    let r = g.in_bundle[b][0];
    let v = g.ranges[r as int].vreg.ix();
    lemma_below(g.in_bundle, n, b, 0);
    assert(in_its_vreg(g, r));
    let i = choose|i: int| 0 <= i < g.in_vreg[v].len() && g.in_vreg[v][i] == r;
    let first = g.in_vreg[v][0];
    assert(g.ranges[g.in_vreg[v][i] as int].bundle == g.ranges[first as int].bundle);
    assert(in_its_bundle(g, first));
    let j = choose|j: int| 0 <= j < g.in_bundle[b].len() && g.in_bundle[b][j] == first;
    if i > 0 {
        lemma_below(g.in_vreg, n, v, 0);
        assert(in_order(g.ranges, g.in_vreg[v]));
        assert(g.ranges[g.in_vreg[v][0] as int].range.precedes(
            g.ranges[g.in_vreg[v][i] as int].range,
        ));
        assert(in_order(g.ranges, g.in_bundle[b]));
        assert(range_ok(f, g, r as int));
        assert(range_ok(f, g, first as int));
        if j > 0 {
            assert(g.ranges[g.in_bundle[b][0] as int].range.precedes(
                g.ranges[g.in_bundle[b][j] as int].range,
            ));
        }
    }
}

/// One bundle.
pub open spec fn only(b: u32) -> Set<u32> {
    Set::empty().insert(b)
}

/// More bundles may be busy.
pub proof fn lemma_settled_more(c: Ctx, s: AllocState, k: int, busy: Set<u32>, now: Set<u32>)
    requires
        settled(c, s, k, busy),
        forall|b: u32|
            b < s.g.bundles.len() && s.g.in_bundle[b as int].len() > 0 && #[trigger] busy.contains(
                b,
            ) ==> now.contains(b),
    ensures
        settled(c, s, k, now),
{
}

/// Counts do not matter.
pub proof fn lemma_settled_stats(c: Ctx, s: AllocState, t: AllocState, k: int, busy: Set<u32>)
    requires
        settled(c, s, k, busy),
        t == (AllocState { stats: t.stats, ..s }),
    ensures
        settled(c, t, k, busy),
{
    assert forall|b: u32|
        b < t.g.bundles.len() && t.g.in_bundle[b as int].len() > 0 implies #[trigger] set_classed(
        t,
        b,
    ) by {
        assert(set_classed(s, b));
    }
    assert forall|b: u32|
        b < t.g.bundles.len() && t.g.in_bundle[b as int].len() > 0 && !busy.contains(
            b,
        ) implies #[trigger] settled_bundle(c, t, k, b) by {
        assert(settled_bundle(c, s, k, b));
        if is_aside(s, k, b) {
            let m = choose|m: int|
                0 <= m < s.spilled.len() && (#[trigger] s.spilled[m]).0 == b && (m >= k
                    || s.spillsets[s.g.bundles[b as int].spillset.ix()].bundles.contains(b));
            assert(t.spilled[m].0 == b);
        }
    }
}

/// A bundle that loses its register waits in the queue.
pub proof fn lemma_settled_evict(c: Ctx, s: AllocState, k: int, busy: Set<u32>, b: u32)
    requires
        base_ok(c, s),
        sets_below(s.g, s.spillsets.len() as int),
        settled(c, s, k, busy),
        b < s.g.bundles.len(),
    ensures
        settled(c, alloc_evict(s, b), k, busy),
{
    let t = alloc_evict(s, b);
    if s.g.bundles[b as int].allocation.as_reg() is Some {
        let e = PrioQueueEntry {
            prio: s.g.bundles[b as int].prio,
            bundle: LiveBundleIndex(b),
        };
        lemma_queue_insert(s.queue, e);
        if s.g.in_bundle[b as int].len() > 0 {
            assert(set_classed(s, b));
            assert(set_classed(t, b));
            assert(settled_bundle(c, t, k, b));
        }
        lemma_settled_step(c, s, t, k, k, busy, busy, b);
    }
}

/// A bundle gets a register that meets what its mentions demand.
pub proof fn lemma_settled_try(
    c: Ctx,
    s: AllocState,
    k: int,
    k2: int,
    busy: Set<u32>,
    b: u32,
    p: int,
    q: Requirement,
)
    requires
        base_ok(c, s),
        sets_below(s.g, s.spillsets.len() as int),
        settled(c, s, k, busy),
        b < s.g.bundles.len(),
        alloc_try(c, s, b, p).1 is Allocated,
        graph_requirement(s.g, b) == Some(q),
        reg_meets(c.m, q, c.m.regs[p]),
        k2 == k || k2 == k + 1 && 0 <= k < s.spilled.len() && s.spilled[k].0 == b,
    ensures
        settled(c, alloc_try(c, s, b, p).0, k2, busy.remove(b)),
{
    let t = alloc_try(c, s, b, p).0;
    if s.g.in_bundle[b as int].len() > 0 {
        assert(set_classed(s, b));
        assert(set_classed(t, b));
        assert forall|i: int| 0 <= i < s.g.in_bundle[b as int].len() implies same_mentions(
            s.g,
            t.g,
            #[trigger] s.g.in_bundle[b as int][i],
        ) by {}
        lemma_same_requirement(s.g, t.g, b);
        assert(settled_bundle(c, t, k2, b));
    }
    lemma_settled_step(c, s, t, k, k2, busy, busy.remove(b), b);
}

/// What a bundle demands is of its class.
pub proof fn lemma_requirement_class(g: GraphState, b: u32)
    ensures
        graph_requirement(g, b) matches Some(q) ==> q.class() == bundle_class(g, b),
{
    let list = g.in_bundle[b as int];
    lemma_list_class(g, list, 0, Requirement::Any(bundle_class(g, b)));
}

proof fn lemma_uses_class(uses: Seq<Use>, list: Seq<u32>, j: int, q: Requirement)
    ensures
        uses_requirement(uses, list, j, q) matches Some(n) ==> n.class() == q.class(),
    decreases list.len() - j,
{
    if 0 <= j < list.len() {
        match q.both(Requirement::from_operand(uses[list[j] as int].operand)) {
            Some(n) => {
                lemma_uses_class(uses, list, j + 1, n);
            },
            None => {},
        }
    }
}

proof fn lemma_list_class(g: GraphState, list: Seq<u32>, i: int, q: Requirement)
    ensures
        list_requirement(g, list, i, q) matches Some(n) ==> n.class() == q.class(),
    decreases list.len() - i,
{
    if 0 <= i < list.len() {
        let r = list[i];
        let lr = g.ranges[r as int];
        if lr.def.is_valid() {
            match q.both(Requirement::from_operand(g.defs[lr.def.ix()].operand)) {
                Some(n) => {
                    lemma_uses_class(g.uses, g.in_range[r as int], 0, n);
                },
                None => {},
            }
        } else {
            lemma_uses_class(g.uses, g.in_range[r as int], 0, q);
        }
        match range_requirement(g, r, q) {
            Some(n) => {
                lemma_list_class(g, list, i + 1, n);
            },
            None => {},
        }
    }
}

/// The register of a bundle may become the hint of its spill set.
pub proof fn lemma_settled_hint(c: Ctx, s: AllocState, k: int, busy: Set<u32>, b: u32, p: PReg)
    requires
        base_ok(c, s),
        sets_below(s.g, s.spillsets.len() as int),
        settled(c, s, k, busy),
        queued_ok(s.g, s.spillsets.len() as int, b),
        !busy.contains(b),
        s.g.bundles[b as int].allocation == Allocation::Reg(p),
    ensures
        settled(c, alloc_set_hint(s, b, Some(p)), k, busy),
{
    let t = alloc_set_hint(s, b, Some(p));
    let set = s.g.bundles[b as int].spillset.ix();
    assert(set_classed(s, b));
    assert(settled_bundle(c, s, k, b));
    lemma_requirement_class(s.g, b);
    assert(hints_classed(c.m, t.spillsets)) by {
        if classes_ok(c.m) {
            assert forall|i: int| 0 <= i < t.spillsets.len() implies ((
            #[trigger] t.spillsets[i]).reg_hint matches Some(x) ==> x.class
                == t.spillsets[i].class) by {
                assert(s.spillsets[i].reg_hint matches Some(x) ==> x.class
                    == s.spillsets[i].class);
            }
        }
    }
    assert(set_classed(t, b));
    assert(settled_bundle(c, t, k, b));
    lemma_settled_step(c, s, t, k, k, busy, busy, b);
}

/// A bundle that can be in any location is put aside.
pub proof fn lemma_settled_aside(c: Ctx, s: AllocState, t: AllocState, busy: Set<u32>, b: u32)
    requires
        base_ok(c, s),
        sets_below(s.g, s.spillsets.len() as int),
        settled(c, s, 0, busy),
        b < s.g.bundles.len(),
        s.g.bundles[b as int].allocation == Allocation::Nowhere,
        graph_requirement(s.g, b) matches Some(Requirement::Any(_)),
        t == (AllocState { spilled: s.spilled.push(LiveBundleIndex(b)), ..s }),
    ensures
        settled(c, t, 0, busy.remove(b)),
{
    if s.g.in_bundle[b as int].len() > 0 {
        assert(set_classed(s, b));
        assert(set_classed(t, b));
        assert(t.spilled[s.spilled.len() as int].0 == b);
        assert(is_aside(t, 0, b));
    }
    lemma_settled_step(c, s, t, 0, 0, busy, busy.remove(b), b);
}

/// A bundle is refreshed and queued.
pub proof fn lemma_settled_requeue(
    c: Ctx,
    s: AllocState,
    t: AllocState,
    k: int,
    busy: Set<u32>,
    b: u32,
    e: PrioQueueEntry,
)
    requires
        base_ok(c, s),
        sets_below(s.g, s.spillsets.len() as int),
        settled(c, s, k, busy),
        b < s.g.bundles.len(),
        s.g.bundles[b as int].allocation == Allocation::Nowhere,
        same_lists(s.g, t.g),
        forall|x: int|
            0 <= x < s.g.bundles.len() ==> {
                &&& (#[trigger] t.g.bundles[x]).allocation == s.g.bundles[x].allocation
                &&& t.g.bundles[x].spillset == s.g.bundles[x].spillset
            },
        t == (AllocState { g: t.g, queue: queue_insert(s.queue, e), ..s }),
        e.bundle.0 == b,
    ensures
        settled(c, t, k, busy.remove(b)),
{
    lemma_queue_insert(s.queue, e);
    if s.g.in_bundle[b as int].len() > 0 {
        assert(set_classed(s, b));
        assert(set_classed(t, b));
        assert(settled_bundle(c, t, k, b));
    }
    lemma_settled_step(c, s, t, k, k, busy, busy.remove(b), b);
}

} // verus!
