//! No register is given to two bundles at one point.
use crate::assign::{base_ok, preg_ok, queued_ok, same_lists, AllocState};
use crate::bundles::in_its_bundle;
use crate::code_range::{
    entries_disjoint, entries_get, entries_insert, entries_remove, find_overlap, first_not_before,
    lemma_first_not_before, lemma_first_overlap, LiveRangeKey, RangeEntry,
};
use crate::data::LiveBundle;
use crate::func::FuncModel;
use crate::graph::{graph_ok, range_ok, GraphState};
use crate::index::{LiveBundleIndex, LiveRangeIndex};
use crate::lists::{lemma_below, lemma_distinct};
use crate::liveness::Ctx;
use crate::order::{apart, bundles_in_order, in_order, vregs_in_order};
use crate::parts::{is_part, member, parts_apart, parts_ok};
use crate::probe::{drop_ranges, find_conflicts, range_key, take_ranges};
use crate::props::graph_set_bundle;
use crate::queue::{lemma_queue_position, queue_insert, queue_position, PrioQueueEntry};
use crate::reg::{Allocation, MAX_INSTS};
use crate::split::{split_keeps, split_off_bundle, Cut};
use vstd::prelude::*;

verus! {

/// The live ranges of two bundles with one spill set do not reach into each other.
pub open spec fn sets_apart(g: GraphState) -> bool {
    forall|a: int, b: int|
        #![trigger g.in_bundle[a], g.in_bundle[b]]
        0 <= a < g.bundles.len() && 0 <= b < g.bundles.len() && a != b
            && g.bundles[a].spillset.is_valid() && g.bundles[a].spillset == g.bundles[b].spillset
            ==> apart(g.ranges, g.in_bundle[a], g.in_bundle[b])
}

/// The spill set of every bundle, if it has one, is one of `n`.
pub open spec fn sets_below(g: GraphState, n: int) -> bool {
    forall|b: int|
        0 <= b < g.bundles.len() && (#[trigger] g.bundles[b]).spillset.is_valid()
            ==> g.bundles[b].spillset.0 < n
}

/// The live ranges of a register, of a bundle and of a spill set do not reach into each other.
pub open spec fn ordered(g: GraphState, n: int) -> bool {
    &&& vregs_in_order(g)
    &&& bundles_in_order(g)
    &&& sets_apart(g)
    &&& sets_below(g, n)
}

/// The entry of a live range.
pub open spec fn entry_of(g: GraphState, r: u32) -> RangeEntry {
    (range_key(g, r), LiveRangeIndex(r))
}

/// If bundle `b` has a register then live range `r` is an entry of that register.
pub open spec fn holds(g: GraphState, pregs: Seq<Seq<RangeEntry>>, b: int, r: u32) -> bool {
    g.bundles[b].allocation.as_reg() matches Some(p) ==> pregs[p.ix()].contains(entry_of(g, r))
}

/// The entry of register number `p` is that of a live range of no virtual register, or that of a
/// live range of a bundle that has the register.
pub open spec fn owned(c: Ctx, g: GraphState, p: int, e: RangeEntry) -> bool {
    let r = e.1.0;
    g.ranges[r as int].vreg.is_valid() ==> {
        &&& e == entry_of(g, r)
        &&& in_its_bundle(g, r)
        &&& g.bundles[g.ranges[r as int].bundle.ix()].allocation == Allocation::Reg(c.m.regs[p])
    }
}

/// The live ranges of the bundles with a register are the entries of that register.
pub open spec fn placed(c: Ctx, g: GraphState, pregs: Seq<Seq<RangeEntry>>) -> bool {
    &&& forall|b: int, i: int|
        0 <= b < g.in_bundle.len() && 0 <= i < g.in_bundle[b].len() ==> holds(
            g,
            pregs,
            b,
            #[trigger] g.in_bundle[b][i],
        )
    &&& forall|p: int, i: int|
        0 <= p < pregs.len() && 0 <= i < pregs[p].len() ==> owned(c, g, p, #[trigger] pregs[p][i])
}

/// The places that are kept free in registers stay so.
#[verifier::opaque]
pub open spec fn frees_kept(s: AllocState, t: AllocState) -> bool {
    forall|p: int, e: RangeEntry|
        0 <= p < s.pregs.len() && is_kept_free(s, p, e) ==> #[trigger] is_kept_free(t, p, e)
}

/// Is the entry one that keeps a place free in register number `p`?
pub open spec fn is_kept_free(s: AllocState, p: int, e: RangeEntry) -> bool {
    &&& s.pregs[p].contains(e)
    &&& e.1.ix() < s.g.ranges.len()
    &&& s.g.ranges[e.1.ix()].vreg.is_invalid()
}

pub proof fn lemma_frees_trans(s: AllocState, t: AllocState, u: AllocState)
    requires
        frees_kept(s, t),
        frees_kept(t, u),
        t.pregs.len() == s.pregs.len(),
    ensures
        frees_kept(s, u),
{
    reveal(frees_kept);
    assert forall|p: int, e: RangeEntry| 0 <= p < s.pregs.len() && is_kept_free(s, p, e) implies #[trigger] is_kept_free(
    u, p, e) by {
        assert(is_kept_free(t, p, e));
    }
}

/// The entries of the registers stay, and live ranges keep their registers.
pub proof fn lemma_frees_same(s: AllocState, t: AllocState)
    requires
        t.pregs == s.pregs,
        t.g.ranges.len() >= s.g.ranges.len(),
        forall|r: int|
            0 <= r < s.g.ranges.len() ==> (#[trigger] t.g.ranges[r]).vreg == s.g.ranges[r].vreg,
    ensures
        frees_kept(s, t),
{
    reveal(frees_kept);
}

/// The entries of one register change.
pub proof fn lemma_frees_preg(s: AllocState, t: AllocState, p: int)
    requires
        0 <= p < s.pregs.len(),
        t.pregs == s.pregs.update(p, t.pregs[p]),
        t.g.ranges == s.g.ranges,
        forall|e: RangeEntry|
            s.pregs[p].contains(e) && s.g.ranges[e.1.ix()].vreg.is_invalid()
                ==> #[trigger] t.pregs[p].contains(e),
    ensures
        frees_kept(s, t),
{
    reveal(frees_kept);
}

/// The bundles in the queue have no register; no bundle is queued or put aside twice, or both.
pub open spec fn waiting(
    g: GraphState,
    queue: Seq<PrioQueueEntry>,
    spilled: Seq<LiveBundleIndex>,
) -> bool {
    &&& forall|i: int|
        0 <= i < queue.len() ==> g.bundles[(#[trigger] queue[i]).bundle.ix()].allocation
            == Allocation::Nowhere
    &&& forall|i: int, j: int|
        #![trigger queue[i], queue[j]]
        0 <= i < j < queue.len() ==> queue[i].bundle != queue[j].bundle
    &&& forall|i: int, j: int|
        #![trigger spilled[i], spilled[j]]
        0 <= i < j < spilled.len() ==> spilled[i] != spilled[j]
    &&& forall|i: int, j: int|
        #![trigger queue[i], spilled[j]]
        0 <= i < queue.len() && 0 <= j < spilled.len() ==> queue[i].bundle != spilled[j]
}

/// Is the bundle in the queue?
pub open spec fn is_queued(queue: Seq<PrioQueueEntry>, b: u32) -> bool {
    exists|i: int| 0 <= i < queue.len() && (#[trigger] queue[i]).bundle.0 == b
}

/// The bundle has no register and is not queued.
pub open spec fn is_free(s: AllocState, b: u32) -> bool {
    &&& s.g.bundles[b as int].allocation == Allocation::Nowhere
    &&& !is_queued(s.queue, b)
}

/// The bundle is free and was not put aside.
pub open spec fn is_idle(s: AllocState, b: u32) -> bool {
    &&& is_free(s, b)
    &&& !s.spilled.contains(LiveBundleIndex(b))
}

/// Bundle `b` is one of spill set `i`, has no register and is one of the first `k` bundles that
/// were put aside.
pub open spec fn set_member(s: AllocState, k: int, i: int, b: u32) -> bool {
    &&& s.g.bundles[b as int].spillset.0 == i
    &&& s.g.bundles[b as int].allocation == Allocation::Nowhere
    &&& exists|m: int| 0 <= m < k && m < s.spilled.len() && (#[trigger] s.spilled[m]).0 == b
}

/// The bundles that are entered in the spill sets.
pub open spec fn sets_filled(s: AllocState, k: int) -> bool {
    &&& forall|i: int, j: int|
        0 <= i < s.spillsets.len() && 0 <= j < s.spillsets[i].bundles.len() ==> set_member(
            s,
            k,
            i,
            #[trigger] s.spillsets[i].bundles[j],
        )
    &&& forall|i: int|
        0 <= i < s.spillsets.len() ==> (#[trigger] s.spillsets[i]).bundles.no_duplicates()
}

/// The first `k` of the bundles that were put aside are done: the others have no register, and
/// none of them is entered in its spill set.
pub open spec fn aside_free(s: AllocState, k: int) -> bool {
    &&& forall|i: int|
        k <= i < s.spilled.len() ==> s.g.bundles[(#[trigger] s.spilled[i]).ix()].allocation
            == Allocation::Nowhere
    &&& sets_filled(s, k)
}

/// Before any bundle is done the spill sets hold no bundles.
pub proof fn lemma_sets_empty(s: AllocState)
    ensures
        sets_filled(s, 0) <==> forall|i: int|
            0 <= i < s.spillsets.len() ==> (#[trigger] s.spillsets[i]).bundles.len() == 0,
{
    if sets_filled(s, 0) {
        assert forall|i: int| 0 <= i < s.spillsets.len() implies (
        #[trigger] s.spillsets[i]).bundles.len() == 0 by {
            if s.spillsets[i].bundles.len() > 0 {
                assert(set_member(s, 0, i, s.spillsets[i].bundles[0]));
            }
        }
    }
}

/// Live ranges are in order, registers belong to one bundle at a time, and bundles wait at one
/// place.
pub open spec fn sound(c: Ctx, s: AllocState) -> bool {
    &&& ordered(s.g, s.spillsets.len() as int)
    &&& placed(c, s.g, s.pregs)
    &&& waiting(s.g, s.queue, s.spilled)
}

/// The key of a live range has its extent.
pub proof fn lemma_key(f: FuncModel, g: GraphState, r: u32)
    requires
        graph_ok(f, g),
        r < g.ranges.len(),
    ensures
        range_key(g, r).from == g.ranges[r as int].range.from.ix(),
        range_key(g, r).to == g.ranges[r as int].range.to.ix(),
        range_key(g, r).from < range_key(g, r).to,
{
    assert(range_ok(f, g, r as int));
    assert(2 * f.insts <= 2 * MAX_INSTS);
}

pub proof fn lemma_insert_contains(s: Seq<RangeEntry>, key: LiveRangeKey, lr: LiveRangeIndex)
    requires
        entries_get(s, key) is None,
    ensures
        forall|e: RangeEntry|
            #[trigger] entries_insert(s, key, lr).contains(e) <==> s.contains(e) || e == (key, lr),
{
    lemma_first_overlap(s, key, 0);
    lemma_first_not_before(s, key, 0);
    let p = first_not_before(s, key, 0);
    let t = entries_insert(s, key, lr);
    assert forall|e: RangeEntry| #[trigger] t.contains(e) <==> s.contains(e) || e == (key, lr) by {
        if s.contains(e) {
            let i = choose|i: int| 0 <= i < s.len() && s[i] == e;
            if i < p {
                assert(t[i] == e);
            } else {
                assert(t[i + 1] == e);
            }
        }
        if e == (key, lr) {
            assert(t[p] == e);
        }
        if t.contains(e) {
            let i = choose|i: int| 0 <= i < t.len() && t[i] == e;
            if i < p {
                assert(s[i] == e);
            } else if i > p {
                assert(s[i - 1] == e);
            }
        }
    }
}

/// None of the live ranges from position `i` of the list on reaches into an entry.
pub open spec fn fits(g: GraphState, entries: Seq<RangeEntry>, list: Seq<u32>, i: int) -> bool {
    forall|k: int, j: int|
        #![trigger list[k], entries[j]]
        i <= k < list.len() && 0 <= j < entries.len() ==> !range_key(g, list[k]).meets(
            entries[j].0,
        )
}

pub proof fn lemma_conflicts_none(
    g: GraphState,
    entries: Seq<RangeEntry>,
    list: Seq<u32>,
    i: int,
    found: Seq<u32>,
)
    requires
        0 <= i <= list.len(),
        find_conflicts(g, entries, list, i, found) matches Some(b) && b.len() == 0,
    ensures
        fits(g, entries, list, i),
        found.len() == 0,
    decreases list.len() - i,
{
    if i < list.len() {
        let key = range_key(g, list[i]);
        lemma_first_overlap(entries, key, 0);
        match entries_get(entries, key) {
            Some(lr) => {
                let b = g.ranges[lr.ix()].bundle.0;
                let more = if found.contains(b) {
                    found
                } else {
                    found.push(b)
                };
                lemma_conflicts_none(g, entries, list, i + 1, more);
            },
            None => {
                lemma_conflicts_none(g, entries, list, i + 1, found);
            },
        }
    }
}

/// Is the entry that of a live range of the list, from position `i` on?
pub open spec fn entry_in(g: GraphState, list: Seq<u32>, i: int, e: RangeEntry) -> bool {
    exists|k: int| i <= k < list.len() && e == entry_of(g, #[trigger] list[k])
}

pub proof fn lemma_take_contains(
    f: FuncModel,
    g: GraphState,
    entries: Seq<RangeEntry>,
    list: Seq<u32>,
    i: int,
)
    requires
        graph_ok(f, g),
        0 <= i <= list.len(),
        fits(g, entries, list, i),
        in_order(g.ranges, list),
        forall|k: int| 0 <= k < list.len() ==> (#[trigger] list[k]) < g.ranges.len(),
    ensures
        forall|e: RangeEntry|
            #[trigger] take_ranges(g, entries, list, i).contains(e) <==> entries.contains(e)
                || entry_in(g, list, i, e),
    decreases list.len() - i,
{
    let result = take_ranges(g, entries, list, i);
    if i < list.len() {
        let key = range_key(g, list[i]);
        let lr = LiveRangeIndex(list[i]);
        lemma_first_overlap(entries, key, 0);
        let j = find_overlap(entries, key);
        if j < entries.len() {
            assert(!range_key(g, list[i]).meets(entries[j].0));
        }
        lemma_insert_contains(entries, key, lr);
        let more = entries_insert(entries, key, lr);
        assert(fits(g, more, list, i + 1)) by {
            assert forall|k: int, j: int|
                #![trigger list[k], more[j]]
                i + 1 <= k < list.len() && 0 <= j < more.len() implies !range_key(
                g,
                list[k],
            ).meets(more[j].0) by {
                assert(more.contains(more[j]));
                if more[j] == (key, lr) {
                    lemma_key(f, g, list[i]);
                    lemma_key(f, g, list[k]);
                    assert(g.ranges[list[i] as int].range.precedes(
                        g.ranges[list[k] as int].range,
                    ));
                } else {
                    let m = choose|m: int| 0 <= m < entries.len() && entries[m] == more[j];
                    assert(!range_key(g, list[k]).meets(entries[m].0));
                }
            }
        }
        lemma_take_contains(f, g, more, list, i + 1);
        assert(result == take_ranges(g, more, list, i + 1));
        assert forall|e: RangeEntry| #[trigger] result.contains(e) <==> entries.contains(e)
            || entry_in(g, list, i, e) by {
            assert(result.contains(e) <==> more.contains(e) || entry_in(g, list, i + 1, e));
            if e == (key, lr) {
                assert(e == entry_of(g, list[i]));
            }
            if entry_in(g, list, i + 1, e) {
                let k = choose|k: int| i + 1 <= k < list.len() && e == entry_of(
                    g,
                    #[trigger] list[k],
                );
                assert(e == entry_of(g, list[k]));
            }
            if entry_in(g, list, i, e) {
                let k = choose|k: int| i <= k < list.len() && e == entry_of(g, #[trigger] list[k]);
                if k > i {
                    assert(entry_in(g, list, i + 1, e));
                }
            }
        }
    }
}

proof fn lemma_remove_contains(s: Seq<RangeEntry>, e: RangeEntry)
    requires
        entries_disjoint(s),
        s.contains(e),
    ensures
        entries_disjoint(entries_remove(s, e.0)),
        forall|x: RangeEntry|
            #[trigger] entries_remove(s, e.0).contains(x) <==> s.contains(x) && x != e,
{
    lemma_first_overlap(s, e.0, 0);
    let k = choose|k: int| 0 <= k < s.len() && s[k] == e;
    let i = find_overlap(s, e.0);
    assert(e.0.meets(s[k].0));
    assert(i < s.len() && e.0.meets(s[i].0));
    if i < k {
        assert(s[i].0.to <= s[k].0.from);
    } else if k < i {
        assert(s[k].0.to <= s[i].0.from);
    }
    assert(i == k);
    let t = entries_remove(s, e.0);
    assert(t == s.remove(i));
    assert forall|x: RangeEntry| #[trigger] t.contains(x) <==> s.contains(x) && x != e by {
        if t.contains(x) {
            let j = choose|j: int| 0 <= j < t.len() && t[j] == x;
            let j0 = if j < i {
                j
            } else {
                j + 1
            };
            assert(s[j0] == x);
            if x == e {
                if j0 < i {
                    assert(s[j0].0.to <= s[i].0.from);
                } else {
                    assert(s[i].0.to <= s[j0].0.from);
                }
            }
        }
        if s.contains(x) && x != e {
            let j = choose|j: int| 0 <= j < s.len() && s[j] == x;
            if j < i {
                assert(t[j] == x);
            } else {
                assert(t[j - 1] == x);
            }
        }
    }
    assert forall|a: int, b: int| #![trigger t[a], t[b]] 0 <= a < b < t.len() implies t[a].0.to
        <= t[b].0.from by {
        let a0 = if a < i {
            a
        } else {
            a + 1
        };
        let b0 = if b < i {
            b
        } else {
            b + 1
        };
        assert(s[a0].0.to <= s[b0].0.from);
    }
}

pub proof fn lemma_drop_contains(
    f: FuncModel,
    g: GraphState,
    entries: Seq<RangeEntry>,
    list: Seq<u32>,
    i: int,
)
    requires
        graph_ok(f, g),
        0 <= i <= list.len(),
        entries_disjoint(entries),
        list.no_duplicates(),
        forall|k: int| i <= k < list.len() ==> entries.contains(entry_of(g, #[trigger] list[k])),
    ensures
        forall|e: RangeEntry|
            #[trigger] drop_ranges(g, entries, list, i).contains(e) <==> entries.contains(e)
                && !entry_in(g, list, i, e),
        entries_disjoint(drop_ranges(g, entries, list, i)),
    decreases list.len() - i,
{
    let result = drop_ranges(g, entries, list, i);
    if i < list.len() {
        let e0 = entry_of(g, list[i]);
        lemma_remove_contains(entries, e0);
        let less = entries_remove(entries, e0.0);
        assert forall|k: int| i + 1 <= k < list.len() implies less.contains(
            entry_of(g, #[trigger] list[k]),
        ) by {
            assert(entries.contains(entry_of(g, list[k])));
            assert(list[k] != list[i]);
        }
        lemma_drop_contains(f, g, less, list, i + 1);
        assert(result == drop_ranges(g, less, list, i + 1));
        assert forall|e: RangeEntry| #[trigger] result.contains(e) <==> entries.contains(e)
            && !entry_in(g, list, i, e) by {
            assert(result.contains(e) <==> less.contains(e) && !entry_in(g, list, i + 1, e));
            if entry_in(g, list, i, e) {
                let k = choose|k: int| i <= k < list.len() && e == entry_of(g, #[trigger] list[k]);
                if k > i {
                    assert(entry_in(g, list, i + 1, e));
                }
            } else {
                if e == e0 {
                    assert(e == entry_of(g, list[i]));
                }
                if entry_in(g, list, i + 1, e) {
                    let k = choose|k: int| i + 1 <= k < list.len() && e == entry_of(
                        g,
                        #[trigger] list[k],
                    );
                    assert(e == entry_of(g, list[k]));
                }
            }
        }
    }
}

/// The tables with a new value of bundle `b`, which keeps its spill set.
pub open spec fn with_allocation(g: GraphState, b: u32, alloc: Allocation) -> GraphState {
    graph_set_bundle(g, b, LiveBundle { allocation: alloc, ..g.bundles[b as int] })
}

/// A bundle without a register gets one that fits.
pub proof fn lemma_take_placed(c: Ctx, g: GraphState, pregs: Seq<Seq<RangeEntry>>, b: u32, p: int)
    requires
        graph_ok(c.f, g),
        bundles_in_order(g),
        placed(c, g, pregs),
        b < g.bundles.len(),
        0 <= p < pregs.len(),
        pregs.len() == c.m.regs.len(),
        c.m.regs[p].ix() == p,
        g.bundles[b as int].allocation == Allocation::Nowhere,
        find_conflicts(g, pregs[p], g.in_bundle[b as int], 0, Seq::empty()) matches Some(found)
            && found.len() == 0,
        forall|x: int|
            0 <= x < g.bundles.len() ==> ((#[trigger] g.bundles[x]).allocation.as_reg() matches Some(
                q,
            ) ==> q.ix() < pregs.len()),
    ensures
        placed(
            c,
            with_allocation(g, b, Allocation::Reg(c.m.regs[p])),
            pregs.update(p, take_ranges(g, pregs[p], g.in_bundle[b as int], 0)),
        ),
        forall|e: RangeEntry|
            pregs[p].contains(e) ==> #[trigger] take_ranges(
                g,
                pregs[p],
                g.in_bundle[b as int],
                0,
            ).contains(e),
{
    let list = g.in_bundle[b as int];
    let n = g.ranges.len() as int;
    let h = with_allocation(g, b, Allocation::Reg(c.m.regs[p]));
    let entries = take_ranges(g, pregs[p], list, 0);
    let after = pregs.update(p, entries);
    assert(in_order(g.ranges, g.in_bundle[b as int]));
    lemma_conflicts_none(g, pregs[p], list, 0, Seq::empty());
    assert forall|k: int| 0 <= k < list.len() implies (#[trigger] list[k]) < n by {
        lemma_below(g.in_bundle, n, b as int, k);
    }
    lemma_take_contains(c.f, g, pregs[p], list, 0);
    assert forall|x: int, i: int|
        0 <= x < h.in_bundle.len() && 0 <= i < h.in_bundle[x].len() implies holds(
        h,
        after,
        x,
        #[trigger] h.in_bundle[x][i],
    ) by {
        let r = g.in_bundle[x][i];
        assert(holds(g, pregs, x, r));
        assert(entry_of(h, r) == entry_of(g, r));
        if x == b {
            assert(list[i] == r);
            assert(entry_in(g, list, 0, entry_of(g, list[i])));
            assert(entries.contains(entry_of(g, r)));
        } else {
            if let Some(q) = g.bundles[x].allocation.as_reg() {
                assert(q.ix() < pregs.len());
                assert(pregs[q.ix()].contains(entry_of(g, r)));
                if q.ix() == p {
                    assert(entries.contains(entry_of(g, r)));
                }
            }
        }
    }
    assert forall|q: int, i: int| 0 <= q < after.len() && 0 <= i < after[q].len() implies owned(
        c,
        h,
        q,
        #[trigger] after[q][i],
    ) by {
        let e = after[q][i];
        if q == p {
            assert(entries.contains(entries[i]));
            if pregs[p].contains(e) {
                let j = choose|j: int| 0 <= j < pregs[p].len() && pregs[p][j] == e;
                assert(owned(c, g, p, pregs[p][j]));
            } else {
                assert(entry_in(g, list, 0, e));
                let k = choose|k: int| 0 <= k < list.len() && e == entry_of(g, #[trigger] list[k]);
                assert(g.in_bundle[b as int][k] == list[k]);
                assert(h.in_bundle[b as int].contains(list[k]));
                lemma_key(c.f, g, list[k]);
            }
        } else {
            assert(owned(c, g, q, pregs[q][i]));
        }
    }
}

/// A bundle loses its register.
pub proof fn lemma_drop_placed(c: Ctx, g: GraphState, pregs: Seq<Seq<RangeEntry>>, b: u32, p: int)
    requires
        graph_ok(c.f, g),
        placed(c, g, pregs),
        b < g.bundles.len(),
        0 <= p < pregs.len(),
        pregs.len() == c.m.regs.len(),
        forall|i: int| 0 <= i < c.m.regs.len() ==> (#[trigger] c.m.regs[i]).ix() == i,
        g.bundles[b as int].allocation.as_reg() matches Some(q) && q.ix() == p,
        entries_disjoint(pregs[p]),
        forall|x: int|
            0 <= x < g.bundles.len() ==> ((#[trigger] g.bundles[x]).allocation.as_reg() matches Some(
                q,
            ) ==> q.ix() < pregs.len()),
    ensures
        placed(
            c,
            with_allocation(g, b, Allocation::Nowhere),
            pregs.update(p, drop_ranges(g, pregs[p], g.in_bundle[b as int], 0)),
        ),
        forall|e: RangeEntry|
            pregs[p].contains(e) && g.ranges[e.1.ix()].vreg.is_invalid()
                ==> #[trigger] drop_ranges(g, pregs[p], g.in_bundle[b as int], 0).contains(e),
{
    let list = g.in_bundle[b as int];
    let n = g.ranges.len() as int;
    let h = with_allocation(g, b, Allocation::Nowhere);
    let entries = drop_ranges(g, pregs[p], list, 0);
    let after = pregs.update(p, entries);
    assert(list.no_duplicates()) by {
        assert forall|i: int, j: int| 0 <= i < list.len() && 0 <= j < list.len() && i != j implies list[i]
            != list[j] by {
            if list[i] == list[j] {
                lemma_distinct(g.in_bundle, n, b as int, i, b as int, j);
            }
        }
    }
    assert forall|k: int| 0 <= k < list.len() implies pregs[p].contains(
        entry_of(g, #[trigger] list[k]),
    ) by {
        assert(holds(g, pregs, b as int, g.in_bundle[b as int][k]));
    }
    lemma_drop_contains(c.f, g, pregs[p], list, 0);
    assert forall|e: RangeEntry|
        pregs[p].contains(e) && g.ranges[e.1.ix()].vreg.is_invalid() implies #[trigger] entries.contains(
    e) by {
        if entry_in(g, list, 0, e) {
            let k = choose|k: int| 0 <= k < list.len() && e == entry_of(g, #[trigger] list[k]);
            assert(g.ranges[g.in_bundle[b as int][k] as int].vreg.is_valid());
        }
    }
    assert forall|x: int, i: int|
        0 <= x < h.in_bundle.len() && 0 <= i < h.in_bundle[x].len() implies holds(
        h,
        after,
        x,
        #[trigger] h.in_bundle[x][i],
    ) by {
        let r = g.in_bundle[x][i];
        assert(holds(g, pregs, x, r));
        assert(entry_of(h, r) == entry_of(g, r));
        if x != b {
            if let Some(q) = g.bundles[x].allocation.as_reg() {
                assert(pregs[q.ix()].contains(entry_of(g, r)));
                if q.ix() == p {
                    if entry_in(g, list, 0, entry_of(g, r)) {
                        let k = choose|k: int| 0 <= k < list.len() && entry_of(g, r) == entry_of(
                            g,
                            #[trigger] list[k],
                        );
                        lemma_distinct(g.in_bundle, n, x, i, b as int, k);
                    }
                    assert(entries.contains(entry_of(g, r)));
                }
            }
        }
    }
    assert forall|q: int, i: int| 0 <= q < after.len() && 0 <= i < after[q].len() implies owned(
        c,
        h,
        q,
        #[trigger] after[q][i],
    ) by {
        let e = after[q][i];
        let r = e.1.0;
        if q == p {
            assert(entries.contains(entries[i]));
            let j = choose|j: int| 0 <= j < pregs[p].len() && pregs[p][j] == e;
            assert(owned(c, g, p, pregs[p][j]));
        } else {
            assert(owned(c, g, q, pregs[q][i]));
        }
        if g.ranges[r as int].vreg.is_valid() && g.ranges[r as int].bundle.0 == b {
            assert(c.m.regs[q].ix() == q);
            assert(q == p);
            let k = choose|k: int| 0 <= k < list.len() && list[k] == r;
            assert(e == entry_of(g, list[k]));
            assert(entry_in(g, list, 0, e));
        }
    }
}

/// Bundles may change in what is not their spill set.
pub proof fn lemma_ordered_same(g: GraphState, h: GraphState, n: int, m: int)
    requires
        ordered(g, n),
        same_lists(g, h),
        n <= m,
        forall|b: int|
            0 <= b < g.bundles.len() ==> (#[trigger] h.bundles[b]).spillset == g.bundles[b].spillset,
    ensures
        ordered(h, m),
{
    assert forall|v: int| 0 <= v < h.in_vreg.len() implies in_order(
        h.ranges,
        #[trigger] h.in_vreg[v],
    ) by {
        assert(in_order(g.ranges, g.in_vreg[v]));
    }
    assert forall|b: int| 0 <= b < h.in_bundle.len() implies in_order(
        h.ranges,
        #[trigger] h.in_bundle[b],
    ) by {
        assert(in_order(g.ranges, g.in_bundle[b]));
    }
    assert forall|a: int, b: int|
        #![trigger h.in_bundle[a], h.in_bundle[b]]
        0 <= a < h.bundles.len() && 0 <= b < h.bundles.len() && a != b
            && h.bundles[a].spillset.is_valid() && h.bundles[a].spillset
            == h.bundles[b].spillset implies apart(
        h.ranges,
        h.in_bundle[a],
        h.in_bundle[b],
    ) by {
        assert(apart(g.ranges, g.in_bundle[a], g.in_bundle[b]));
    }
}

/// A bundle gets a new spill set.
pub proof fn lemma_new_set_ordered(g: GraphState, b: u32, data: LiveBundle, n: int)
    requires
        ordered(g, n),
        b < g.bundles.len(),
        data.spillset.0 == n,
    ensures
        ordered(graph_set_bundle(g, b, data), n + 1),
{
    let h = graph_set_bundle(g, b, data);
    assert forall|v: int| 0 <= v < h.in_vreg.len() implies in_order(
        h.ranges,
        #[trigger] h.in_vreg[v],
    ) by {
        assert(in_order(g.ranges, g.in_vreg[v]));
    }
    assert forall|b: int| 0 <= b < h.in_bundle.len() implies in_order(
        h.ranges,
        #[trigger] h.in_bundle[b],
    ) by {
        assert(in_order(g.ranges, g.in_bundle[b]));
    }
    assert forall|x: int, y: int|
        #![trigger h.in_bundle[x], h.in_bundle[y]]
        0 <= x < h.bundles.len() && 0 <= y < h.bundles.len() && x != y
            && h.bundles[x].spillset.is_valid() && h.bundles[x].spillset
            == h.bundles[y].spillset implies apart(
        h.ranges,
        h.in_bundle[x],
        h.in_bundle[y],
    ) by {
        if x == b {
            assert(g.bundles[y].spillset.0 < n);
        } else if y == b {
            assert(g.bundles[x].spillset.0 < n);
        } else {
            assert(apart(g.ranges, g.in_bundle[x], g.in_bundle[y]));
        }
    }
}

/// A bundle that is idle is queued.
pub proof fn lemma_queue_waiting(s: AllocState, e: PrioQueueEntry)
    requires
        waiting(s.g, s.queue, s.spilled),
        is_idle(s, e.bundle.0),
    ensures
        waiting(s.g, queue_insert(s.queue, e), s.spilled),
{
    let q = s.queue;
    let t = queue_insert(q, e);
    let p = queue_position(q, e, 0);
    lemma_queue_position(q, e, 0);
    assert forall|i: int| 0 <= i < t.len() implies #[trigger] t[i] == (if i < p {
        q[i]
    } else if i == p {
        e
    } else {
        q[i - 1]
    }) by {}
    assert forall|i: int, j: int| #![trigger t[i], t[j]] 0 <= i < j < t.len() implies t[i].bundle
        != t[j].bundle by {
        let i0 = if i < p {
            i
        } else {
            i - 1
        };
        let j0 = if j < p {
            j
        } else {
            j - 1
        };
        if i == p {
            assert(q[j0].bundle.0 != e.bundle.0);
        } else if j == p {
            assert(q[i0].bundle.0 != e.bundle.0);
        } else {
            assert(q[i0].bundle != q[j0].bundle);
        }
    }
    assert forall|i: int, j: int|
        #![trigger t[i], s.spilled[j]]
        0 <= i < t.len() && 0 <= j < s.spilled.len() implies t[i].bundle != s.spilled[j] by {
        if i == p {
            assert(s.spilled[j] != LiveBundleIndex(e.bundle.0));
        } else {
            let i0 = if i < p {
                i
            } else {
                i - 1
            };
            assert(q[i0].bundle != s.spilled[j]);
        }
    }
    assert forall|i: int| 0 <= i < t.len() implies s.g.bundles[(
    #[trigger] t[i]).bundle.ix()].allocation == Allocation::Nowhere by {
        if i != p {
            let i0 = if i < p {
                i
            } else {
                i - 1
            };
            assert(s.g.bundles[q[i0].bundle.ix()].allocation == Allocation::Nowhere);
        }
    }
}

proof fn lemma_split_ordered(c: Ctx, g: GraphState, home: u32, s: Cut, n: int)
    requires
        graph_ok(c.f, g),
        graph_ok(c.f, s.g),
        ordered(g, n),
        parts_ok(g, home, s),
        split_keeps(g, s.g, home, s.made),
    ensures
        ordered(s.g, n),
{
    let h = s.g;
    let k = g.bundles.len() as int;
    let list = g.in_bundle[home as int];
    assert(in_order(g.ranges, g.in_bundle[home as int]));
    // Other bundles keep their live ranges, and these their extent.
    assert forall|b: int, i: int|
        0 <= b < k && b != home && 0 <= i < h.in_bundle[b].len() implies #[trigger] h.in_bundle[b][i]
        == g.in_bundle[b][i] && h.ranges[h.in_bundle[b][i] as int]
        == g.ranges[g.in_bundle[b][i] as int] by {
        assert(h.in_bundle[b] == g.in_bundle[b]);
        let r = g.in_bundle[b][i];
        lemma_below(g.in_bundle, g.ranges.len() as int, b, i);
        if list.contains(r) {
            let j = choose|j: int| 0 <= j < list.len() && list[j] == r;
            lemma_distinct(g.in_bundle, g.ranges.len() as int, b, i, home as int, j);
        }
        assert(h.ranges[r as int] == g.ranges[r as int]);
    }
    assert forall|b: int| 0 <= b < h.in_bundle.len() implies in_order(
        h.ranges,
        #[trigger] h.in_bundle[b],
    ) by {
        if is_part(k, home, b) {
            assert forall|i: int, j: int|
                #![trigger h.in_bundle[b][i], h.in_bundle[b][j]]
                0 <= i < j < h.in_bundle[b].len() implies h.ranges[h.in_bundle[b][i] as int].range.precedes(
            h.ranges[h.in_bundle[b][j] as int].range) by {
                assert(member(h, b, i).precedes(member(h, b, j)));
            }
        } else {
            assert(h.in_bundle[b] == g.in_bundle[b]);
            assert(in_order(g.ranges, g.in_bundle[b]));
            assert forall|i: int, j: int|
                #![trigger h.in_bundle[b][i], h.in_bundle[b][j]]
                0 <= i < j < h.in_bundle[b].len() implies h.ranges[h.in_bundle[b][i] as int].range.precedes(
            h.ranges[h.in_bundle[b][j] as int].range) by {
                assert(g.ranges[g.in_bundle[b][i] as int].range.precedes(
                    g.ranges[g.in_bundle[b][j] as int].range,
                ));
            }
        }
    }
    assert forall|b: int| 0 <= b < h.bundles.len() implies (#[trigger] h.bundles[b]).spillset == (
    if b < k {
        g.bundles[b].spillset
    } else {
        g.bundles[home as int].spillset
    }) by {
        if b < k {
            assert(h.bundles.take(k)[b] == h.bundles[b]);
        } else {
            assert(h.bundles[b] == split_off_bundle(g, home));
        }
    }
    assert forall|x: int, y: int|
        #![trigger h.in_bundle[x], h.in_bundle[y]]
        0 <= x < h.bundles.len() && 0 <= y < h.bundles.len() && x != y
            && h.bundles[x].spillset.is_valid() && h.bundles[x].spillset
            == h.bundles[y].spillset implies apart(
        h.ranges,
        h.in_bundle[x],
        h.in_bundle[y],
    ) by {
        let hx = is_part(k, home, x);
        let hy = is_part(k, home, y);
        assert(h.bundles[x].spillset == h.bundles[y].spillset);
        if !hx && !hy {
            assert(apart(g.ranges, g.in_bundle[x], g.in_bundle[y]));
        } else if hx && !hy {
            assert(apart(g.ranges, g.in_bundle[home as int], g.in_bundle[y]));
            assert(parts_apart(g, h, home, y));
        } else if hy && !hx {
            assert(apart(g.ranges, g.in_bundle[x], g.in_bundle[home as int]));
            assert(apart(g.ranges, g.in_bundle[home as int], g.in_bundle[x])) by {
                let a = g.in_bundle[home as int];
                let b = g.in_bundle[x];
                assert forall|i: int, j: int|
                    #![trigger a[i], b[j]]
                    0 <= i < a.len() && 0 <= j < b.len() implies g.ranges[a[i] as int].range.precedes(
                g.ranges[b[j] as int].range) || g.ranges[b[j] as int].range.precedes(
                    g.ranges[a[i] as int].range,
                ) by {
                    assert(g.in_bundle[x][j] == b[j]);
                }
            }
            assert(parts_apart(g, h, home, x));
        }
        assert forall|i: int, j: int|
            #![trigger h.in_bundle[x][i], h.in_bundle[y][j]]
            0 <= i < h.in_bundle[x].len() && 0 <= j < h.in_bundle[y].len() implies h.ranges[h.in_bundle[x][i] as int].range.precedes(
        h.ranges[h.in_bundle[y][j] as int].range) || h.ranges[h.in_bundle[y][j] as int].range.precedes(
            h.ranges[h.in_bundle[x][i] as int].range,
        ) by {
            let a = member(h, x, i);
            let b = member(h, y, j);
            if !hx && !hy {
                let a0 = g.ranges[g.in_bundle[x][i] as int].range;
                let b0 = g.ranges[g.in_bundle[y][j] as int].range;
                assert(a0.precedes(b0) || b0.precedes(a0));
            } else {
                assert(a.precedes(b) || b.precedes(a));
            }
        }
    }
}

/// A split of a bundle without a register leaves the search sound.
pub proof fn lemma_split_sound(c: Ctx, s: AllocState, t: AllocState, home: u32, cut: Cut)
    requires
        base_ok(c, s),
        sound(c, s),
        t == (AllocState { g: t.g, stats: t.stats, ..s }),
        cut.g == t.g,
        graph_ok(c.f, t.g),
        parts_ok(s.g, home, cut),
        split_keeps(s.g, t.g, home, cut.made),
        s.g.bundles[home as int].allocation == Allocation::Nowhere,
    ensures
        sound(c, t),
{
    let g = s.g;
    let h = t.g;
    let k = g.bundles.len() as int;
    let list = g.in_bundle[home as int];
    lemma_split_ordered(c, g, home, cut, s.spillsets.len() as int);
    assert forall|b: int| 0 <= b < h.bundles.len() implies (#[trigger] h.bundles[b]).allocation == (
    if b < k {
        g.bundles[b].allocation
    } else {
        Allocation::Nowhere
    }) by {
        if b < k {
            assert(h.bundles.take(k)[b] == h.bundles[b]);
        } else {
            assert(h.bundles[b] == split_off_bundle(g, home));
        }
    }
    assert forall|b: int, i: int|
        0 <= b < h.in_bundle.len() && 0 <= i < h.in_bundle[b].len() implies holds(
        h,
        t.pregs,
        b,
        #[trigger] h.in_bundle[b][i],
    ) by {
        assert(h.bundles[b].allocation == (if b < k {
            g.bundles[b].allocation
        } else {
            Allocation::Nowhere
        }));
        if b < k && b != home {
            assert(h.in_bundle[b] == g.in_bundle[b]);
            let r = g.in_bundle[b][i];
            assert(holds(g, s.pregs, b, r));
            lemma_below(g.in_bundle, g.ranges.len() as int, b, i);
            if list.contains(r) {
                let j = choose|j: int| 0 <= j < list.len() && list[j] == r;
                lemma_distinct(g.in_bundle, g.ranges.len() as int, b, i, home as int, j);
            }
            assert(h.ranges[r as int] == g.ranges[r as int]);
        }
    }
    assert forall|p: int, i: int| 0 <= p < t.pregs.len() && 0 <= i < t.pregs[p].len() implies owned(
        c,
        h,
        p,
        #[trigger] t.pregs[p][i],
    ) by {
        let e = s.pregs[p][i];
        let r = e.1.0;
        assert(owned(c, g, p, s.pregs[p][i]));
        assert(preg_ok(g, s.spillsets.len() as int, s.pregs[p]));
        assert(r < g.ranges.len());
        assert(h.ranges[r as int].vreg == g.ranges[r as int].vreg);
        if g.ranges[r as int].vreg.is_valid() {
            let b = g.ranges[r as int].bundle.ix();
            let j = choose|j: int| 0 <= j < g.in_bundle[b].len() && g.in_bundle[b][j] == r;
            if list.contains(r) {
                let m = choose|m: int| 0 <= m < list.len() && list[m] == r;
                lemma_distinct(g.in_bundle, g.ranges.len() as int, b, j, home as int, m);
            }
            assert(h.ranges[r as int] == g.ranges[r as int]);
            assert(h.in_bundle[b] == g.in_bundle[b]);
            assert(h.bundles[b].allocation == g.bundles[b].allocation);
        }
    }
    assert forall|i: int| 0 <= i < t.queue.len() implies h.bundles[(
    #[trigger] t.queue[i]).bundle.ix()].allocation == Allocation::Nowhere by {
        assert(queued_ok(g, s.spillsets.len() as int, s.queue[i].bundle.0));
        assert(h.bundles[s.queue[i].bundle.ix()].allocation
            == g.bundles[s.queue[i].bundle.ix()].allocation);
    }
}

} // verus!
