//! Eviction undoes what giving a register did.
use crate::assign::{alloc_ok, preg_ok, AllocState};
use crate::code_range::{entries_disjoint, RangeEntry};
use crate::graph::GraphState;
use crate::index::LiveBundleIndex;
use crate::lists::{lemma_below, lemma_distinct};
use crate::liveness::Ctx;
use crate::order::in_order;
use crate::place::{
    entry_in, entry_of, lemma_conflicts_none, lemma_drop_contains, lemma_key, lemma_take_contains,
};
use crate::probe::{alloc_evict, alloc_try, drop_ranges, range_key, take_ranges};
use crate::queue::{queue_insert, PrioQueueEntry};
use crate::reg::Allocation;
use crate::slots::lemma_take_disjoint;
use vstd::prelude::*;

verus! {

proof fn lemma_last_entry(a: Seq<RangeEntry>, b: Seq<RangeEntry>)
    requires
        entries_disjoint(a),
        entries_disjoint(b),
        a.len() > 0,
        b.len() > 0,
        forall|e: RangeEntry| a.contains(e) <==> b.contains(e),
    ensures
        a.last() == b.last(),
{
    let x = a.last();
    let y = b.last();
    assert(a.contains(a[a.len() - 1]));
    assert(b.contains(b[b.len() - 1]));
    assert(b.contains(x));
    assert(a.contains(y));
    let i = choose|i: int| 0 <= i < b.len() && b[i] == x;
    let j = choose|j: int| 0 <= j < a.len() && a[j] == y;
    if i < b.len() - 1 {
        assert(b[i].0.to <= b[b.len() - 1].0.from);
        if j < a.len() - 1 {
            assert(a[j].0.to <= a[a.len() - 1].0.from);
        }
    }
}

proof fn lemma_drop_last_contains(a: Seq<RangeEntry>, e: RangeEntry)
    requires
        entries_disjoint(a),
        a.len() > 0,
    ensures
        a.drop_last().contains(e) <==> a.contains(e) && e != a.last(),
        entries_disjoint(a.drop_last()),
{
    let t = a.drop_last();
    if t.contains(e) {
        let i = choose|i: int| 0 <= i < t.len() && t[i] == e;
        assert(a[i] == e);
        assert(a[i].0.to <= a[a.len() - 1].0.from);
    }
    if a.contains(e) && e != a.last() {
        let i = choose|i: int| 0 <= i < a.len() && a[i] == e;
        assert(t[i] == e);
    }
    assert forall|i: int, j: int| #![trigger t[i], t[j]] 0 <= i < j < t.len() implies t[i].0.to
        <= t[j].0.from by {
        assert(a[i].0.to <= a[j].0.from);
    }
    assert forall|i: int| 0 <= i < t.len() implies (#[trigger] t[i]).0.from < t[i].0.to by {
        assert(a[i].0.from < a[i].0.to);
    }
}

/// Entries that do not reach into each other are known by what is among them.
pub proof fn lemma_same_entries(a: Seq<RangeEntry>, b: Seq<RangeEntry>)
    requires
        entries_disjoint(a),
        entries_disjoint(b),
        forall|e: RangeEntry| a.contains(e) <==> b.contains(e),
    ensures
        a == b,
    decreases a.len(),
{
    if a.len() == 0 {
        if b.len() > 0 {
            assert(b.contains(b[0]));
            assert(a.contains(b[0]));
        }
        assert(a =~= b);
    } else if b.len() == 0 {
        assert(a.contains(a[0]));
        assert(b.contains(a[0]));
    } else {
        lemma_last_entry(a, b);
        assert forall|e: RangeEntry| a.drop_last().contains(e) <==> b.drop_last().contains(e) by {
            lemma_drop_last_contains(a, e);
            lemma_drop_last_contains(b, e);
        }
        lemma_drop_last_contains(a, a.last());
        lemma_drop_last_contains(b, b.last());
        lemma_same_entries(a.drop_last(), b.drop_last());
        assert(a =~= a.drop_last().push(a.last()));
        assert(b =~= b.drop_last().push(b.last()));
    }
}

/// A bundle that was given a register and is evicted leaves everything as it was, but that it is
/// queued now.
pub proof fn law_evict_undoes_try(c: Ctx, s: AllocState, b: u32, p: int)
    requires
        alloc_ok(c, s),
        b < s.g.bundles.len(),
        s.g.bundles[b as int].allocation == Allocation::Nowhere,
        0 <= p < s.pregs.len(),
        c.m.regs[p].ix() == p,
        alloc_try(c, s, b, p).1 is Allocated,
    ensures
        alloc_evict(alloc_try(c, s, b, p).0, b) == (AllocState {
            queue: queue_insert(
                s.queue,
                PrioQueueEntry {
                    prio: s.g.bundles[b as int].prio,
                    bundle: LiveBundleIndex(b),
                },
            ),
            ..s
        }),
{
    let t = alloc_try(c, s, b, p).0;
    let u = alloc_evict(t, b);
    let g = s.g;
    let n = g.ranges.len() as int;
    let list = g.in_bundle[b as int];
    let entries = s.pregs[p];
    let more = take_ranges(g, entries, list, 0);
    assert(preg_ok(g, s.spillsets.len() as int, s.pregs[p]));
    assert forall|k: int| 0 <= k < list.len() implies (#[trigger] list[k]) < n by {
        lemma_below(g.in_bundle, n, b as int, k);
    }
    assert(list.no_duplicates()) by {
        assert forall|x: int, y: int| 0 <= x < list.len() && 0 <= y < list.len() && x != y implies list[x]
            != list[y] by {
            if list[x] == list[y] {
                lemma_distinct(g.in_bundle, n, b as int, x, b as int, y);
            }
        }
    }
    lemma_conflicts_none(g, entries, list, 0, Seq::empty());
    assert(in_order(g.ranges, g.in_bundle[b as int]));
    lemma_take_contains(c.f, g, entries, list, 0);
    lemma_take_disjoint(c.f, g, entries, list, 0);
    assert forall|k: int| 0 <= k < list.len() implies more.contains(
        entry_of(g, #[trigger] list[k]),
    ) by {
        assert(entry_in(g, list, 0, entry_of(g, list[k])));
    }
    lemma_drop_contains(c.f, g, more, list, 0);
    let less = drop_ranges(g, more, list, 0);
    assert forall|e: RangeEntry| less.contains(e) <==> entries.contains(e) by {
        assert(more.contains(e) <==> entries.contains(e) || entry_in(g, list, 0, e));
        if entries.contains(e) && entry_in(g, list, 0, e) {
            let k = choose|k: int| 0 <= k < list.len() && e == entry_of(g, #[trigger] list[k]);
            let m = choose|m: int| 0 <= m < entries.len() && entries[m] == e;
            lemma_key(c.f, g, list[k]);
            assert(!range_key(g, list[k]).meets(entries[m].0));
        }
    }
    lemma_same_entries(less, entries);
    lemma_same_drop(g, t.g, more, list, 0);
    assert(u.g.bundles =~= s.g.bundles);
    assert(u.pregs =~= s.pregs);
    assert(u =~= AllocState { queue: u.queue, ..s });
}

proof fn lemma_same_drop(
    g: GraphState,
    h: GraphState,
    entries: Seq<RangeEntry>,
    list: Seq<u32>,
    i: int,
)
    requires
        h.ranges == g.ranges,
    ensures
        drop_ranges(h, entries, list, i) == drop_ranges(g, entries, list, i),
    decreases list.len() - i,
{
    if 0 <= i < list.len() {
        lemma_same_drop(
            g,
            h,
            crate::code_range::entries_remove(entries, range_key(g, list[i])),
            list,
            i + 1,
        );
    }
}

} // verus!
