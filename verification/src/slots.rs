//! No spill slot is given to two live ranges at one point.
use crate::assign::SpillSetState;
use crate::code_range::{
    entries_disjoint, entries_get, entries_insert, find_overlap, first_not_before,
    lemma_first_not_before, lemma_first_overlap, LiveRangeKey, RangeEntry,
};
use crate::func::FuncModel;
use crate::graph::{graph_ok, GraphState};
use crate::index::LiveRangeIndex;
use crate::lists::lemma_below;
use crate::order::{apart, bundles_in_order, in_order};
use crate::place::{entry_in, entry_of, fits, lemma_insert_contains, lemma_key, lemma_take_contains};
use crate::probe::{range_key, take_ranges};
use crate::reg::Allocation;
use crate::spill::{
    align_up, bundles_exist, fill_slot, lemma_align_up, slot_assign, slot_fits, slot_places,
    SlotData, SlotState,
};
use vstd::prelude::*;

verus! {

/// The live ranges of the bundles do not reach into each other.
pub open spec fn set_ready(g: GraphState, bundles: Seq<u32>) -> bool {
    &&& bundles_exist(g, bundles)
    &&& bundles_in_order(g)
    &&& forall|a: int, b: int|
        #![trigger bundles[a], bundles[b]]
        0 <= a < b < bundles.len() ==> apart(
            g.ranges,
            g.in_bundle[bundles[a] as int],
            g.in_bundle[bundles[b] as int],
        )
}

/// The live ranges of a spill set with a slot are entries of the slot.
pub open spec fn set_in_slot(g: GraphState, s: SlotState, i: int) -> bool {
    let set = s.spillsets[i];
    set.slot.is_valid() ==> {
        &&& set.slot.0 < s.slots.len()
        &&& forall|k: int, x: int|
            0 <= k < set.bundles.len() && 0 <= x < g.in_bundle[set.bundles[k] as int].len()
                ==> s.slots[set.slot.ix()].ranges.contains(
                entry_of(g, #[trigger] g.in_bundle[set.bundles[k] as int][x]),
            )
    }
}

/// The live ranges of the spill sets with slots are entries of their slots, and the entries of a
/// slot do not reach into each other.
pub open spec fn slots_sound(g: GraphState, s: SlotState) -> bool {
    &&& forall|i: int|
        0 <= i < s.spillsets.len() ==> set_ready(g, (#[trigger] s.spillsets[i]).bundles)
    &&& forall|i: int| 0 <= i < s.spillsets.len() ==> #[trigger] set_in_slot(g, s, i)
    &&& forall|j: int| 0 <= j < s.slots.len() ==> entries_disjoint((#[trigger] s.slots[j]).ranges)
}

/// Spill set number `i` got a slot, and the other spill sets are as they were.
pub open spec fn set_with_slot(s: SlotState, t: SlotState, i: int) -> bool {
    &&& t.spillsets[i].slot.is_valid()
    &&& t.spillsets == s.spillsets.update(
        i,
        SpillSetState { slot: t.spillsets[i].slot, ..s.spillsets[i] },
    )
}

/// Of the first `n` spill sets those that hold bundles have slots; nothing else changed in the
/// spill sets.
pub open spec fn sets_with_slots(s: SlotState, t: SlotState, n: int) -> bool {
    &&& t.spillsets.len() == s.spillsets.len()
    &&& forall|i: int|
        0 <= i < s.spillsets.len() ==> #[trigger] t.spillsets[i] == (SpillSetState {
            slot: t.spillsets[i].slot,
            ..s.spillsets[i]
        })
    &&& forall|i: int|
        0 <= i < n && (#[trigger] t.spillsets[i]).bundles.len() > 0
            ==> t.spillsets[i].slot.is_valid()
}

proof fn lemma_insert_disjoint(s: Seq<RangeEntry>, key: LiveRangeKey, lr: LiveRangeIndex)
    requires
        entries_disjoint(s),
        key.from < key.to,
        entries_get(s, key) is None,
    ensures
        entries_disjoint(entries_insert(s, key, lr)),
{
    lemma_first_overlap(s, key, 0);
    lemma_first_not_before(s, key, 0);
    let p = first_not_before(s, key, 0);
    let t = entries_insert(s, key, lr);
    assert forall|i: int| 0 <= i < t.len() implies #[trigger] t[i] == (if i < p {
        s[i]
    } else if i == p {
        (key, lr)
    } else {
        s[i - 1]
    }) by {}
    assert forall|i: int| p <= i < s.len() implies key.to <= (#[trigger] s[i]).0.from by {
        assert(!key.meets(s[p].0));
        if i > p {
            assert(s[p].0.to <= s[i].0.from);
        }
    }
    assert forall|i: int, j: int| #![trigger t[i], t[j]] 0 <= i < j < t.len() implies t[i].0.to
        <= t[j].0.from by {
        let i0 = if i < p {
            i
        } else {
            i - 1
        };
        let j0 = if j < p {
            j
        } else {
            j - 1
        };
        if i == p {
            assert(key.to <= s[j0].0.from);
        } else if j == p {
            assert(s[i0].0.to <= key.from);
        } else {
            assert(s[i0].0.to <= s[j0].0.from);
        }
    }
}

pub proof fn lemma_take_disjoint(
    f: FuncModel,
    g: GraphState,
    entries: Seq<RangeEntry>,
    list: Seq<u32>,
    i: int,
)
    requires
        graph_ok(f, g),
        0 <= i <= list.len(),
        entries_disjoint(entries),
        fits(g, entries, list, i),
        in_order(g.ranges, list),
        forall|k: int| 0 <= k < list.len() ==> (#[trigger] list[k]) < g.ranges.len(),
    ensures
        entries_disjoint(take_ranges(g, entries, list, i)),
    decreases list.len() - i,
{
    if i < list.len() {
        let key = range_key(g, list[i]);
        let lr = LiveRangeIndex(list[i]);
        lemma_key(f, g, list[i]);
        lemma_first_overlap(entries, key, 0);
        let j = find_overlap(entries, key);
        if j < entries.len() {
            assert(!range_key(g, list[i]).meets(entries[j].0));
        }
        lemma_insert_disjoint(entries, key, lr);
        lemma_insert_contains(entries, key, lr);
        let more = entries_insert(entries, key, lr);
        assert forall|k: int, j: int|
            #![trigger list[k], more[j]]
            i + 1 <= k < list.len() && 0 <= j < more.len() implies !range_key(g, list[k]).meets(
            more[j].0,
        ) by {
            assert(more.contains(more[j]));
            if more[j] == (key, lr) {
                lemma_key(f, g, list[k]);
                assert(g.ranges[list[i] as int].range.precedes(g.ranges[list[k] as int].range));
            } else {
                let m = choose|m: int| 0 <= m < entries.len() && entries[m] == more[j];
                assert(!range_key(g, list[k]).meets(entries[m].0));
            }
        }
        lemma_take_disjoint(f, g, more, list, i + 1);
    }
}

/// The live ranges of the bundles go into the entries, and what was there stays.
proof fn lemma_fill(
    f: FuncModel,
    g: GraphState,
    entries: Seq<RangeEntry>,
    bundles: Seq<u32>,
    k: int,
)
    requires
        graph_ok(f, g),
        0 <= k <= bundles.len(),
        set_ready(g, bundles),
        entries_disjoint(entries),
        forall|x: int|
            k <= x < bundles.len() ==> fits(
                g,
                entries,
                g.in_bundle[(#[trigger] bundles[x]) as int],
                0,
            ),
    ensures
        entries_disjoint(fill_slot(g, entries, bundles, k)),
        forall|e: RangeEntry|
            entries.contains(e) ==> #[trigger] fill_slot(g, entries, bundles, k).contains(e),
        forall|x: int, i: int|
            k <= x < bundles.len() && 0 <= i < g.in_bundle[bundles[x] as int].len() ==> fill_slot(
                g,
                entries,
                bundles,
                k,
            ).contains(entry_of(g, #[trigger] g.in_bundle[bundles[x] as int][i])),
    decreases bundles.len() - k,
{
    if k < bundles.len() {
        let n = g.ranges.len() as int;
        let b = bundles[k] as int;
        let list = g.in_bundle[b];
        assert(b < g.bundles.len());
        assert(in_order(g.ranges, g.in_bundle[b]));
        assert(fits(g, entries, g.in_bundle[bundles[k] as int], 0));
        assert forall|i: int| 0 <= i < list.len() implies (#[trigger] list[i]) < n by {
            lemma_below(g.in_bundle, n, b, i);
        }
        lemma_take_contains(f, g, entries, list, 0);
        lemma_take_disjoint(f, g, entries, list, 0);
        let more = take_ranges(g, entries, list, 0);
        assert forall|x: int| k + 1 <= x < bundles.len() implies fits(
            g,
            more,
            g.in_bundle[(#[trigger] bundles[x]) as int],
            0,
        ) by {
            let other = g.in_bundle[bundles[x] as int];
            assert(bundles[x] < g.bundles.len());
            assert(fits(g, entries, other, 0));
            assert(apart(g.ranges, g.in_bundle[bundles[k] as int], other));
            assert forall|i: int, j: int|
                #![trigger other[i], more[j]]
                0 <= i < other.len() && 0 <= j < more.len() implies !range_key(g, other[i]).meets(
                more[j].0,
            ) by {
                assert(more.contains(more[j]));
                lemma_below(g.in_bundle, n, bundles[x] as int, i);
                if entries.contains(more[j]) {
                    let m = choose|m: int| 0 <= m < entries.len() && entries[m] == more[j];
                    assert(!range_key(g, other[i]).meets(entries[m].0));
                } else {
                    assert(entry_in(g, list, 0, more[j]));
                    let m = choose|m: int| 0 <= m < list.len() && more[j] == entry_of(
                        g,
                        #[trigger] list[m],
                    );
                    lemma_key(f, g, list[m]);
                    lemma_key(f, g, other[i]);
                    let p = g.ranges[list[m] as int].range;
                    let q = g.ranges[other[i] as int].range;
                    assert(p.precedes(q) || q.precedes(p));
                }
            }
        }
        lemma_fill(f, g, more, bundles, k + 1);
        let result = fill_slot(g, entries, bundles, k);
        assert(result == fill_slot(g, more, bundles, k + 1));
        assert forall|e: RangeEntry| entries.contains(e) implies #[trigger] result.contains(e) by {
            assert(more.contains(e));
        }
        assert forall|x: int, i: int|
            k <= x < bundles.len() && 0 <= i < g.in_bundle[bundles[x] as int].len() implies result.contains(
        entry_of(g, #[trigger] g.in_bundle[bundles[x] as int][i])) by {
            if x == k {
                let e = entry_of(g, list[i]);
                assert(entry_in(g, list, 0, e));
                assert(more.contains(e));
            }
        }
    }
}

proof fn lemma_slot_fits(g: GraphState, entries: Seq<RangeEntry>, bundles: Seq<u32>, x: int)
    requires
        slot_fits(g, entries, bundles),
        0 <= x < bundles.len(),
    ensures
        fits(g, entries, g.in_bundle[bundles[x] as int], 0),
{
    let list = g.in_bundle[bundles[x] as int];
    assert forall|k: int, j: int|
        #![trigger list[k], entries[j]]
        0 <= k < list.len() && 0 <= j < entries.len() implies !range_key(g, list[k]).meets(
        entries[j].0,
    ) by {
        let key = range_key(g, g.in_bundle[bundles[x] as int][k]);
        assert(entries_get(entries, key) is None);
        lemma_first_overlap(entries, key, 0);
    }
}

/// A spill set gets a slot that it fits into.
pub proof fn lemma_assign_sound(f: FuncModel, g: GraphState, s: SlotState, set: int, slot: u32)
    requires
        graph_ok(f, g),
        slots_sound(g, s),
        0 <= set < s.spillsets.len(),
        slot < s.slots.len(),
        slot != u32::MAX,
        slot_fits(g, s.slots[slot as int].ranges, s.spillsets[set].bundles),
    ensures
        slots_sound(g, slot_assign(g, s, set, slot)),
{
    let t = slot_assign(g, s, set, slot);
    let bundles = s.spillsets[set].bundles;
    let entries = s.slots[slot as int].ranges;
    assert(set_ready(g, s.spillsets[set].bundles));
    assert(entries_disjoint(s.slots[slot as int].ranges));
    assert forall|x: int| 0 <= x < bundles.len() implies fits(
        g,
        entries,
        g.in_bundle[(#[trigger] bundles[x]) as int],
        0,
    ) by {
        lemma_slot_fits(g, entries, bundles, x);
    }
    lemma_fill(f, g, entries, bundles, 0);
    assert forall|i: int| 0 <= i < t.spillsets.len() implies #[trigger] set_in_slot(g, t, i) by {
        assert(set_in_slot(g, s, i));
        let b = t.spillsets[i].bundles;
        assert(b == s.spillsets[i].bundles);
        if t.spillsets[i].slot.is_valid() {
            let j = t.spillsets[i].slot.ix();
            assert forall|k: int, x: int|
                0 <= k < b.len() && 0 <= x < g.in_bundle[b[k] as int].len() implies t.slots[j].ranges.contains(
            entry_of(g, #[trigger] g.in_bundle[b[k] as int][x])) by {
                let e = entry_of(g, g.in_bundle[b[k] as int][x]);
                if i != set {
                    assert(s.slots[s.spillsets[i].slot.ix()].ranges.contains(e));
                }
            }
        }
    }
    assert forall|i: int| 0 <= i < t.spillsets.len() implies set_ready(
        g,
        (#[trigger] t.spillsets[i]).bundles,
    ) by {
        assert(set_ready(g, s.spillsets[i].bundles));
    }
    assert forall|j: int| 0 <= j < t.slots.len() implies entries_disjoint(
        (#[trigger] t.slots[j]).ranges,
    ) by {
        assert(entries_disjoint(s.slots[j].ranges));
    }
}

/// Slots may change in what is not their entries, and there may be new ones.
pub proof fn lemma_same_entries_sound(g: GraphState, s: SlotState, t: SlotState)
    requires
        slots_sound(g, s),
        t.spillsets == s.spillsets,
        t.slots.len() >= s.slots.len(),
        forall|j: int| 0 <= j < s.slots.len() ==> (#[trigger] t.slots[j]).ranges == s.slots[j].ranges,
        forall|j: int|
            s.slots.len() <= j < t.slots.len() ==> (#[trigger] t.slots[j]).ranges.len() == 0,
    ensures
        slots_sound(g, t),
{
    assert forall|i: int| 0 <= i < t.spillsets.len() implies #[trigger] set_in_slot(g, t, i) by {
        assert(set_in_slot(g, s, i));
        if s.spillsets[i].slot.is_valid() {
            let j = s.spillsets[i].slot.ix();
            assert(t.slots[j].ranges == s.slots[j].ranges);
        }
    }
    assert forall|j: int| 0 <= j < t.slots.len() implies entries_disjoint(
        (#[trigger] t.slots[j]).ranges,
    ) by {
        if j < s.slots.len() {
            assert(entries_disjoint(s.slots[j].ranges));
        }
    }
}

/// An empty slot fits.
pub proof fn lemma_empty_fits(g: GraphState, bundles: Seq<u32>)
    ensures
        slot_fits(g, Seq::empty(), bundles),
{
    let entries = Seq::<RangeEntry>::empty();
    assert forall|k: int, i: int|
        0 <= k < bundles.len() && 0 <= i < g.in_bundle[bundles[k] as int].len() implies entries_get(
        entries,
        range_key(g, #[trigger] g.in_bundle[bundles[k] as int][i]),
    ) is None by {
        lemma_first_overlap(entries, range_key(g, g.in_bundle[bundles[k] as int][i]), 0);
    }
}

/// Two live ranges of spill sets with one slot do not reach into each other.
pub proof fn law_slots_not_shared(
    f: FuncModel,
    g: GraphState,
    s: SlotState,
    i: int,
    k: int,
    x: int,
    j: int,
    l: int,
    y: int,
)
    requires
        graph_ok(f, g),
        slots_sound(g, s),
        0 <= i < s.spillsets.len(),
        0 <= j < s.spillsets.len(),
        s.spillsets[i].slot.is_valid(),
        s.spillsets[i].slot == s.spillsets[j].slot,
        0 <= k < s.spillsets[i].bundles.len(),
        0 <= l < s.spillsets[j].bundles.len(),
        0 <= x < g.in_bundle[s.spillsets[i].bundles[k] as int].len(),
        0 <= y < g.in_bundle[s.spillsets[j].bundles[l] as int].len(),
        g.in_bundle[s.spillsets[i].bundles[k] as int][x]
            != g.in_bundle[s.spillsets[j].bundles[l] as int][y],
    ensures
        !g.ranges[g.in_bundle[s.spillsets[i].bundles[k] as int][x] as int].range.meets(
            g.ranges[g.in_bundle[s.spillsets[j].bundles[l] as int][y] as int].range,
        ),
{
    let n = g.ranges.len() as int;
    assert(set_ready(g, s.spillsets[i].bundles));
    assert(set_ready(g, s.spillsets[j].bundles));
    let a = s.spillsets[i].bundles[k] as int;
    let b = s.spillsets[j].bundles[l] as int;
    assert(a < g.bundles.len() && b < g.bundles.len());
    let r = g.in_bundle[a][x];
    let q = g.in_bundle[b][y];
    assert(set_in_slot(g, s, i));
    assert(set_in_slot(g, s, j));
    lemma_below(g.in_bundle, n, a, x);
    lemma_below(g.in_bundle, n, b, y);
    lemma_key(f, g, r);
    lemma_key(f, g, q);
    let entries = s.slots[s.spillsets[i].slot.ix()].ranges;
    assert(entries.contains(entry_of(g, r)));
    assert(entries.contains(entry_of(g, q)));
    assert(entries_disjoint(entries));
    let u = choose|u: int| 0 <= u < entries.len() && entries[u] == entry_of(g, r);
    let v = choose|v: int| 0 <= v < entries.len() && entries[v] == entry_of(g, q);
    if u < v {
        assert(entries[u].0.to <= entries[v].0.from);
    } else {
        assert(entries[v].0.to <= entries[u].0.from);
    }
}

/// The first word of a slot in the stack frame.
pub open spec fn slot_base(data: SlotData, named_by_last: bool) -> int {
    match data.alloc {
        Allocation::Stack(slot) => if named_by_last {
            slot.index - data.size + 1
        } else {
            slot.index as int
        },
        _ => -1,
    }
}

/// The slots below number `n` have places below `offset` that are multiples of their sizes and do
/// not reach into each other.
pub open spec fn slots_placed(s: SlotState, named_by_last: bool, n: int, offset: int) -> bool {
    &&& forall|i: int|
        0 <= i < n ==> {
            let base = slot_base(#[trigger] s.slots[i], named_by_last);
            &&& s.slots[i].alloc is Stack
            &&& s.slots[i].size > 0
            &&& base >= 0
            &&& base % s.slots[i].size as int == 0
            &&& base + s.slots[i].size <= offset
        }
    &&& forall|i: int, j: int|
        #![trigger s.slots[i], s.slots[j]]
        0 <= i < j < n ==> slot_base(s.slots[i], named_by_last) + s.slots[i].size <= slot_base(
            s.slots[j],
            named_by_last,
        )
}

proof fn lemma_places(s: SlotState, named_by_last: bool, i: int, offset: int)
    requires
        0 <= i <= s.slots.len(),
        0 <= offset <= u32::MAX,
        slots_placed(s, named_by_last, i, offset),
        slot_places(s, named_by_last, i, offset) is Ok,
    ensures
        ({
            let t = slot_places(s, named_by_last, i, offset)->Ok_0;
            &&& t.slots.len() == s.slots.len()
            &&& t.spillsets == s.spillsets
            &&& slots_placed(t, named_by_last, t.slots.len() as int, t.num_spillslots as int)
            &&& forall|j: int|
                0 <= j < s.slots.len() ==> #[trigger] t.slots[j] == (SlotData {
                    alloc: t.slots[j].alloc,
                    ..s.slots[j]
                })
        }),
    decreases s.slots.len() - i,
{
    if i < s.slots.len() {
        let data = s.slots[i];
        let size = data.size as int;
        assert(size > 0);
        lemma_align_up(offset, size);
        let start = align_up(offset, size);
        let size32 = data.size;
        let below: u32 = (size32 - 1) as u32;
        assert(size32 <= 0x8000_0000u32) by (bit_vector)
            requires
                size32 != 0,
                below == size32 - 1,
                size32 & below == 0,
        ;
        let slot = if named_by_last {
            start + size - 1
        } else {
            start
        };
        let alloc = Allocation::Stack(
            crate::reg::SpillSlot { index: slot as u32, class: data.class },
        );
        let t = SlotState { slots: s.slots.update(i, SlotData { alloc, ..data }), ..s };
        assert(slot_base(t.slots[i], named_by_last) == start);
        assert forall|a: int, b: int| #![trigger t.slots[a], t.slots[b]] 0 <= a < b < i + 1 implies slot_base(
            t.slots[a],
            named_by_last,
        ) + t.slots[a].size <= slot_base(t.slots[b], named_by_last) by {
            assert(t.slots[a] == s.slots[a]);
            if b < i {
                assert(t.slots[b] == s.slots[b]);
            }
        }
        lemma_places(t, named_by_last, i + 1, start + size);
        let u = slot_places(s, named_by_last, i, offset)->Ok_0;
        assert(u == slot_places(t, named_by_last, i + 1, start + size)->Ok_0);
        assert forall|j: int| 0 <= j < s.slots.len() implies #[trigger] u.slots[j] == (SlotData {
            alloc: u.slots[j].alloc,
            ..s.slots[j]
        }) by {
            assert(u.slots[j] == (SlotData { alloc: u.slots[j].alloc, ..t.slots[j] }));
        }
    }
}

/// The slots get places in the stack frame that are multiples of their sizes and do not reach into
/// each other.
pub proof fn law_slots_apart(s: SlotState, named_by_last: bool)
    ensures
        slot_places(s, named_by_last, 0, 0) matches Ok(t) ==> {
            &&& t.spillsets == s.spillsets
            &&& t.slots.len() == s.slots.len()
            &&& slots_placed(t, named_by_last, t.slots.len() as int, t.num_spillslots as int)
            &&& forall|j: int|
                0 <= j < s.slots.len() ==> (#[trigger] t.slots[j]).ranges == s.slots[j].ranges
        },
{
    if slot_places(s, named_by_last, 0, 0) is Ok {
        lemma_places(s, named_by_last, 0, 0);
        let t = slot_places(s, named_by_last, 0, 0)->Ok_0;
        assert forall|j: int| 0 <= j < s.slots.len() implies (#[trigger] t.slots[j]).ranges
            == s.slots[j].ranges by {
            assert(t.slots[j] == (SlotData { alloc: t.slots[j].alloc, ..s.slots[j] }));
        }
    }
}

/// The word behind the first `n` slots.
pub open spec fn slots_end(s: SlotState, named_by_last: bool, n: int) -> int {
    if n <= 0 {
        0
    } else {
        slot_base(s.slots[n - 1], named_by_last) + s.slots[n - 1].size
    }
}

/// The slots below number `n` leave out fewer words before each of them than it has.
pub open spec fn slots_close(s: SlotState, named_by_last: bool, n: int) -> bool {
    forall|i: int|
        0 <= i < n ==> slot_base(#[trigger] s.slots[i], named_by_last) < slots_end(
            s,
            named_by_last,
            i,
        ) + s.slots[i].size
}

proof fn lemma_close(s: SlotState, named_by_last: bool, i: int, offset: int)
    requires
        0 <= i <= s.slots.len(),
        0 <= offset <= u32::MAX,
        slots_close(s, named_by_last, i),
        offset == slots_end(s, named_by_last, i),
        slot_places(s, named_by_last, i, offset) is Ok,
    ensures
        ({
            let t = slot_places(s, named_by_last, i, offset)->Ok_0;
            &&& t.slots.len() == s.slots.len()
            &&& slots_close(t, named_by_last, t.slots.len() as int)
            &&& t.num_spillslots == slots_end(t, named_by_last, t.slots.len() as int)
        }),
    decreases s.slots.len() - i,
{
    if i < s.slots.len() {
        let data = s.slots[i];
        let size = data.size as int;
        lemma_align_up(offset, size);
        let start = align_up(offset, size);
        let size32 = data.size;
        let below: u32 = (size32 - 1) as u32;
        assert(size32 <= 0x8000_0000u32) by (bit_vector)
            requires
                size32 != 0,
                below == size32 - 1,
                size32 & below == 0,
        ;
        let slot = if named_by_last {
            start + size - 1
        } else {
            start
        };
        let alloc = Allocation::Stack(
            crate::reg::SpillSlot { index: slot as u32, class: data.class },
        );
        let t = SlotState { slots: s.slots.update(i, SlotData { alloc, ..data }), ..s };
        assert(slot_base(t.slots[i], named_by_last) == start);
        assert forall|j: int| 0 <= j < i + 1 implies slot_base(
            #[trigger] t.slots[j],
            named_by_last,
        ) < slots_end(t, named_by_last, j) + t.slots[j].size by {
            if j < i {
                assert(t.slots[j] == s.slots[j]);
            }
            if j > 0 {
                assert(t.slots[j - 1] == s.slots[j - 1]);
            }
        }
        lemma_close(t, named_by_last, i + 1, start + size);
    }
}

/// The stack frame wastes nothing but for alignment: before each slot it leaves out fewer words than
/// the slot has, and it ends with the last slot.
pub proof fn law_slots_close(s: SlotState, named_by_last: bool)
    ensures
        slot_places(s, named_by_last, 0, 0) matches Ok(t) ==> {
            &&& slots_close(t, named_by_last, t.slots.len() as int)
            &&& t.num_spillslots == slots_end(t, named_by_last, t.slots.len() as int)
        },
{
    if slot_places(s, named_by_last, 0, 0) is Ok {
        lemma_close(s, named_by_last, 0, 0);
    }
}

} // verus!
