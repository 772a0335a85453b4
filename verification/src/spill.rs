//! Spilled bundles: a last attempt to find a register, then a slot in the stack frame.
use crate::assign::{
    all_queued, alloc_ok, hint_ok, queued_ok, same_lists, set_sized, spillset_states, AllocPass,
    AllocState, SpillSetState,
};
use crate::code_range::{
    entries_disjoint, entries_get, entries_insert, LiveRangeKey, LiveRangeSet, RangeEntry,
};
use crate::data::{SpillSet, SpillSlotData, Stats};
use crate::func::{mach_ok, Function};
use crate::graph::{range_ok, GraphState, LiveGraph, MAX_ENTRIES};
use crate::index::{LiveBundleIndex, LiveRangeIndex, PRegIndex, SpillSetIndex, SpillSlotIndex};
use crate::lists::{lemma_below, lists_ok, node_at, ListFamily, NIL};
use crate::liveness::{lemma_offered, Ctx};
use crate::place::{
    aside_free, frees_kept, is_free, is_queued, lemma_frees_same, lemma_frees_trans, set_member,
    sets_filled, waiting,
};
use crate::probe::{alloc_try, range_key, take_ranges, AllocRegResult, TryResult};
use crate::props::graph_requirement;
use crate::reg::{Allocation, PReg, RegAllocError, RegClass, SpillSlot, MAX_SPILLSLOTS};
use crate::settle::{
    bundle_class, classes_ok, hints_classed, is_aside, lemma_requirement_class, lemma_settled_more,
    lemma_settled_stats, lemma_settled_step, lemma_settled_try, set_classed, settled,
    settled_bundle,
};
use crate::slots::{
    law_slots_apart, lemma_assign_sound, lemma_empty_fits, lemma_same_entries_sound, set_with_slot,
    sets_with_slots, slots_placed, slots_sound,
};
use crate::small::{small_get, small_len, small_push};
use vstd::prelude::*;

verus! {

/// The registers of the class from step `i` on are tried for bundle `b`. Says whether one was
/// free.
pub open spec fn spill_probe(c: Ctx, s: AllocState, b: u32, class: RegClass, i: int) -> (
    AllocState,
    bool,
)
    decreases c.m.regs_by_class[class.ix()].len() - i,
{
    let regs = c.m.regs_by_class[class.ix()];
    if i < 0 || i >= regs.len() {
        (s, false)
    } else {
        let (t, r) = alloc_try(c, s, b, regs[(i + b) % regs.len() as int].ix());
        match r {
            TryResult::Allocated(_) => (t, true),
            _ => spill_probe(c, t, b, class, i + 1),
        }
    }
}

/// The spilled bundle `b` gets a register that is free, or is entered in its spill set.
pub open spec fn spill_one(c: Ctx, s: AllocState, b: u32) -> AllocState {
    let class = s.g.vregs[s.g.ranges[s.g.in_bundle[b as int][0] as int].vreg.ix()].reg.class;
    let s1 = AllocState {
        stats: Stats {
            spill_bundle_reg_probes: s.stats.spill_bundle_reg_probes.wrapping_add(1),
            ..s.stats
        },
        ..s
    };
    let (t, success) = spill_probe(c, s1, b, class, 0);
    if success {
        AllocState {
            stats: Stats {
                spill_bundle_reg_success: t.stats.spill_bundle_reg_success.wrapping_add(1),
                ..t.stats
            },
            ..t
        }
    } else {
        let k = t.g.bundles[b as int].spillset.ix();
        AllocState {
            spillsets: t.spillsets.update(
                k,
                SpillSetState {
                    bundles: t.spillsets[k].bundles.push(b),
                    ..t.spillsets[k]
                },
            ),
            ..t
        }
    }
}

/// The spilled bundles from position `i` on.
pub open spec fn spill_all(c: Ctx, s: AllocState, i: int) -> AllocState
    decreases s.spilled.len() - i,
{
    if i < 0 || i >= s.spilled.len() {
        s
    } else {
        let t = spill_one(c, s, s.spilled[i].0);
        if t.spilled == s.spilled {
            spill_all(c, t, i + 1)
        } else {
            t
        }
    }
}

/// One more bundle that was put aside is done.
proof fn lemma_one_done(s: AllocState, t: AllocState, i: int, success: bool)
    requires
        sets_filled(s, i),
        waiting(s.g, s.queue, s.spilled),
        0 <= i < s.spilled.len(),
        s.spilled[i].0 < s.g.bundles.len(),
        t.spilled == s.spilled,
        forall|k: int|
            0 <= k < s.spilled.len() ==> (#[trigger] s.spilled[k]).0 < s.g.bundles.len(),
        only_bundle_changed(s.g, t.g, s.spilled[i].0),
        success ==> t.spillsets == s.spillsets,
        !success ==> {
            let b = s.spilled[i].0;
            let k = s.g.bundles[b as int].spillset.ix();
            &&& t.g == s.g
            &&& k < s.spillsets.len()
            &&& s.g.bundles[b as int].allocation == Allocation::Nowhere
            &&& t.spillsets == s.spillsets.update(
                k,
                SpillSetState { bundles: s.spillsets[k].bundles.push(b), ..s.spillsets[k] },
            )
        },
    ensures
        sets_filled(t, i + 1),
{
    let b = s.spilled[i].0;
    assert forall|x: int, j: int|
        0 <= x < s.spillsets.len() && 0 <= j < s.spillsets[x].bundles.len() implies set_member(
        t,
        i + 1,
        x,
        #[trigger] s.spillsets[x].bundles[j],
    ) && s.spillsets[x].bundles[j] != b by {
        let d = s.spillsets[x].bundles[j];
        assert(set_member(s, i, x, d));
        let m = choose|m: int| 0 <= m < i && m < s.spilled.len() && (
        #[trigger] s.spilled[m]).0 == d;
        assert(s.spilled[m] != s.spilled[i]);
        assert(t.g.bundles[d as int] == s.g.bundles[d as int]);
        assert(t.spilled[m].0 == d);
    }
    if !success {
        let k = s.g.bundles[b as int].spillset.ix();
        let list = s.spillsets[k].bundles;
        assert forall|x: int, j: int|
            0 <= x < t.spillsets.len() && 0 <= j < t.spillsets[x].bundles.len() implies set_member(
            t,
            i + 1,
            x,
            #[trigger] t.spillsets[x].bundles[j],
        ) by {
            if x == k && j == list.len() {
                assert(t.spilled[i].0 == b);
            } else {
                assert(t.spillsets[x].bundles[j] == s.spillsets[x].bundles[j]);
            }
        }
        assert forall|x: int| 0 <= x < t.spillsets.len() implies (
        #[trigger] t.spillsets[x]).bundles.no_duplicates() by {
            assert(s.spillsets[x].bundles.no_duplicates());
            if x == k {
                let more = list.push(b);
                assert forall|p: int, q: int|
                    0 <= p < more.len() && 0 <= q < more.len() && p != q implies more[p]
                    != more[q] by {
                    if p < list.len() {
                        assert(s.spillsets[k].bundles[p] != b);
                    }
                    if q < list.len() {
                        assert(s.spillsets[k].bundles[q] != b);
                    }
                }
            }
        }
    }
}

/// A register of its class is taken for a bundle that was put aside.
proof fn lemma_spilled_taken(c: Ctx, s: AllocState, k: int, p: PReg, class: RegClass)
    requires
        alloc_ok(c, s),
        mach_ok(c.m),
        0 <= k < s.spilled.len(),
        is_free(s, s.spilled[k].0),
        settled(c, s, k, Set::empty()),
        class == bundle_class(s.g, s.spilled[k].0),
        p.ix() < c.m.regs.len(),
        p.encoded(),
        classes_ok(c.m) ==> p.class == class,
        alloc_try(c, s, s.spilled[k].0, p.ix()).1 is Allocated,
    ensures
        settled(c, alloc_try(c, s, s.spilled[k].0, p.ix()).0, k + 1, Set::empty()),
{
    let b = s.spilled[k].0;
    assert(queued_ok(s.g, s.spillsets.len() as int, s.spilled[k].0));
    assert(settled_bundle(c, s, k, b));
    lemma_requirement_class(s.g, b);
    let q = graph_requirement(s.g, b)->0;
    assert(c.m.regs[p.ix()] == p);
    lemma_settled_try(c, s, k, k + 1, Set::empty(), b, p.ix(), q);
    let t = alloc_try(c, s, b, p.ix()).0;
    lemma_settled_more(c, t, k + 1, Set::empty().remove(b), Set::empty());
}

/// A bundle that was put aside is entered in its spill set.
proof fn lemma_spilled_entered(c: Ctx, s: AllocState, t: AllocState, k: int)
    requires
        alloc_ok(c, s),
        0 <= k < s.spilled.len(),
        is_free(s, s.spilled[k].0),
        settled(c, s, k, Set::empty()),
        ({
            let b = s.spilled[k].0;
            let set = s.g.bundles[b as int].spillset.ix();
            t == (AllocState {
                spillsets: s.spillsets.update(
                    set,
                    SpillSetState {
                        bundles: s.spillsets[set].bundles.push(b),
                        ..s.spillsets[set]
                    },
                ),
                ..s
            })
        }),
    ensures
        settled(c, t, k + 1, Set::empty()),
{
    let b = s.spilled[k].0;
    let set = s.g.bundles[b as int].spillset.ix();
    assert(queued_ok(s.g, s.spillsets.len() as int, s.spilled[k].0));
    assert(settled_bundle(c, s, k, b));
    assert(set_classed(s, b));
    assert(set_classed(t, b));
    assert forall|i: int| 0 <= i < s.spillsets.len() implies {
        &&& (#[trigger] t.spillsets[i]).class == s.spillsets[i].class
        &&& forall|x: u32|
            s.spillsets[i].bundles.contains(x) ==> #[trigger] t.spillsets[i].bundles.contains(x)
    } by {
        assert forall|x: u32|
            s.spillsets[i].bundles.contains(x) implies #[trigger] t.spillsets[i].bundles.contains(
            x,
        ) by {
            let list = s.spillsets[i].bundles;
            let j = choose|j: int| 0 <= j < list.len() && list[j] == x;
            assert(t.spillsets[i].bundles[j] == x);
        }
    }
    assert(hints_classed(c.m, t.spillsets)) by {
        if classes_ok(c.m) {
            assert forall|i: int| 0 <= i < t.spillsets.len() implies ((
            #[trigger] t.spillsets[i]).reg_hint matches Some(x) ==> x.class
                == t.spillsets[i].class) by {
                assert(s.spillsets[i].reg_hint matches Some(x) ==> x.class
                    == s.spillsets[i].class);
            }
        }
    }
    let more = t.spillsets[set].bundles;
    assert(more[more.len() - 1] == b);
    assert(t.spilled[k].0 == b);
    assert(is_aside(t, k + 1, b));
    lemma_settled_step(c, s, t, k, k + 1, Set::empty(), Set::empty(), b);
}

/// Only bundle `b` has changed.
pub open spec fn only_bundle_changed(g: GraphState, h: GraphState, b: u32) -> bool {
    &&& h.bundles.len() == g.bundles.len()
    &&& forall|x: int| 0 <= x < g.bundles.len() && x != b ==> #[trigger] h.bundles[x] == g.bundles[x]
}

impl<'a, F: Function> AllocPass<'a, F> {
    /// Try the registers of a class for a spilled bundle.
    fn try_spilled(&mut self, bundle: LiveBundleIndex, class: RegClass) -> (r: bool)
        requires
            old(self).wf(),
            queued_ok(old(self)@.g, old(self)@.spillsets.len() as int, bundle.0),
            is_free(old(self)@, bundle.0),
        ensures
            final(self).ctx() == old(self).ctx(),
            final(self).wf(),
            only_bundle_changed(old(self)@.g, final(self)@.g, bundle.0),
            same_lists(old(self)@.g, final(self)@.g),
            frees_kept(old(self)@, final(self)@),
            final(self)@.queue == old(self)@.queue,
            final(self)@.spillsets == old(self)@.spillsets,
            !r ==> final(self)@ == old(self)@,
            (final(self)@, r) == spill_probe(
                old(self).ctx(),
                old(self)@,
                bundle.0,
                class,
                0,
            ),
            queued_ok(final(self)@.g, final(self)@.spillsets.len() as int, bundle.0),
            final(self)@.spilled == old(self)@.spilled,
            forall|k: int|
                r && 0 <= k < old(self)@.spilled.len() && old(self)@.spilled[k] == bundle
                    && class == bundle_class(old(self)@.g, bundle.0) && settled(
                    old(self).ctx(),
                    old(self)@,
                    k,
                    Set::empty(),
                ) ==> #[trigger] settled(old(self).ctx(), final(self)@, k + 1, Set::empty()),
    {
        let ghost s = self@;
        let ghost c = self.ctx();
        let nregs = self.env.regs_by_class[class.index()].len();
        proof {
            lemma_frees_same(s, s);
        }
        assert(c.m.regs_by_class[class.ix()].len() == nregs);
        let mut i: usize = 0;
        while i < nregs
            invariant
                self.wf(),
                self.ctx() == c,
                c == old(self).ctx(),
                s == old(self)@,
                nregs == c.m.regs_by_class[class.ix()].len(),
                i <= nregs,
                queued_ok(self@.g, self@.spillsets.len() as int, bundle.0),
                self@ == s,
                frees_kept(s, s),
                is_free(s, bundle.0),
                spill_probe(c, s, bundle.0, class, 0) == spill_probe(
                    c,
                    self@,
                    bundle.0,
                    class,
                    i as int,
                ),
            decreases nregs - i,
        {
            let k = ((i as u64 + bundle.0 as u64) % (nregs as u64)) as usize;
            assert(k == (i + bundle.0) % nregs as int);
            let preg = self.env.regs_by_class[class.index()][k];
            assert(c.m.regs_by_class[class.ix()][k as int] == preg);
            assert(c.m.regs_by_class[class.ix()][k as int].ix() < c.m.regs.len());
            proof {
                lemma_offered(c, class.ix(), k as int);
            }
            match self.try_to_allocate_bundle_to_reg(bundle, PRegIndex::new(preg.index())) {
                AllocRegResult::Allocated(_) => {
                    proof {
                        assert forall|k: int|
                            0 <= k < s.spilled.len() && s.spilled[k] == bundle && class
                                == bundle_class(s.g, bundle.0) && settled(
                                c,
                                s,
                                k,
                                Set::empty(),
                            ) implies #[trigger] settled(c, self@, k + 1, Set::empty()) by {
                            lemma_spilled_taken(c, s, k, preg, class);
                        }
                    }
                    return true;
                },
                _ => {},
            }
            i += 1;
        }
        false
    }

    /// Give spilled bundles registers that are free, and enter the others in their spill sets.
    pub fn try_allocating_regs_for_spilled_bundles(&mut self)
        requires
            old(self).wf(),
            aside_free(old(self)@, 0),
            settled(old(self).ctx(), old(self)@, 0, Set::empty()),
        ensures
            final(self).ctx() == old(self).ctx(),
            final(self).wf(),
            final(self)@.queue == old(self)@.queue,
            same_lists(old(self)@.g, final(self)@.g),
            frees_kept(old(self)@, final(self)@),
            settled(
                old(self).ctx(),
                final(self)@,
                final(self)@.spilled.len() as int,
                Set::empty(),
            ),
            final(self)@ == spill_all(old(self).ctx(), old(self)@, 0),
            sets_filled(final(self)@, final(self)@.spilled.len() as int),
    {
        let ghost s = self@;
        let ghost c = self.ctx();
        let n = self.spilled_bundles.len();
        proof {
            lemma_frees_same(s, s);
        }
        let mut i: usize = 0;
        while i < n
            invariant
                self.wf(),
                self.ctx() == c,
                frees_kept(s, self@),
                s.pregs.len() == c.m.regs.len(),
                n == s.spilled.len(),
                self@.spilled == s.spilled,
                self@.queue == s.queue,
                same_lists(s.g, self@.g),
                i <= n,
                aside_free(self@, i as int),
                settled(c, self@, i as int, Set::empty()),
                spill_all(c, s, 0) == spill_all(c, self@, i as int),
            decreases n - i,
        {
            let ghost t = self@;
            let bundle = self.spilled_bundles[i];
            assert(queued_ok(t.g, t.spillsets.len() as int, t.spilled[i as int].0));
            let first = self.g.in_bundle.first(bundle.index());
            proof {
                assert(t.g.in_bundle[bundle.ix()][0] == first);
                assert(range_ok(c.f, t.g, first as int));
            }
            let any_vreg = self.g.vregs[self.g.ranges[first as usize].vreg.index()].reg;
            self.stats.spill_bundle_reg_probes = self.stats.spill_bundle_reg_probes.wrapping_add(1);
            assert(alloc_ok(c, self@));
            assert(is_free(self@, bundle.0)) by {
                assert(t.g.bundles[t.spilled[i as int].ix()].allocation == Allocation::Nowhere);
                if is_queued(t.queue, bundle.0) {
                    let k = choose|k: int| 0 <= k < t.queue.len() && (
                    #[trigger] t.queue[k]).bundle.0 == bundle.0;
                    assert(t.queue[k].bundle != t.spilled[i as int]);
                }
            }
            let ghost t1 = self@;
            proof {
                lemma_settled_stats(c, t, t1, i as int, Set::empty());
            }
            let success = self.try_spilled(bundle, any_vreg.class());
            let ghost u = self@;
            if success {
                self.stats.spill_bundle_reg_success =
                self.stats.spill_bundle_reg_success.wrapping_add(1);
                assert(alloc_ok(c, self@));
                proof {
                    assert(settled(c, u, i + 1, Set::empty()));
                    lemma_settled_stats(c, u, self@, i + 1, Set::empty());
                }
            } else {
                let set = self.g.bundles[bundle.index()].spillset;
                small_push(&mut self.spillsets[set.index()].bundles, bundle.0);
                proof {
                    let w = self@;
                    let m = u.spillsets.len() as int;
                    assert(w.spillsets =~= u.spillsets.update(
                        set.ix(),
                        SpillSetState {
                            bundles: u.spillsets[set.ix()].bundles.push(bundle.0),
                            ..u.spillsets[set.ix()]
                        },
                    ));
                    assert forall|k: int| 0 <= k < m implies hint_ok(
                        c,
                        (#[trigger] w.spillsets[k]).reg_hint,
                    ) && all_queued(w.g, m, w.spillsets[k].bundles)
                        && w.spillsets[k].slot.is_invalid() && set_sized(
                        c.f,
                        w.g.vregs,
                        w.spillsets[k].size,
                        w.spillsets[k].class,
                    ) by {
                        assert(hint_ok(c, u.spillsets[k].reg_hint));
                        assert(all_queued(u.g, m, u.spillsets[k].bundles));
                        assert forall|x: int| 0 <= x < w.spillsets[k].bundles.len() implies queued_ok(
                            w.g,
                            m,
                            #[trigger] w.spillsets[k].bundles[x],
                        ) by {
                            if x < u.spillsets[k].bundles.len() {
                                assert(queued_ok(u.g, m, u.spillsets[k].bundles[x]));
                            }
                        }
                    }
                    assert(alloc_ok(c, w));
                    lemma_spilled_entered(c, u, w, i as int);
                }
            }
            proof {
                lemma_one_done(t, self@, i as int, success);
                lemma_frees_same(t, t1);
                lemma_frees_trans(s, t, t1);
                lemma_frees_trans(s, t1, u);
                lemma_frees_same(u, self@);
                lemma_frees_trans(s, u, self@);
            }
            assert forall|k: int| i + 1 <= k < self@.spilled.len() implies self@.g.bundles[(
            #[trigger] self@.spilled[k]).ix()].allocation == Allocation::Nowhere by {
                assert(t.spilled[k] != t.spilled[i as int]);
                assert(t.g.bundles[t.spilled[k].ix()].allocation == Allocation::Nowhere);
                assert(queued_ok(t.g, t.spillsets.len() as int, t.spilled[k].0));
                assert(self@.g.bundles[t.spilled[k].ix()] == t.g.bundles[t.spilled[k].ix()]);
            }
            i += 1;
        }
    }
}

/// The slots of the stack frame.
pub struct SlotPass {
    pub spillsets: Vec<SpillSet>,
    pub spillslots: Vec<SpillSlotData>,
    /// For each size, the slots of that size.
    pub slots_by_size: ListFamily,
    pub num_spillslots: u32,
}

/// The mathematical value of a `SpillSlotData`.
#[verifier::ext_equal]
pub struct SlotData {
    pub ranges: Seq<RangeEntry>,
    pub class: RegClass,
    pub size: u32,
    pub alloc: Allocation,
}

/// The mathematical value of a `SlotPass`.
#[verifier::ext_equal]
pub struct SlotState {
    pub spillsets: Seq<SpillSetState>,
    pub slots: Seq<SlotData>,
    pub by_size: Seq<Seq<u32>>,
    pub num_spillslots: u32,
}

impl SpillSlotData {
    /// The mathematical value.
    pub open spec fn view(&self) -> SlotData {
        SlotData {
            ranges: self.ranges@,
            class: self.class,
            size: self.size,
            alloc: self.alloc,
        }
    }
}

/// The values of the slots.
pub open spec fn slot_values(s: Seq<SpillSlotData>) -> Seq<SlotData> {
    Seq::new(s.len(), |i: int| s[i]@)
}

/// The index is that of a slot, or of none.
pub open spec fn slot_index_ok(slots: int, i: SpillSlotIndex) -> bool {
    i.is_valid() ==> i.0 < slots
}

/// The bundles exist.
pub open spec fn bundles_exist(g: GraphState, bundles: Seq<u32>) -> bool {
    forall|k: int| 0 <= k < bundles.len() ==> (#[trigger] bundles[k]) < g.bundles.len()
}

/// The slots in the list of a size have that size.
pub open spec fn sizes_ok(s: SlotState) -> bool {
    forall|l: int, i: int|
        0 <= l < s.by_size.len() && 0 <= i < s.by_size[l].len() ==> s.slots[(
        #[trigger] s.by_size[l][i]) as int].size == l
}

/// The slots keep their lists where they keep their sizes.
proof fn lemma_sizes_same(s: SlotState, t: SlotState)
    requires
        lists_ok(s.by_size, s.slots.len() as int),
        sizes_ok(s),
        t.by_size == s.by_size,
        forall|i: int| 0 <= i < s.slots.len() ==> (#[trigger] t.slots[i]).size == s.slots[i].size,
    ensures
        sizes_ok(t),
{
    assert forall|l: int, i: int|
        0 <= l < t.by_size.len() && 0 <= i < t.by_size[l].len() implies t.slots[(
    #[trigger] t.by_size[l][i]) as int].size == l by {
        lemma_below(s.by_size, s.slots.len() as int, l, i);
        assert(s.slots[s.by_size[l][i] as int].size == l);
        assert(t.slots[s.by_size[l][i] as int].size == s.slots[s.by_size[l][i] as int].size);
    }
}

/// The slots that spill sets have are of the sizes of the spill sets.
#[verifier::opaque]
pub open spec fn slots_sized(s: SlotState) -> bool {
    forall|i: int|
        0 <= i < s.spillsets.len() && (#[trigger] s.spillsets[i]).slot.is_valid()
            ==> s.spillsets[i].slot.0 < s.slots.len() && s.slots[s.spillsets[i].slot.ix()].size
            == s.spillsets[i].size
}

/// The sizes stay where the slots keep theirs and spill sets change in nothing.
proof fn lemma_sized_same(s: SlotState, t: SlotState)
    requires
        slots_sized(s),
        t.spillsets == s.spillsets,
        t.slots.len() >= s.slots.len(),
        forall|i: int| 0 <= i < s.slots.len() ==> (#[trigger] t.slots[i]).size == s.slots[i].size,
    ensures
        slots_sized(t),
{
    reveal(slots_sized);
}

/// A spill set gets a slot of its size.
proof fn lemma_sized_assign(g: GraphState, s: SlotState, set: int, slot: u32)
    requires
        slots_sized(s),
        0 <= set < s.spillsets.len(),
        slot < s.slots.len(),
        s.slots[slot as int].size == s.spillsets[set].size,
    ensures
        slots_sized(slot_assign(g, s, set, slot)),
{
    reveal(slots_sized);
    let t = slot_assign(g, s, set, slot);
    assert forall|i: int| 0 <= i < t.slots.len() implies (#[trigger] t.slots[i]).size
        == s.slots[i].size by {}
    assert forall|i: int| 0 <= i < t.spillsets.len() && (#[trigger] t.spillsets[i]).slot.is_valid() implies t.spillsets[i].slot.0
        < t.slots.len() && t.slots[t.spillsets[i].slot.ix()].size == t.spillsets[i].size by {
        if i != set {
            assert(t.spillsets[i] == s.spillsets[i]);
        }
    }
}

/// The slots, their lists and the spill sets fit together.
pub open spec fn slots_ok(g: GraphState, s: SlotState) -> bool {
    let n = s.slots.len() as int;
    &&& n <= MAX_ENTRIES
    &&& s.spillsets.len() <= MAX_ENTRIES
    &&& forall|i: int| 0 <= i < n ==> entries_disjoint((#[trigger] s.slots[i]).ranges)
    &&& lists_ok(s.by_size, n)
    &&& sizes_ok(s)
    &&& forall|i: int|
        0 <= i < s.spillsets.len() ==> bundles_exist(g, (#[trigger] s.spillsets[i]).bundles)
            && slot_index_ok(n, s.spillsets[i].slot)
}

impl SlotPass {
    /// The mathematical value.
    pub open spec fn view(&self) -> SlotState {
        SlotState {
            spillsets: spillset_states(self.spillsets@),
            slots: slot_values(self.spillslots@),
            by_size: self.slots_by_size@,
            num_spillslots: self.num_spillslots,
        }
    }

    /// The parts fit together, over the tables `g`.
    pub open spec fn wf(&self, g: &LiveGraph) -> bool {
        &&& g.wf()
        &&& slots_ok(g@, self@)
        &&& self.slots_by_size.wf()
        &&& self.slots_by_size.nodes() == self.spillslots@.len()
    }
}

/// Does no live range of the bundles reach into the entries?
pub open spec fn slot_fits(g: GraphState, entries: Seq<RangeEntry>, bundles: Seq<u32>) -> bool {
    forall|k: int, i: int|
        0 <= k < bundles.len() && 0 <= i < g.in_bundle[bundles[k] as int].len() ==> entries_get(
            entries,
            range_key(g, #[trigger] g.in_bundle[bundles[k] as int][i]),
        ) is None
}

/// The entries after the live ranges of the bundles from position `k` on were put in.
pub open spec fn fill_slot(g: GraphState, entries: Seq<RangeEntry>, bundles: Seq<u32>, k: int) -> Seq<
    RangeEntry,
>
    decreases bundles.len() - k,
{
    if k < 0 || k >= bundles.len() {
        entries
    } else {
        fill_slot(
            g,
            take_ranges(g, entries, g.in_bundle[bundles[k] as int], 0),
            bundles,
            k + 1,
        )
    }
}

/// Spill set number `set` gets slot number `slot`.
pub open spec fn slot_assign(g: GraphState, s: SlotState, set: int, slot: u32) -> SlotState {
    let data = s.slots[slot as int];
    SlotState {
        spillsets: s.spillsets.update(
            set,
            SpillSetState { slot: SpillSlotIndex(slot), ..s.spillsets[set] },
        ),
        slots: s.slots.update(
            slot as int,
            SlotData {
                ranges: fill_slot(g, data.ranges, s.spillsets[set].bundles, 0),
                ..data
            },
        ),
        ..s
    }
}

/// The first slot of a size is moved to the end of the list of that size.
pub open spec fn slot_rotate(s: SlotState, size: int) -> SlotState {
    let list = s.by_size[size];
    SlotState { by_size: s.by_size.update(size, list.drop_first().push(list[0])), ..s }
}

/// Existing slots are tried for spill set number `set`, up to the tenth one. Those that do not fit
/// are moved to the end of their list, until the first one of these comes again. Says whether one
/// did fit.
pub open spec fn slot_search(
    g: GraphState,
    s: SlotState,
    set: int,
    size: int,
    tried: int,
    first: u32,
) -> (SlotState, bool)
    decreases 10 - tried,
{
    let slot = node_at(s.by_size[size], 0);
    if tried >= 10 || slot == NIL || slot == first {
        (s, false)
    } else if slot_fits(g, s.slots[slot as int].ranges, s.spillsets[set].bundles) {
        (slot_assign(g, s, set, slot), true)
    } else {
        slot_search(
            g,
            slot_rotate(s, size),
            set,
            size,
            tried + 1,
            if first == NIL {
                slot
            } else {
                first
            },
        )
    }
}

/// The lists of slots by size, with one for `size`.
pub open spec fn by_size_for(by_size: Seq<Seq<u32>>, size: int) -> Seq<Seq<u32>> {
    if size < by_size.len() {
        by_size
    } else {
        Seq::new(
            (size + 1) as nat,
            |i: int|
                if i < by_size.len() {
                    by_size[i]
                } else {
                    Seq::empty()
                },
        )
    }
}

/// A new slot is made for spill set number `set`.
pub open spec fn slot_new(g: GraphState, s: SlotState, set: int) -> Result<
    SlotState,
    RegAllocError,
> {
    if s.slots.len() >= MAX_ENTRIES {
        Err(RegAllocError::TooLarge)
    } else {
        let slot = s.slots.len() as u32;
        let size = s.spillsets[set].size;
        let list = s.by_size[size as int];
        let t = SlotState {
            slots: s.slots.push(
                SlotData {
                    ranges: Seq::empty(),
                    class: s.spillsets[set].class,
                    size,
                    alloc: Allocation::Nowhere,
                },
            ),
            by_size: s.by_size.update(size as int, list.insert(0, slot)),
            ..s
        };
        Ok(slot_assign(g, t, set, slot))
    }
}

/// Spill set number `set` gets a slot, if it has bundles.
pub open spec fn slot_one(g: GraphState, s: SlotState, set: int) -> Result<
    SlotState,
    RegAllocError,
> {
    let size = s.spillsets[set].size as int;
    if s.spillsets[set].bundles.len() == 0 {
        Ok(s)
    } else {
        let s1 = SlotState { by_size: by_size_for(s.by_size, size), ..s };
        let (t, success) = slot_search(g, s1, set, size, 0, NIL);
        if success {
            Ok(t)
        } else {
            slot_new(g, t, set)
        }
    }
}

/// The spill sets from number `i` on get slots.
pub open spec fn slot_all(g: GraphState, s: SlotState, i: int) -> Result<SlotState, RegAllocError>
    decreases s.spillsets.len() - i,
{
    if i < 0 || i >= s.spillsets.len() {
        Ok(s)
    } else {
        match slot_one(g, s, i) {
            Ok(t) => if t.spillsets.len() == s.spillsets.len() {
                slot_all(g, t, i + 1)
            } else {
                Ok(t)
            },
            Err(e) => Err(e),
        }
    }
}

/// Is the number a power of two?
pub open spec fn power_of_two(n: u32) -> bool {
    n != 0 && n & ((n - 1) as u32) == 0
}

/// The next multiple of `n` from `x` on.
pub open spec fn align_up(x: int, n: int) -> int {
    (x + n - 1) / n * n
}

/// Places in the stack frame are given out to the slots from number `i` on, beginning at `offset`.
pub open spec fn slot_places(s: SlotState, named_by_last: bool, i: int, offset: int) -> Result<
    SlotState,
    RegAllocError,
>
    decreases s.slots.len() - i,
{
    if i < 0 || i >= s.slots.len() {
        Ok(SlotState { num_spillslots: offset as u32, ..s })
    } else {
        let data = s.slots[i];
        let start = align_up(offset, data.size as int);
        let slot = if named_by_last {
            start + data.size - 1
        } else {
            start
        };
        if !power_of_two(data.size) {
            Err(RegAllocError::SlotSize(data.size))
        } else if slot >= MAX_SPILLSLOTS {
            Err(RegAllocError::TooLarge)
        } else {
            let alloc = Allocation::Stack(SpillSlot { index: slot as u32, class: data.class });
            slot_places(
                SlotState { slots: s.slots.update(i, SlotData { alloc, ..data }), ..s },
                named_by_last,
                i + 1,
                start + data.size,
            )
        }
    }
}

/// Every spill set with bundles gets a slot, and every slot a place in the stack frame.
pub open spec fn slot_allocate(g: GraphState, s: SlotState, named_by_last: bool) -> Result<
    SlotState,
    RegAllocError,
> {
    match slot_all(g, s, 0) {
        Ok(t) => slot_places(t, named_by_last, 0, 0),
        Err(e) => Err(e),
    }
}

impl SlotPass {
    /// Does no live range of a bundle reach into the slot?
    fn slot_can_fit_bundle(&self, g: &LiveGraph, slot: usize, bundle: LiveBundleIndex) -> (r: bool)
        requires
            self.wf(g),
            slot < self@.slots.len(),
            bundle.0 < g@.bundles.len(),
        ensures
            r == (forall|i: int|
                0 <= i < g@.in_bundle[bundle.ix()].len() ==> entries_get(
                    self@.slots[slot as int].ranges,
                    range_key(g@, #[trigger] g@.in_bundle[bundle.ix()][i]),
                ) is None),
    {
        let ghost list = g@.in_bundle[bundle.ix()];
        let ghost entries = self@.slots[slot as int].ranges;
        assert(self.spillslots@[slot as int].ranges@ == entries);
        let mut iter = g.in_bundle.first(bundle.index());
        let ghost mut i: int = 0;
        while iter != NIL
            invariant
                self.wf(g),
                slot < self@.slots.len(),
                bundle.0 < g@.bundles.len(),
                list == g@.in_bundle[bundle.ix()],
                entries == self@.slots[slot as int].ranges,
                self.spillslots@[slot as int].ranges@ == entries,
                0 <= i <= list.len(),
                iter == node_at(list, i),
                iter == NIL <==> i == list.len(),
                iter != NIL ==> iter < g@.ranges.len(),
                forall|k: int|
                    0 <= k < i ==> entries_get(
                        entries,
                        range_key(g@, #[trigger] g@.in_bundle[bundle.ix()][k]),
                    ) is None,
            decreases list.len() - i,
        {
            assert(range_ok(g.func@, g@, iter as int));
            let key = LiveRangeKey::from_range(&g.ranges[iter as usize].range);
            assert(key == range_key(g@, g@.in_bundle[bundle.ix()][i]));
            if self.spillslots[slot].ranges.contains_key(&key) {
                return false;
            }
            iter = g.in_bundle.next(iter, Ghost(bundle.ix()), Ghost(i));
            proof {
                i = i + 1;
            }
        }
        true
    }

    /// Does no live range of a spill set reach into the slot?
    pub fn spillslot_can_fit_spillset(
        &self,
        g: &LiveGraph,
        spillslot: SpillSlotIndex,
        spillset: SpillSetIndex,
    ) -> (r: bool)
        requires
            self.wf(g),
            spillslot.0 < self@.slots.len(),
            spillset.0 < self@.spillsets.len(),
        ensures
            r == slot_fits(
                g@,
                self@.slots[spillslot.ix()].ranges,
                self@.spillsets[spillset.ix()].bundles,
            ),
    {
        let ghost bundles = self@.spillsets[spillset.ix()].bundles;
        let ghost entries = self@.slots[spillslot.ix()].ranges;
        assert(self.spillsets@[spillset.ix()].bundles@ == bundles);
        assert(bundles_exist(g@, bundles));
        let mut k: usize = 0;
        while k < small_len(&self.spillsets[spillset.index()].bundles)
            invariant
                self.wf(g),
                spillslot.0 < self@.slots.len(),
                spillset.0 < self@.spillsets.len(),
                bundles == self@.spillsets[spillset.ix()].bundles,
                entries == self@.slots[spillslot.ix()].ranges,
                self.spillsets@[spillset.ix()].bundles@ == bundles,
                bundles_exist(g@, bundles),
                k <= bundles.len(),
                forall|x: int, i: int|
                    0 <= x < k && 0 <= i < g@.in_bundle[bundles[x] as int].len() ==> entries_get(
                        entries,
                        range_key(g@, #[trigger] g@.in_bundle[bundles[x] as int][i]),
                    ) is None,
            decreases bundles.len() - k,
        {
            let bundle = LiveBundleIndex(
                small_get(&self.spillsets[spillset.index()].bundles, k),
            );
            assert(bundles[k as int] < g@.bundles.len());
            if !self.slot_can_fit_bundle(g, spillslot.index(), bundle) {
                return false;
            }
            k += 1;
        }
        true
    }

    /// Put the live ranges of a bundle into a slot.
    fn fill_slot_with_bundle(&mut self, g: &LiveGraph, slot: usize, bundle: LiveBundleIndex)
        requires
            old(self).wf(g),
            slot < old(self)@.slots.len(),
            bundle.0 < g@.bundles.len(),
        ensures
            final(self).wf(g),
            final(self)@ == (SlotState {
                slots: old(self)@.slots.update(
                    slot as int,
                    SlotData {
                        ranges: take_ranges(
                            g@,
                            old(self)@.slots[slot as int].ranges,
                            g@.in_bundle[bundle.ix()],
                            0,
                        ),
                        ..old(self)@.slots[slot as int]
                    },
                ),
                ..old(self)@
            }),
    {
        let ghost s = self@;
        let ghost list = g@.in_bundle[bundle.ix()];
        let mut iter = g.in_bundle.first(bundle.index());
        let ghost mut i: int = 0;
        while iter != NIL
            invariant
                self.wf(g),
                slot < s.slots.len(),
                bundle.0 < g@.bundles.len(),
                list == g@.in_bundle[bundle.ix()],
                self@.slots.len() == s.slots.len(),
                self@ == (SlotState {
                    slots: s.slots.update(
                        slot as int,
                        SlotData {
                            ranges: self@.slots[slot as int].ranges,
                            ..s.slots[slot as int]
                        },
                    ),
                    ..s
                }),
                0 <= i <= list.len(),
                iter == node_at(list, i),
                iter == NIL <==> i == list.len(),
                iter != NIL ==> iter < g@.ranges.len(),
                take_ranges(g@, s.slots[slot as int].ranges, list, 0) == take_ranges(
                    g@,
                    self@.slots[slot as int].ranges,
                    list,
                    i,
                ),
            decreases list.len() - i,
        {
            let ghost t = self@;
            assert(range_ok(g.func@, g@, iter as int));
            assert(entries_disjoint(t.slots[slot as int].ranges));
            assert(self.spillslots@[slot as int].ranges@ == t.slots[slot as int].ranges);
            let key = LiveRangeKey::from_range(&g.ranges[iter as usize].range);
            assert(key == range_key(g@, list[i]));
            self.spillslots[slot].ranges.insert(key, LiveRangeIndex(iter));
            proof {
                let e = entries_insert(t.slots[slot as int].ranges, key, LiveRangeIndex(iter));
                assert(self@.slots =~= t.slots.update(
                    slot as int,
                    SlotData { ranges: e, ..t.slots[slot as int] },
                ));
                assert(self@.slots =~= s.slots.update(
                    slot as int,
                    SlotData { ranges: e, ..s.slots[slot as int] },
                ));
                assert forall|k: int| 0 <= k < self@.slots.len() implies entries_disjoint(
                    (#[trigger] self@.slots[k]).ranges,
                ) by {
                    assert(entries_disjoint(t.slots[k].ranges));
                }
                assert(self@ =~= SlotState { slots: self@.slots, ..t });
                lemma_sizes_same(t, self@);
                assert(slots_ok(g@, self@));
            }
            iter = g.in_bundle.next(iter, Ghost(bundle.ix()), Ghost(i));
            proof {
                i = i + 1;
            }
        }
    }

    /// Give a slot to a spill set.
    pub fn allocate_spillset_to_spillslot(
        &mut self,
        g: &LiveGraph,
        spillset: SpillSetIndex,
        spillslot: SpillSlotIndex,
    )
        requires
            old(self).wf(g),
            spillslot.0 < old(self)@.slots.len(),
            spillset.0 < old(self)@.spillsets.len(),
        ensures
            final(self).wf(g),
            final(self)@ == slot_assign(g@, old(self)@, spillset.ix(), spillslot.0),
    {
        let ghost s = self@;
        let ghost bundles = s.spillsets[spillset.ix()].bundles;
        self.spillsets[spillset.index()].slot = spillslot;
        proof {
            assert(self@.spillsets =~= s.spillsets.update(
                spillset.ix(),
                SpillSetState { slot: spillslot, ..s.spillsets[spillset.ix()] },
            ));
            assert forall|i: int| 0 <= i < self@.spillsets.len() implies bundles_exist(
                g@,
                (#[trigger] self@.spillsets[i]).bundles,
            ) && slot_index_ok(self@.slots.len() as int, self@.spillsets[i].slot) by {
                assert(bundles_exist(g@, s.spillsets[i].bundles));
            }
            assert(self@ =~= SlotState { spillsets: self@.spillsets, ..s });
            assert(slots_ok(g@, self@));
        }
        let ghost s1 = self@;
        let slot = spillslot.index();
        assert(s1.slots.update(slot as int, s1.slots[slot as int]) =~= s1.slots);
        let mut k: usize = 0;
        while k < small_len(&self.spillsets[spillset.index()].bundles)
            invariant
                self.wf(g),
                slot == spillslot.0,
                slot < s1.slots.len(),
                spillset.0 < s1.spillsets.len(),
                s1.spillsets.len() <= MAX_ENTRIES,
                self@.slots.len() == s1.slots.len(),
                self@ == (SlotState {
                    slots: s1.slots.update(
                        slot as int,
                        SlotData {
                            ranges: self@.slots[slot as int].ranges,
                            ..s1.slots[slot as int]
                        },
                    ),
                    ..s1
                }),
                bundles == s1.spillsets[spillset.ix()].bundles,
                k <= bundles.len(),
                fill_slot(g@, s1.slots[slot as int].ranges, bundles, 0) == fill_slot(
                    g@,
                    self@.slots[slot as int].ranges,
                    bundles,
                    k as int,
                ),
            decreases bundles.len() - k,
        {
            assert(self.spillsets@[spillset.ix()]@ == self@.spillsets[spillset.ix()]);
            let bundle = LiveBundleIndex(
                small_get(&self.spillsets[spillset.index()].bundles, k),
            );
            assert(bundles_exist(g@, self@.spillsets[spillset.ix()].bundles));
            assert(bundles[k as int] < g@.bundles.len());
            let ghost t = self@;
            self.fill_slot_with_bundle(g, slot, bundle);
            assert(self@.slots =~= s1.slots.update(
                slot as int,
                SlotData {
                    ranges: self@.slots[slot as int].ranges,
                    ..s1.slots[slot as int]
                },
            ));
            k += 1;
        }
        assert(self.spillsets@[spillset.ix()]@ == self@.spillsets[spillset.ix()]);
        assert(self@ =~= slot_assign(g@, s, spillset.ix(), spillslot.0));
    }
}

/// The next multiple is the least one that is not smaller.
pub proof fn lemma_align_up(x: int, n: int)
    requires
        x >= 0,
        n > 0,
    ensures
        x <= align_up(x, n) < x + n,
        align_up(x, n) % n == 0,
{
    let q = (x + n - 1) / n;
    assert(x <= q * n < x + n && (q * n) % n == 0) by (nonlinear_arith)
        requires
            q == (x + n - 1) / n,
            n > 0,
            x >= 0,
    ;
}

impl SlotPass {
    /// Make sure that there is a list for a size.
    fn list_for_size(&mut self, g: &LiveGraph, size: usize)
        requires
            old(self).wf(g),
            size <= u32::MAX,
        ensures
            final(self).wf(g),
            final(self)@ == (SlotState {
                by_size: by_size_for(old(self)@.by_size, size as int),
                ..old(self)@
            }),
            size < final(self)@.by_size.len(),
    {
        let ghost s = self@;
        while self.slots_by_size.len() <= size
            invariant
                self.wf(g),
                self@ == (SlotState { by_size: self@.by_size, ..s }),
                s.by_size.len() <= self@.by_size.len(),
                self@.by_size.len() <= size + 1 || self@.by_size == s.by_size,
                forall|i: int|
                    0 <= i < self@.by_size.len() ==> #[trigger] self@.by_size[i] == (if i
                        < s.by_size.len() {
                        s.by_size[i]
                    } else {
                        Seq::empty()
                    }),
            decreases size + 1 - self@.by_size.len(),
        {
            let ghost t = self@;
            self.slots_by_size.add_list();
            proof {
                self.slots_by_size.lemma_ok();
                assert(self@ =~= SlotState { by_size: self@.by_size, ..t });
                assert forall|l: int, i: int|
                    0 <= l < self@.by_size.len() && 0 <= i < self@.by_size[l].len() implies self@.slots[(
                #[trigger] self@.by_size[l][i]) as int].size == l by {
                    assert(t.by_size[l][i] == self@.by_size[l][i]);
                }
                assert(slots_ok(g@, self@));
            }
        }
        assert(self@.by_size =~= by_size_for(s.by_size, size as int));
    }

    /// Move the first slot of a size to the end of the list of that size.
    fn rotate(&mut self, g: &LiveGraph, size: usize)
        requires
            old(self).wf(g),
            size < old(self)@.by_size.len(),
            old(self)@.by_size[size as int].len() > 0,
        ensures
            final(self).wf(g),
            final(self)@ == slot_rotate(old(self)@, size as int),
    {
        let ghost s = self@;
        let ghost list = s.by_size[size as int];
        let slot = self.slots_by_size.remove_after(size, NIL, Ghost(0));
        let ghost rest = self@.by_size[size as int];
        let last = self.slots_by_size.last(size);
        self.slots_by_size.insert_after(size, last, slot, Ghost(rest.len() as int));
        proof {
            let t = self@;
            let moved = list.drop_first().push(list[0]);
            assert(rest =~= list.drop_first());
            assert(t.by_size[size as int] =~= moved);
            assert(t.by_size =~= s.by_size.update(size as int, moved));
            assert(t.slots =~= s.slots);
            assert(t =~= slot_rotate(s, size as int));
            self.slots_by_size.lemma_ok();
            assert forall|l: int, i: int|
                0 <= l < t.by_size.len() && 0 <= i < t.by_size[l].len() implies t.slots[(
            #[trigger] t.by_size[l][i]) as int].size == l by {
                if l == size {
                    let j = if i + 1 < list.len() {
                        i + 1
                    } else {
                        0
                    };
                    assert(t.by_size[l][i] == s.by_size[l][j]);
                } else {
                    assert(t.by_size[l][i] == s.by_size[l][i]);
                }
            }
            assert(slots_ok(g@, t));
        }
    }

    /// Try existing slots for a spill set.
    fn search_slot(&mut self, g: &LiveGraph, spillset: SpillSetIndex, size: usize) -> (r: bool)
        requires
            old(self).wf(g),
            slots_sound(g@, old(self)@),
            spillset.0 < old(self)@.spillsets.len(),
            size < old(self)@.by_size.len(),
        ensures
            final(self).wf(g),
            slots_sound(g@, final(self)@),
            (final(self)@, r) == slot_search(
                g@,
                old(self)@,
                spillset.ix(),
                size as int,
                0,
                NIL,
            ),
            final(self)@.by_size.len() == old(self)@.by_size.len(),
            slots_sized(old(self)@) && size == old(self)@.spillsets[spillset.ix()].size
                ==> slots_sized(final(self)@),
            if r {
                set_with_slot(old(self)@, final(self)@, spillset.ix())
            } else {
                final(self)@.spillsets == old(self)@.spillsets
            },
    {
        let ghost s = self@;
        let mut slot = self.slots_by_size.first(size);
        let mut first_slot: u32 = NIL;
        let mut tried: u32 = 0;
        while tried < 10 && slot != NIL && slot != first_slot
            invariant
                self.wf(g),
                slots_sound(g@, self@),
                s == old(self)@,
                spillset.0 < s.spillsets.len(),
                self@.spillsets == s.spillsets,
                size < s.by_size.len(),
                self@.by_size.len() == s.by_size.len(),
                slots_sized(s) ==> slots_sized(self@),
                tried <= 10,
                slot == node_at(self@.by_size[size as int], 0),
                slot == NIL <==> self@.by_size[size as int].len() == 0,
                slot != NIL ==> slot < self@.slots.len(),
                slot_search(g@, s, spillset.ix(), size as int, 0, NIL) == slot_search(
                    g@,
                    self@,
                    spillset.ix(),
                    size as int,
                    tried as int,
                    first_slot,
                ),
            decreases 10 - tried,
        {
            if first_slot == NIL {
                first_slot = slot;
            }
            let spillslot = SpillSlotIndex(slot);
            if self.spillslot_can_fit_spillset(g, spillslot, spillset) {
                proof {
                    lemma_assign_sound(g.func@, g@, self@, spillset.ix(), slot);
                    let list = self@.by_size[size as int];
                    assert(self@.slots[self@.by_size[size as int][0] as int].size == size);
                    if slots_sized(s) && size == s.spillsets[spillset.ix()].size {
                        lemma_sized_assign(g@, self@, spillset.ix(), slot);
                    }
                }
                self.allocate_spillset_to_spillslot(g, spillset, spillslot);
                return true;
            }
            let ghost t = self@;
            self.rotate(g, size);
            proof {
                if slots_sized(s) {
                    lemma_sized_same(t, self@);
                }
                lemma_same_entries_sound(g@, t, self@);
            }
            slot = self.slots_by_size.first(size);
            tried += 1;
        }
        false
    }

    /// Make a new slot for a spill set.
    fn new_slot(&mut self, g: &LiveGraph, spillset: SpillSetIndex) -> (r: Result<
        (),
        RegAllocError,
    >)
        requires
            old(self).wf(g),
            slots_sound(g@, old(self)@),
            spillset.0 < old(self)@.spillsets.len(),
            old(self)@.spillsets[spillset.ix()].size < old(self)@.by_size.len(),
        ensures
            match slot_new(g@, old(self)@, spillset.ix()) {
                Ok(s) => {
                    &&& r is Ok
                    &&& final(self)@ == s
                    &&& final(self).wf(g)
                    &&& slots_sound(g@, s)
                    &&& set_with_slot(old(self)@, s, spillset.ix())
                    &&& slots_sized(old(self)@) ==> slots_sized(s)
                },
                Err(e) => r == Err::<(), RegAllocError>(e) && e !is SSA,
            },
    {
        let ghost s = self@;
        let ghost n = s.slots.len() as int;
        if self.spillslots.len() >= MAX_ENTRIES as usize {
            return Err(RegAllocError::TooLarge);
        }
        let idx = self.spillslots.len();
        let spillslot = SpillSlotIndex::new(idx);
        assert(self.spillsets@[spillset.ix()]@ == s.spillsets[spillset.ix()]);
        let size = self.spillsets[spillset.index()].size;
        let class = self.spillsets[spillset.index()].class;
        self.spillslots.push(
            SpillSlotData { ranges: LiveRangeSet::new(), size, alloc: Allocation::none(), class },
        );
        self.slots_by_size.add_node();
        self.slots_by_size.insert_after(size as usize, NIL, spillslot.0, Ghost(0));
        proof {
            let t = self@;
            assert(t.slots =~= s.slots.push(
                SlotData { ranges: Seq::empty(), class, size, alloc: Allocation::Nowhere },
            ));
            assert forall|i: int| 0 <= i < t.slots.len() implies entries_disjoint(
                (#[trigger] t.slots[i]).ranges,
            ) by {
                if i < n {
                    assert(entries_disjoint(s.slots[i].ranges));
                }
            }
            self.slots_by_size.lemma_ok();
            assert forall|l: int, i: int|
                0 <= l < t.by_size.len() && 0 <= i < t.by_size[l].len() implies t.slots[(
            #[trigger] t.by_size[l][i]) as int].size == l by {
                if l != size {
                    lemma_below(s.by_size, n, l, i);
                    assert(t.by_size[l][i] == s.by_size[l][i]);
                } else if i > 0 {
                    lemma_below(s.by_size, n, l, i - 1);
                    assert(t.by_size[l][i] == s.by_size[l][i - 1]);
                }
            }
            assert forall|i: int| 0 <= i < t.spillsets.len() implies bundles_exist(
                g@,
                (#[trigger] t.spillsets[i]).bundles,
            ) && slot_index_ok(n + 1, t.spillsets[i].slot) by {
                assert(bundles_exist(g@, s.spillsets[i].bundles));
                assert(slot_index_ok(n, s.spillsets[i].slot));
            }
            assert(slots_ok(g@, t));
            lemma_same_entries_sound(g@, s, t);
            lemma_empty_fits(g@, t.spillsets[spillset.ix()].bundles);
            lemma_assign_sound(g.func@, g@, t, spillset.ix(), spillslot.0);
            if slots_sized(s) {
                lemma_sized_same(s, t);
                lemma_sized_assign(g@, t, spillset.ix(), spillslot.0);
            }
        }
        self.allocate_spillset_to_spillslot(g, spillset, spillslot);
        Ok(())
    }

    /// Give out places in the stack frame to the slots.
    fn place_slots(&mut self, g: &LiveGraph, named_by_last: bool) -> (r: Result<(), RegAllocError>)
        requires
            old(self).wf(g),
        ensures
            match slot_places(old(self)@, named_by_last, 0, 0) {
                Ok(s) => {
                    &&& r is Ok
                    &&& final(self)@ == s
                    &&& final(self).wf(g)
                    &&& slots_sized(old(self)@) ==> slots_sized(s)
                },
                Err(e) => r == Err::<(), RegAllocError>(e) && e !is SSA,
            },
    {
        let ghost s = self@;
        let n = self.spillslots.len();
        let mut offset: u64 = 0;
        let mut i: usize = 0;
        while i < n
            invariant
                self.wf(g),
                s == old(self)@,
                n == self@.slots.len(),
                i <= n,
                slots_sized(s) ==> slots_sized(self@),
                offset <= u32::MAX,
                slot_places(s, named_by_last, 0, 0) == slot_places(
                    self@,
                    named_by_last,
                    i as int,
                    offset as int,
                ),
            decreases n - i,
        {
            let ghost t = self@;
            assert(self.spillslots@[i as int]@ == t.slots[i as int]);
            let size32 = self.spillslots[i].size;
            let class = self.spillslots[i].class;
            if size32 == 0 || size32 & (size32 - 1) != 0 {
                return Err(RegAllocError::SlotSize(size32));
            }
            proof {
                let below: u32 = (size32 - 1) as u32;
                assert(size32 <= 0x8000_0000u32) by (bit_vector)
                    requires
                        size32 != 0,
                        below == size32 - 1,
                        size32 & below == 0,
                ;
            }
            let size = size32 as u64;
            let blocks: u64 = (offset + size - 1) / size;
            proof {
                lemma_align_up(offset as int, size as int);
                assert(blocks * size == align_up(offset as int, size as int));
            }
            offset = blocks * size;
            let slot = if named_by_last {
                offset + size - 1
            } else {
                offset
            };
            if slot >= MAX_SPILLSLOTS as u64 {
                return Err(RegAllocError::TooLarge);
            }
            let alloc = Allocation::stack(SpillSlot::new(slot as usize, class));
            self.spillslots[i].alloc = alloc;
            proof {
                assert(self@.slots =~= t.slots.update(
                    i as int,
                    SlotData { alloc, ..t.slots[i as int] },
                ));
                assert forall|k: int| 0 <= k < self@.slots.len() implies entries_disjoint(
                    (#[trigger] self@.slots[k]).ranges,
                ) by {
                    assert(entries_disjoint(t.slots[k].ranges));
                }
                assert(self@ =~= SlotState { slots: self@.slots, ..t });
                lemma_sizes_same(t, self@);
                if slots_sized(s) {
                    lemma_sized_same(t, self@);
                }
                assert(slots_ok(g@, self@));
            }
            offset = offset + size;
            i += 1;
        }
        let ghost t = self@;
        self.num_spillslots = offset as u32;
        assert(self@ =~= SlotState { num_spillslots: offset as u32, ..t });
        proof {
            if slots_sized(s) {
                lemma_sized_same(t, self@);
            }
        }
        assert(slots_ok(g@, self@));
        Ok(())
    }

    /// Give every spill set with bundles a slot, and every slot a place in the stack frame.
    pub fn allocate_spillslots(&mut self, g: &LiveGraph, named_by_last: bool) -> (r: Result<
        (),
        RegAllocError,
    >)
        requires
            old(self).wf(g),
            slots_sound(g@, old(self)@),
        ensures
            match slot_allocate(g@, old(self)@, named_by_last) {
                Ok(s) => {
                    &&& r is Ok
                    &&& final(self)@ == s
                    &&& final(self).wf(g)
                    &&& slots_sound(g@, s)
                    &&& sets_with_slots(old(self)@, s, s.spillsets.len() as int)
                    &&& slots_placed(
                        s,
                        named_by_last,
                        s.slots.len() as int,
                        s.num_spillslots as int,
                    )
                    &&& slots_sized(old(self)@) ==> slots_sized(s)
                },
                Err(e) => r == Err::<(), RegAllocError>(e) && e !is SSA,
            },
    {
        let ghost s = self@;
        let n = self.spillsets.len();
        let mut i: usize = 0;
        while i < n
            invariant
                self.wf(g),
                s == old(self)@,
                slots_sound(g@, self@),
                sets_with_slots(s, self@, i as int),
                slots_sized(s) ==> slots_sized(self@),
                n == self@.spillsets.len(),
                i <= n,
                slot_all(g@, s, 0) == slot_all(g@, self@, i as int),
            decreases n - i,
        {
            let spillset = SpillSetIndex::new(i);
            assert(self.spillsets@[i as int]@ == self@.spillsets[i as int]);
            if small_len(&self.spillsets[i].bundles) > 0 {
                let size = self.spillsets[i].size as usize;
                let ghost t = self@;
                self.list_for_size(g, size);
                proof {
                    if slots_sized(s) {
                        lemma_sized_same(t, self@);
                    }
                    lemma_same_entries_sound(g@, t, self@);
                }
                if !self.search_slot(g, spillset, size) {
                    match self.new_slot(g, spillset) {
                        Ok(()) => {},
                        Err(e) => {
                            return Err(e);
                        },
                    }
                }
            }
            i += 1;
        }
        let ghost t = self@;
        proof {
            law_slots_apart(t, named_by_last);
        }
        match self.place_slots(g, named_by_last) {
            Ok(()) => {
                proof {
                    lemma_same_entries_sound(g@, t, self@);
                }
                Ok(())
            },
            Err(e) => Err(e),
        }
    }
}

} // verus!
