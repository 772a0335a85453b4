//! Attempts to give a bundle a register, and evictions.
use crate::assign::{
    all_queued, base_ok, hint_ok, lemma_alloc_bundles, lemma_bundles_sound, lemma_queue_member,
    preg_ok, queued_ok, same_lists, taken_ok, AllocPass, AllocState, SpillSetState,
};
use crate::code_range::{
    entries_disjoint, entries_get, entries_insert, entries_remove, find_overlap, first_not_before,
    lemma_first_not_before, lemma_first_overlap, LiveRangeKey, RangeEntry,
};
use crate::data::{props_weight, LiveBundle, SPILL_WEIGHT_MASK};
use crate::func::Function;
use crate::graph::{range_ok, GraphState};
use crate::index::{LiveBundleIndex, LiveRangeIndex, PRegIndex};
use crate::lists::{node_at, NIL};
use crate::liveness::{may_hold, Ctx};
use crate::place::{
    aside_free, frees_kept, is_free, is_idle, is_queued, lemma_drop_placed, lemma_frees_preg,
    lemma_frees_same, lemma_frees_trans, lemma_ordered_same, lemma_take_placed, with_allocation,
};
use crate::props::{graph_set_bundle, lemma_set_bundle_ok};
use crate::queue::{queue_insert, PrioQueueEntry};
use crate::reg::{Allocation, PReg};
use crate::small::{small_get, small_len, small_new, small_push, IndexVec};
use vstd::prelude::*;

verus! {

/// The key of a live range.
pub open spec fn range_key(g: GraphState, r: u32) -> LiveRangeKey {
    LiveRangeKey::of(g.ranges[r as int].range)
}

/// The bundles, after those in `found`, that hold the register where the live ranges from
/// position `i` of the list on need it. None if it is taken for good somewhere.
pub open spec fn find_conflicts(
    g: GraphState,
    entries: Seq<RangeEntry>,
    list: Seq<u32>,
    i: int,
    found: Seq<u32>,
) -> Option<Seq<u32>>
    decreases list.len() - i,
{
    if i < 0 || i >= list.len() {
        Some(found)
    } else {
        match entries_get(entries, range_key(g, list[i])) {
            Some(lr) => if g.ranges[lr.ix()].vreg.is_valid() {
                let b = g.ranges[lr.ix()].bundle.0;
                let more = if found.contains(b) {
                    found
                } else {
                    found.push(b)
                };
                find_conflicts(g, entries, list, i + 1, more)
            } else {
                None
            },
            None => find_conflicts(g, entries, list, i + 1, found),
        }
    }
}

/// The entries after the live ranges from position `i` of the list on were put in.
pub open spec fn take_ranges(g: GraphState, entries: Seq<RangeEntry>, list: Seq<u32>, i: int) -> Seq<
    RangeEntry,
>
    decreases list.len() - i,
{
    if i < 0 || i >= list.len() {
        entries
    } else {
        take_ranges(
            g,
            entries_insert(entries, range_key(g, list[i]), LiveRangeIndex(list[i])),
            list,
            i + 1,
        )
    }
}

/// The entries after those of the live ranges from position `i` of the list on were taken out.
pub open spec fn drop_ranges(g: GraphState, entries: Seq<RangeEntry>, list: Seq<u32>, i: int) -> Seq<
    RangeEntry,
>
    decreases list.len() - i,
{
    if i < 0 || i >= list.len() {
        entries
    } else {
        drop_ranges(g, entries_remove(entries, range_key(g, list[i])), list, i + 1)
    }
}

/// How an attempt to give a bundle a register ended.
pub enum AllocRegResult {
    /// The bundle has the register now.
    Allocated(Allocation),
    /// These bundles are in the way.
    Conflict(IndexVec),
    /// The register is taken for good somewhere.
    ConflictWithFixed,
}

/// The mathematical value of an `AllocRegResult`.
pub enum TryResult {
    Allocated(Allocation),
    Conflict(Seq<u32>),
    ConflictWithFixed,
}

impl AllocRegResult {
    /// The mathematical value.
    pub open spec fn view(&self) -> TryResult {
        match self {
            AllocRegResult::Allocated(a) => TryResult::Allocated(*a),
            AllocRegResult::Conflict(b) => TryResult::Conflict(b@),
            AllocRegResult::ConflictWithFixed => TryResult::ConflictWithFixed,
        }
    }
}

/// The attempt to give bundle `b` the register number `p`.
pub open spec fn alloc_try(c: Ctx, s: AllocState, b: u32, p: int) -> (AllocState, TryResult) {
    let list = s.g.in_bundle[b as int];
    match find_conflicts(s.g, s.pregs[p], list, 0, Seq::empty()) {
        Some(found) => if found.len() > 0 {
            (s, TryResult::Conflict(found))
        } else {
            let alloc = Allocation::Reg(c.m.regs[p]);
            (
                AllocState {
                    g: graph_set_bundle(
                        s.g,
                        b,
                        LiveBundle { allocation: alloc, ..s.g.bundles[b as int] },
                    ),
                    pregs: s.pregs.update(p, take_ranges(s.g, s.pregs[p], list, 0)),
                    ..s
                },
                TryResult::Allocated(alloc),
            )
        },
        None => (s, TryResult::ConflictWithFixed),
    }
}

/// Bundle `b` loses its register, if it has one, and is queued again.
pub open spec fn alloc_evict(s: AllocState, b: u32) -> AllocState {
    match s.g.bundles[b as int].allocation.as_reg() {
        Some(preg) => AllocState {
            g: graph_set_bundle(
                s.g,
                b,
                LiveBundle { allocation: Allocation::Nowhere, ..s.g.bundles[b as int] },
            ),
            pregs: s.pregs.update(
                preg.ix(),
                drop_ranges(s.g, s.pregs[preg.ix()], s.g.in_bundle[b as int], 0),
            ),
            queue: queue_insert(
                s.queue,
                PrioQueueEntry {
                    prio: s.g.bundles[b as int].prio,
                    bundle: LiveBundleIndex(b),
                },
            ),
            ..s
        },
        None => s,
    }
}

/// What was put in is an entry, and so is what was there, under one live range or another.
proof fn lemma_preg_insert_ok(
    g: GraphState,
    n: int,
    s: Seq<RangeEntry>,
    key: LiveRangeKey,
    lr: LiveRangeIndex,
)
    requires
        preg_ok(g, n, s),
        lr.0 < g.ranges.len(),
        taken_ok(g, n, lr),
        entries_disjoint(entries_insert(s, key, lr)),
    ensures
        preg_ok(g, n, entries_insert(s, key, lr)),
{
    lemma_first_overlap(s, key, 0);
    lemma_first_not_before(s, key, 0);
    let t = entries_insert(s, key, lr);
    let i = find_overlap(s, key);
    let p = first_not_before(s, key, 0);
    assert forall|k: int| 0 <= k < t.len() implies (#[trigger] t[k]).1.0 < g.ranges.len() && taken_ok(
        g,
        n,
        t[k].1,
    ) by {
        if i < s.len() {
            if k != i {
                assert(t[k] == s[k]);
            }
        } else if k < p {
            assert(t[k] == s[k]);
        } else if k > p {
            assert(t[k] == s[k - 1]);
        }
    }
}

proof fn lemma_preg_remove_ok(g: GraphState, n: int, s: Seq<RangeEntry>, key: LiveRangeKey)
    requires
        preg_ok(g, n, s),
        entries_disjoint(entries_remove(s, key)),
    ensures
        preg_ok(g, n, entries_remove(s, key)),
{
    lemma_first_overlap(s, key, 0);
    let t = entries_remove(s, key);
    let i = find_overlap(s, key);
    assert forall|k: int| 0 <= k < t.len() implies (#[trigger] t[k]).1.0 < g.ranges.len() && taken_ok(
        g,
        n,
        t[k].1,
    ) by {
        if i < s.len() && k >= i {
            assert(t[k] == s[k + 1]);
        } else {
            assert(t[k] == s[k]);
        }
    }
}

/// The entries of one physical register may change.
proof fn lemma_alloc_preg(c: Ctx, s: AllocState, t: AllocState, p: int)
    requires
        base_ok(c, s),
        0 <= p < s.pregs.len(),
        t == (AllocState { pregs: t.pregs, ..s }),
        t.pregs == s.pregs.update(p, t.pregs[p]),
        preg_ok(s.g, s.spillsets.len() as int, t.pregs[p]),
    ensures
        base_ok(c, t),
{
}

/// Is the number in the sequence?
fn small_contains(v: &IndexVec, x: u32) -> (r: bool)
    ensures
        r == v@.contains(x),
{
    let mut i: usize = 0;
    while i < small_len(v)
        invariant
            i <= v@.len(),
            forall|k: int| 0 <= k < i ==> v@[k] != x,
        decreases v@.len() - i,
    {
        if small_get(v, i) == x {
            assert(v@[i as int] == x);
            return true;
        }
        i += 1;
    }
    false
}

impl<'a, F: Function> AllocPass<'a, F> {
    /// The bundles that are in the way of a bundle in a register; none if the register is taken
    /// for good somewhere.
    fn conflicts(&self, bundle: LiveBundleIndex, reg: PRegIndex) -> (r: Option<IndexVec>)
        requires
            self.wf(),
            queued_ok(self@.g, self@.spillsets.len() as int, bundle.0),
            reg.0 < self@.pregs.len(),
            reg.is_valid(),
        ensures
            match find_conflicts(
                self@.g,
                self@.pregs[reg.ix()],
                self@.g.in_bundle[bundle.ix()],
                0,
                Seq::empty(),
            ) {
                Some(found) => r is Some && r->0@ == found && all_queued(
                    self@.g,
                    self@.spillsets.len() as int,
                    found,
                ),
                None => r is None,
            },
    {
        let ghost s = self@;
        let ghost list = s.g.in_bundle[bundle.ix()];
        let ghost entries = s.pregs[reg.ix()];
        let ghost n = s.spillsets.len() as int;
        let mut conflicts = small_new();
        let mut iter = self.g.in_bundle.first(bundle.index());
        let ghost mut i: int = 0;
        assert(preg_ok(s.g, n, entries));
        assert(self.pregs@[reg.ix()].allocations@ == entries);
        while iter != NIL
            invariant
                self.wf(),
                self@ == s,
                reg.0 < s.pregs.len(),
                reg.is_valid(),
                bundle.0 < s.g.bundles.len(),
                n == s.spillsets.len(),
                entries == s.pregs[reg.ix()],
                preg_ok(s.g, n, entries),
                self.pregs@[reg.ix()].allocations@ == entries,
                list == s.g.in_bundle[bundle.ix()],
                0 <= i <= list.len(),
                iter == node_at(list, i),
                iter == NIL <==> i == list.len(),
                iter != NIL ==> iter < s.g.ranges.len(),
                all_queued(s.g, n, conflicts@),
                find_conflicts(s.g, entries, list, 0, Seq::empty()) == find_conflicts(
                    s.g,
                    entries,
                    list,
                    i,
                    conflicts@,
                ),
            decreases list.len() - i,
        {
            assert(range_ok(self.g.func@, s.g, iter as int));
            let key = LiveRangeKey::from_range(&self.g.ranges[iter as usize].range);
            assert(key == range_key(s.g, list[i]));
            match self.pregs[reg.index()].allocations.get(&key) {
                Some(preg_range) => {
                    proof {
                        lemma_first_overlap(entries, key, 0);
                        let k = find_overlap(entries, key);
                        assert(entries[k].1 == preg_range);
                        assert(taken_ok(s.g, n, entries[k].1));
                    }
                    let data = self.g.ranges[preg_range.index()];
                    if data.vreg.is_valid() {
                        let conflict_bundle = data.bundle.0;
                        if !small_contains(&conflicts, conflict_bundle) {
                            let ghost before = conflicts@;
                            small_push(&mut conflicts, conflict_bundle);
                            assert forall|k: int| 0 <= k < conflicts@.len() implies queued_ok(
                                s.g,
                                n,
                                #[trigger] conflicts@[k],
                            ) by {
                                if k < before.len() {
                                    assert(queued_ok(s.g, n, before[k]));
                                }
                            }
                        }
                    } else {
                        return None;
                    }
                },
                None => {},
            }
            iter = self.g.in_bundle.next(iter, Ghost(bundle.ix()), Ghost(i));
            proof {
                i = i + 1;
            }
        }
        Some(conflicts)
    }

    /// Try to give a bundle a register. The tables stay sound for a register that may hold values.
    pub fn try_to_allocate_bundle_to_reg(&mut self, bundle: LiveBundleIndex, reg: PRegIndex) -> (r:
        AllocRegResult)
        requires
            old(self).wf(),
            queued_ok(old(self)@.g, old(self)@.spillsets.len() as int, bundle.0),
            is_free(old(self)@, bundle.0),
            reg.0 < old(self)@.pregs.len(),
            reg.is_valid(),
        ensures
            final(self).ctx() == old(self).ctx(),
            may_hold(old(self).ctx(), reg.ix()) ==> final(self).wf(),
            (final(self)@, r@) == alloc_try(old(self).ctx(), old(self)@, bundle.0, reg.ix()),
            same_lists(old(self)@.g, final(self)@.g),
            frees_kept(old(self)@, final(self)@),
            final(self)@.pregs.len() == old(self)@.pregs.len(),
            queued_ok(final(self)@.g, final(self)@.spillsets.len() as int, bundle.0),
            r matches AllocRegResult::Conflict(found) ==> all_queued(
                final(self)@.g,
                final(self)@.spillsets.len() as int,
                found@,
            ),
            r matches AllocRegResult::Allocated(alloc) ==> alloc.as_reg() is Some && (may_hold(
                old(self).ctx(),
                reg.ix(),
            ) ==> hint_ok(old(self).ctx(), alloc.as_reg())),
    {
        let ghost s = self@;
        let ghost c = self.ctx();
        let ghost n = s.spillsets.len() as int;
        proof {
            lemma_frees_same(s, s);
        }
        let conflicts = match self.conflicts(bundle, reg) {
            Some(conflicts) => conflicts,
            None => {
                return AllocRegResult::ConflictWithFixed;
            },
        };
        if small_len(&conflicts) > 0 {
            return AllocRegResult::Conflict(conflicts);
        }
        let preg = self.pregs[reg.index()].reg;
        assert(c.m.regs[reg.ix()].ix() == reg.ix());
        let ghost list = s.g.in_bundle[bundle.ix()];
        let mut iter = self.g.in_bundle.first(bundle.index());
        let ghost mut i: int = 0;
        while iter != NIL
            invariant
                self.base_wf(),
                self.ctx() == c,
                reg.0 < s.pregs.len(),
                reg.is_valid(),
                queued_ok(s.g, n, bundle.0),
                n == s.spillsets.len(),
                self@ == (AllocState {
                    pregs: s.pregs.update(reg.ix(), self@.pregs[reg.ix()]),
                    ..s
                }),
                list == s.g.in_bundle[bundle.ix()],
                0 <= i <= list.len(),
                iter == node_at(list, i),
                iter == NIL <==> i == list.len(),
                iter != NIL ==> iter < s.g.ranges.len(),
                take_ranges(s.g, s.pregs[reg.ix()], list, 0) == take_ranges(
                    s.g,
                    self@.pregs[reg.ix()],
                    list,
                    i,
                ),
            decreases list.len() - i,
        {
            let ghost t = self@;
            assert(range_ok(self.g.func@, s.g, iter as int));
            assert(preg_ok(t.g, n, t.pregs[reg.ix()]));
            assert(self.pregs@[reg.ix()].allocations@ == t.pregs[reg.ix()]);
            let key = LiveRangeKey::from_range(&self.g.ranges[iter as usize].range);
            assert(key == range_key(s.g, list[i]));
            self.pregs[reg.index()].allocations.insert(key, LiveRangeIndex(iter));
            proof {
                let e = entries_insert(t.pregs[reg.ix()], key, LiveRangeIndex(iter));
                assert(s.g.in_bundle[bundle.ix()][i] == iter);
                lemma_preg_insert_ok(t.g, n, t.pregs[reg.ix()], key, LiveRangeIndex(iter));
                assert(self@.pregs =~= t.pregs.update(reg.ix(), e));
                lemma_alloc_preg(c, t, self@, reg.ix());
                assert(self@.pregs =~= s.pregs.update(reg.ix(), self@.pregs[reg.ix()]));
            }
            iter = self.g.in_bundle.next(iter, Ghost(bundle.ix()), Ghost(i));
            proof {
                i = i + 1;
            }
        }
        let ghost t = self@;
        let alloc = Allocation::reg(preg);
        proof {
            lemma_set_bundle_ok(
                c.f,
                t.g,
                bundle.0,
                LiveBundle { allocation: alloc, ..t.g.bundles[bundle.ix()] },
            );
        }
        self.g.bundles[bundle.index()].allocation = alloc;
        proof {
            let u = self@;
            assert(same_lists(t.g, u.g));
            if may_hold(c, reg.ix()) {
                lemma_alloc_bundles(c, t, u);
            }
            assert forall|x: int| 0 <= x < s.g.bundles.len() implies ((
            #[trigger] s.g.bundles[x]).allocation.as_reg() matches Some(q) ==> q.ix()
                < s.pregs.len()) by {
                assert(hint_ok(c, s.g.bundles[x].allocation.as_reg()));
            }
            lemma_take_placed(c, s.g, s.pregs, bundle.0, reg.ix());
            lemma_frees_preg(s, u, reg.ix());
            assert(u.g == with_allocation(s.g, bundle.0, alloc));
            lemma_ordered_same(s.g, u.g, n, n);
            assert forall|i: int| 0 <= i < u.queue.len() implies u.g.bundles[(
            #[trigger] u.queue[i]).bundle.ix()].allocation == Allocation::Nowhere by {
                assert(s.g.bundles[s.queue[i].bundle.ix()].allocation == Allocation::Nowhere);
                assert(s.queue[i].bundle.0 != bundle.0);
            }
        }
        AllocRegResult::Allocated(alloc)
    }

    /// Take the register of a bundle away, if it has one, and queue the bundle again.
    pub fn evict_bundle(&mut self, bundle: LiveBundleIndex)
        requires
            old(self).wf(),
            queued_ok(old(self)@.g, old(self)@.spillsets.len() as int, bundle.0),
            aside_free(old(self)@, 0),
        ensures
            final(self).ctx() == old(self).ctx(),
            final(self).wf(),
            aside_free(final(self)@, 0),
            forall|b: u32|
                b < old(self)@.g.bundles.len() && is_idle(old(self)@, b) ==> #[trigger] is_idle(
                    final(self)@,
                    b,
                ),
            final(self)@ == alloc_evict(old(self)@, bundle.0),
            same_lists(old(self)@.g, final(self)@.g),
            frees_kept(old(self)@, final(self)@),
            final(self)@.pregs.len() == old(self)@.pregs.len(),
            forall|b: u32|
                queued_ok(old(self)@.g, old(self)@.spillsets.len() as int, b)
                    ==> #[trigger] queued_ok(
                    final(self)@.g,
                    final(self)@.spillsets.len() as int,
                    b,
                ),
    {
        let ghost s = self@;
        let ghost c = self.ctx();
        let ghost n = s.spillsets.len() as int;
        let data = self.g.bundles[bundle.index()];
        let preg = match data.allocation.as_reg() {
            Some(preg) => preg,
            None => {
                proof {
                    lemma_frees_same(s, s);
                }
                return ;
            },
        };
        assert(hint_ok(c, s.g.bundles[bundle.ix()].allocation.as_reg()));
        let p = preg.index();
        let ghost list = s.g.in_bundle[bundle.ix()];
        let mut iter = self.g.in_bundle.first(bundle.index());
        let ghost mut i: int = 0;
        while iter != NIL
            invariant
                self.base_wf(),
                self.ctx() == c,
                p < s.pregs.len(),
                queued_ok(s.g, n, bundle.0),
                n == s.spillsets.len(),
                self@ == (AllocState {
                    pregs: s.pregs.update(p as int, self@.pregs[p as int]),
                    ..s
                }),
                list == s.g.in_bundle[bundle.ix()],
                0 <= i <= list.len(),
                iter == node_at(list, i),
                iter == NIL <==> i == list.len(),
                iter != NIL ==> iter < s.g.ranges.len(),
                drop_ranges(s.g, s.pregs[p as int], list, 0) == drop_ranges(
                    s.g,
                    self@.pregs[p as int],
                    list,
                    i,
                ),
            decreases list.len() - i,
        {
            let ghost t = self@;
            assert(range_ok(self.g.func@, s.g, iter as int));
            assert(preg_ok(t.g, n, t.pregs[p as int]));
            assert(self.pregs@[p as int].allocations@ == t.pregs[p as int]);
            let key = LiveRangeKey::from_range(&self.g.ranges[iter as usize].range);
            assert(key == range_key(s.g, list[i]));
            self.pregs[p].allocations.remove(&key);
            proof {
                let e = entries_remove(t.pregs[p as int], key);
                lemma_preg_remove_ok(t.g, n, t.pregs[p as int], key);
                assert(self@.pregs =~= t.pregs.update(p as int, e));
                lemma_alloc_preg(c, t, self@, p as int);
                assert(self@.pregs =~= s.pregs.update(p as int, self@.pregs[p as int]));
            }
            iter = self.g.in_bundle.next(iter, Ghost(bundle.ix()), Ghost(i));
            proof {
                i = i + 1;
            }
        }
        let ghost t = self@;
        proof {
            lemma_set_bundle_ok(
                c.f,
                t.g,
                bundle.0,
                LiveBundle { allocation: Allocation::Nowhere, ..t.g.bundles[bundle.ix()] },
            );
        }
        self.g.bundles[bundle.index()].allocation = Allocation::none();
        let ghost u = self@;
        proof {
            assert(same_lists(t.g, u.g));
            lemma_alloc_bundles(c, t, u);
            assert forall|x: int| 0 <= x < s.g.bundles.len() implies ((
            #[trigger] s.g.bundles[x]).allocation.as_reg() matches Some(q) ==> q.ix()
                < s.pregs.len()) by {
                assert(hint_ok(c, s.g.bundles[x].allocation.as_reg()));
            }
            assert(preg_ok(s.g, n, s.pregs[p as int]));
            lemma_drop_placed(c, s.g, s.pregs, bundle.0, p as int);
            lemma_frees_preg(s, u, p as int);
            assert(u.g == with_allocation(s.g, bundle.0, Allocation::Nowhere));
            lemma_ordered_same(s.g, u.g, n, n);
            assert forall|i: int| 0 <= i < u.queue.len() implies u.g.bundles[(
            #[trigger] u.queue[i]).bundle.ix()].allocation == Allocation::Nowhere by {
                assert(s.g.bundles[s.queue[i].bundle.ix()].allocation == Allocation::Nowhere);
            }
            assert(is_idle(u, bundle.0)) by {
                if is_queued(s.queue, bundle.0) {
                    let i = choose|i: int| 0 <= i < s.queue.len() && (
                    #[trigger] s.queue[i]).bundle.0 == bundle.0;
                    assert(s.g.bundles[s.queue[i].bundle.ix()].allocation
                        == Allocation::Nowhere);
                }
                if s.spilled.contains(LiveBundleIndex(bundle.0)) {
                    let i = choose|i: int| 0 <= i < s.spilled.len() && s.spilled[i]
                        == LiveBundleIndex(bundle.0);
                    assert(s.g.bundles[s.spilled[i].ix()].allocation == Allocation::Nowhere);
                }
            }
        }
        self.enqueue(bundle, data.prio);
        proof {
            let w = self@;
            lemma_frees_same(u, w);
            lemma_frees_trans(s, u, w);
            let e = PrioQueueEntry { prio: data.prio, bundle };
            assert forall|b: u32|
                b < s.g.bundles.len() && is_idle(s, b) implies #[trigger] is_idle(w, b) by {
                if is_queued(w.queue, b) {
                    let i = choose|i: int| 0 <= i < w.queue.len() && (
                    #[trigger] w.queue[i]).bundle.0 == b;
                    lemma_queue_member(u.queue, e, i);
                    if w.queue[i] != e {
                        let j = choose|j: int| 0 <= j < u.queue.len() && u.queue[j]
                            == w.queue[i];
                        assert(s.queue[j].bundle.0 == b);
                    }
                }
            }
            assert forall|i: int| 0 <= i < w.spilled.len() implies w.g.bundles[(
            #[trigger] w.spilled[i]).ix()].allocation == Allocation::Nowhere by {
                assert(s.g.bundles[s.spilled[i].ix()].allocation == Allocation::Nowhere);
                assert(queued_ok(s.g, n, s.spilled[i].0));
            }
        }
    }
}

/// The greatest weight of the first `n` of these bundles; 0 if there are none.
pub open spec fn max_weight(g: GraphState, bundles: Seq<u32>, n: int) -> u32
    decreases n,
{
    if n <= 0 {
        0
    } else {
        let m = max_weight(g, bundles, n - 1);
        let w = props_weight(g.bundles[bundles[n - 1] as int].spill_weight_and_props);
        if w > m {
            w
        } else {
            m
        }
    }
}

/// The spill set of bundle `b` remembers a register as its hint.
pub open spec fn alloc_set_hint(s: AllocState, b: u32, preg: Option<PReg>) -> AllocState {
    let i = s.g.bundles[b as int].spillset.ix();
    AllocState {
        spillsets: s.spillsets.update(i, SpillSetState { reg_hint: preg, ..s.spillsets[i] }),
        ..s
    }
}

impl<'a, F: Function> AllocPass<'a, F> {
    /// The spill weight that was noted for a bundle.
    pub fn bundle_spill_weight(&self, bundle: LiveBundleIndex) -> (r: u32)
        requires
            self.wf(),
            bundle.0 < self@.g.bundles.len(),
        ensures
            r == props_weight(self@.g.bundles[bundle.ix()].spill_weight_and_props),
    {
        self.g.bundles[bundle.index()].spill_weight_and_props & SPILL_WEIGHT_MASK
    }

    /// The greatest weight of these bundles; 0 if there are none.
    pub fn maximum_spill_weight_in_bundle_set(&self, bundles: &IndexVec) -> (r: u32)
        requires
            self.wf(),
            all_queued(self@.g, self@.spillsets.len() as int, bundles@),
        ensures
            r == max_weight(self@.g, bundles@, bundles@.len() as int),
    {
        let mut max: u32 = 0;
        let mut i: usize = 0;
        while i < small_len(bundles)
            invariant
                self.wf(),
                all_queued(self@.g, self@.spillsets.len() as int, bundles@),
                i <= bundles@.len(),
                max == max_weight(self@.g, bundles@, i as int),
            decreases bundles@.len() - i,
        {
            assert(queued_ok(self@.g, self@.spillsets.len() as int, bundles@[i as int]));
            let b = LiveBundleIndex(small_get(bundles, i));
            let w = self.bundle_spill_weight(b);
            if w > max {
                max = w;
            }
            i += 1;
        }
        max
    }

    /// Remember a register as the hint of the spill set of a bundle.
    pub fn set_hint(&mut self, bundle: LiveBundleIndex, preg: Option<PReg>)
        requires
            old(self).wf(),
            queued_ok(old(self)@.g, old(self)@.spillsets.len() as int, bundle.0),
            hint_ok(old(self).ctx(), preg),
        ensures
            final(self).ctx() == old(self).ctx(),
            final(self).wf(),
            final(self)@ == alloc_set_hint(old(self)@, bundle.0, preg),
    {
        let ghost s = self@;
        let ghost c = self.ctx();
        let set = self.g.bundles[bundle.index()].spillset;
        self.spillsets[set.index()].reg_hint = preg;
        proof {
            let t = self@;
            assert(t.spillsets =~= alloc_set_hint(s, bundle.0, preg).spillsets);
            assert forall|i: int| 0 <= i < t.spillsets.len() implies hint_ok(
                c,
                (#[trigger] t.spillsets[i]).reg_hint,
            ) && t.spillsets[i].bundles == s.spillsets[i].bundles by {
                assert(hint_ok(c, s.spillsets[i].reg_hint));
            }
            assert forall|b: int| 0 <= b < s.g.bundles.len() implies hint_ok(
                c,
                (#[trigger] t.g.bundles[b]).allocation.as_reg(),
            ) by {
                assert(hint_ok(c, s.g.bundles[b].allocation.as_reg()));
            }
            lemma_alloc_bundles(c, s, t);
            lemma_bundles_sound(c, s, t);
        }
    }
}

} // verus!
