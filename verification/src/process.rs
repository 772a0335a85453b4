//! The search for registers: one bundle after the other is given a register, split or spilled.
use crate::assign::{
    all_queued, alloc_ok, base_ok, hint_ok, lemma_bundles_sound, lemma_queue_member, preg_ok,
    queued_ok, same_lists, set_sized, taken_ok, AllocPass, AllocState,
};
use crate::bundles::listed;
use crate::data::{props_minimal, props_weight, Stats};
use crate::func::{mach_ok, Function, MachModel};
use crate::graph::{graph_ok, range_ok, GraphState};
use crate::index::{LiveBundleIndex, PRegIndex};
use crate::lists::{lists_ok, NIL};
use crate::liveness::{lemma_offered, may_hold, mentions_ok, operand_reg_ok, Ctx};
use crate::parts::{lemma_same_extent_trans, lemma_same_lists_extent, same_extent};
use crate::place::{
    aside_free, frees_kept, is_idle, is_queued, lemma_frees_same, lemma_frees_trans,
    lemma_split_sound, waiting,
};
use crate::points::split_points;
use crate::probe::{alloc_evict, alloc_set_hint, alloc_try, max_weight, AllocRegResult, TryResult};
use crate::props::{
    graph_refresh, graph_requirement, list_requirement, range_requirement, uses_requirement,
};
use crate::queue::{queue_insert, PrioQueueEntry};
use crate::reg::{Allocation, PReg, RegAllocError, RegClass};
use crate::requirement::Requirement;
use crate::settle::{
    classes_ok, lemma_requirement_class, lemma_same_requirement, lemma_settled_aside,
    lemma_settled_evict, lemma_settled_hint, lemma_settled_more, lemma_settled_requeue,
    lemma_settled_split, lemma_settled_stats, lemma_settled_step, lemma_settled_try, only,
    reg_meets, same_mentions, set_classed, settled, settled_bundle,
};
use crate::small::{small_get, small_len, small_new, IndexVec};
use crate::split::{graph_split, split_keeps, split_nonempty, split_off_bundle};
use vstd::prelude::*;

verus! {

/// Priority, weight and properties of bundle `b` are computed, and it is queued.
pub open spec fn alloc_requeue(s: AllocState, b: u32) -> Result<AllocState, RegAllocError> {
    match graph_refresh(s.g, b) {
        Ok(h) => Ok(
            AllocState {
                g: h,
                queue: queue_insert(
                    s.queue,
                    PrioQueueEntry {
                        prio: h.bundles[b as int].prio,
                        bundle: LiveBundleIndex(b),
                    },
                ),
                ..s
            },
        ),
        Err(e) => Err(e),
    }
}

/// The bundles from position `i` on are queued.
pub open spec fn alloc_requeue_all(s: AllocState, bundles: Seq<u32>, i: int) -> Result<
    AllocState,
    RegAllocError,
>
    decreases bundles.len() - i,
{
    if i < 0 || i >= bundles.len() {
        Ok(s)
    } else {
        match alloc_requeue(s, bundles[i]) {
            Ok(t) => alloc_requeue_all(t, bundles, i + 1),
            Err(e) => Err(e),
        }
    }
}

/// Bundle `b`, with bundle `conflicting` in its way, is split, and all parts are queued.
pub open spec fn alloc_split(s: AllocState, b: u32, conflicting: u32) -> Result<
    AllocState,
    RegAllocError,
> {
    let s1 = AllocState {
        stats: Stats { splits: s.stats.splits.wrapping_add(1), ..s.stats },
        ..s
    };
    let (points, stats) = split_points(s1, b, conflicting);
    match graph_split(s1.g, b, points) {
        Ok(c) => match alloc_requeue(AllocState { g: c.g, stats, ..s1 }, b) {
            Ok(s2) => alloc_requeue_all(s2, c.made, 0),
            Err(e) => Err(e),
        },
        Err(e) => Err(e),
    }
}

/// A split leaves the search in order.
proof fn lemma_alloc_split(c: Ctx, s: AllocState, t: AllocState, home: u32, made: Seq<u32>)
    requires
        base_ok(c, s),
        t == (AllocState { g: t.g, stats: t.stats, ..s }),
        graph_ok(c.f, t.g),
        listed(t.g),
        split_keeps(s.g, t.g, home, made),
        split_nonempty(s.g, t.g, made),
        queued_ok(s.g, s.spillsets.len() as int, home),
    ensures
        base_ok(c, t),
        all_queued(t.g, t.spillsets.len() as int, made),
        forall|b: u32|
            queued_ok(s.g, s.spillsets.len() as int, b) ==> #[trigger] queued_ok(
                t.g,
                t.spillsets.len() as int,
                b,
            ),
{
    let n = s.spillsets.len() as int;
    let g = s.g;
    let h = t.g;
    let len = g.bundles.len() as int;
    assert forall|b: u32| queued_ok(g, n, b) implies #[trigger] queued_ok(h, n, b) by {
        assert(h.bundles.take(len)[b as int] == h.bundles[b as int]);
        assert(h.in_bundle[b as int].len() > 0);
    }
    assert forall|i: int| 0 <= i < made.len() implies queued_ok(h, n, #[trigger] made[i]) by {
        assert(h.bundles[made[i] as int] == split_off_bundle(g, home));
    }
    assert forall|p: int| 0 <= p < t.pregs.len() implies preg_ok(h, n, #[trigger] t.pregs[p]) by {
        assert(preg_ok(g, n, s.pregs[p]));
        assert forall|i: int| 0 <= i < t.pregs[p].len() implies taken_ok(
            h,
            n,
            (#[trigger] t.pregs[p][i]).1,
        ) by {
            let lr = s.pregs[p][i].1;
            assert(taken_ok(g, n, s.pregs[p][i].1));
            assert(h.ranges[lr.ix()].vreg == g.ranges[lr.ix()].vreg);
            if h.ranges[lr.ix()].vreg.is_valid() && h.ranges[lr.ix()].bundle
                != g.ranges[lr.ix()].bundle {
                let b = h.ranges[lr.ix()].bundle.0;
                let k = choose|k: int| 0 <= k < made.len() && made[k] == b;
                assert(queued_ok(h, n, made[k]));
            }
        }
    }
    assert forall|i: int| 0 <= i < t.queue.len() implies queued_ok(
        h,
        n,
        (#[trigger] t.queue[i]).bundle.0,
    ) by {
        assert(queued_ok(g, n, s.queue[i].bundle.0));
    }
    assert forall|i: int| 0 <= i < t.spilled.len() implies queued_ok(
        h,
        n,
        (#[trigger] t.spilled[i]).0,
    ) by {
        assert(queued_ok(g, n, s.spilled[i].0));
    }
    assert forall|i: int| 0 <= i < n implies hint_ok(c, (#[trigger] t.spillsets[i]).reg_hint)
        && all_queued(h, n, t.spillsets[i].bundles) && t.spillsets[i].slot.is_invalid() && set_sized(
        c.f,
        h.vregs,
        t.spillsets[i].size,
        t.spillsets[i].class,
    ) by {
        assert(all_queued(g, n, s.spillsets[i].bundles));
        assert forall|k: int| 0 <= k < t.spillsets[i].bundles.len() implies queued_ok(
            h,
            n,
            #[trigger] t.spillsets[i].bundles[k],
        ) by {
            assert(queued_ok(g, n, s.spillsets[i].bundles[k]));
        }
    }
    assert forall|b: int| 0 <= b < h.bundles.len() implies hint_ok(
        c,
        (#[trigger] h.bundles[b]).allocation.as_reg(),
    ) by {
        if b < len {
            assert(h.bundles.take(len)[b] == h.bundles[b]);
            assert(hint_ok(c, g.bundles[b].allocation.as_reg()));
        }
    }
}

/// After a split the parts are idle.
proof fn lemma_parts_idle(c: Ctx, s: AllocState, t: AllocState, home: u32, made: Seq<u32>)
    requires
        base_ok(c, s),
        is_idle(s, home),
        aside_free(s, 0),
        home < s.g.bundles.len(),
        t == (AllocState { g: t.g, stats: t.stats, ..s }),
        split_keeps(s.g, t.g, home, made),
        forall|i: int| 0 <= i < made.len() ==> #[trigger] made[i] == s.g.bundles.len() + i,
    ensures
        is_idle(t, home),
        forall|i: int| 0 <= i < made.len() ==> is_idle(t, #[trigger] made[i]),
        forall|i: int| 0 <= i < made.len() ==> #[trigger] made[i] != home,
        made.no_duplicates(),
        aside_free(t, 0),
{
    let n = s.g.bundles.len() as int;
    assert forall|b: int| 0 <= b < n implies #[trigger] t.g.bundles[b] == s.g.bundles[b] by {
        assert(t.g.bundles.take(n)[b] == t.g.bundles[b]);
    }
    assert forall|i: int| 0 <= i < made.len() implies is_idle(t, #[trigger] made[i]) by {
        assert(t.g.bundles[made[i] as int] == split_off_bundle(s.g, home));
        if is_queued(t.queue, made[i]) {
            let j = choose|j: int| 0 <= j < t.queue.len() && (#[trigger] t.queue[j]).bundle.0
                == made[i];
            assert(queued_ok(s.g, s.spillsets.len() as int, s.queue[j].bundle.0));
        }
        if t.spilled.contains(LiveBundleIndex(made[i])) {
            let j = choose|j: int| 0 <= j < t.spilled.len() && t.spilled[j] == LiveBundleIndex(
                made[i],
            );
            assert(queued_ok(s.g, s.spillsets.len() as int, s.spilled[j].0));
        }
    }
    assert forall|i: int| 0 <= i < t.spilled.len() implies t.g.bundles[(
    #[trigger] t.spilled[i]).ix()].allocation == Allocation::Nowhere by {
        assert(queued_ok(s.g, s.spillsets.len() as int, s.spilled[i].0));
        assert(s.g.bundles[s.spilled[i].ix()].allocation == Allocation::Nowhere);
    }
}

/// The bundles from position `i` on.
pub open spec fn members_from(bundles: Seq<u32>, i: int) -> Set<u32> {
    Set::new(|b: u32| exists|k: int| i <= k < bundles.len() && #[trigger] bundles[k] == b)
}

impl<'a, F: Function> AllocPass<'a, F> {
    /// Compute priority, weight and properties of a bundle and queue it.
    fn requeue(&mut self, bundle: LiveBundleIndex) -> (r: Result<(), RegAllocError>)
        requires
            old(self).wf(),
            queued_ok(old(self)@.g, old(self)@.spillsets.len() as int, bundle.0),
            is_idle(old(self)@, bundle.0),
            aside_free(old(self)@, 0),
        ensures
            final(self).ctx() == old(self).ctx(),
            match alloc_requeue(old(self)@, bundle.0) {
                Ok(s) => {
                    &&& r is Ok
                    &&& final(self)@ == s
                    &&& final(self).wf()
                    &&& aside_free(s, 0)
                    &&& same_lists(old(self)@.g, s.g)
                    &&& s.pregs == old(self)@.pregs
                    &&& forall|busy: Set<u32>|
                        settled(old(self).ctx(), old(self)@, 0, busy) ==> #[trigger] settled(
                            old(self).ctx(),
                            s,
                            0,
                            busy.remove(bundle.0),
                        )
                    &&& forall|b: u32|
                        b < old(self)@.g.bundles.len() && b != bundle.0 && is_idle(old(self)@, b)
                            ==> #[trigger] is_idle(s, b)
                    &&& forall|b: u32|
                        queued_ok(old(self)@.g, old(self)@.spillsets.len() as int, b)
                            ==> #[trigger] queued_ok(s.g, s.spillsets.len() as int, b)
                },
                Err(e) => r == Err::<(), RegAllocError>(e) && e !is SSA,
            },
    {
        let ghost s = self@;
        let ghost c = self.ctx();
        let prio = match self.g.refresh_bundle(bundle) {
            Ok(prio) => prio,
            Err(e) => {
                return Err(e);
            },
        };
        proof {
            let t = self@;
            assert(same_lists(s.g, t.g));
            assert forall|b: int| 0 <= b < s.g.bundles.len() implies {
                &&& (#[trigger] t.g.bundles[b]).spillset == s.g.bundles[b].spillset
                    || t.g.bundles[b].spillset.0 < t.spillsets.len()
                &&& hint_ok(c, t.g.bundles[b].allocation.as_reg())
            } by {
                assert(hint_ok(c, s.g.bundles[b].allocation.as_reg()));
            }
            crate::assign::lemma_alloc_bundles(c, s, t);
            lemma_bundles_sound(c, s, t);
            assert forall|b: u32|
                queued_ok(s.g, s.spillsets.len() as int, b) implies #[trigger] queued_ok(
                t.g,
                t.spillsets.len() as int,
                b,
            ) by {
                assert(t.g.bundles[b as int].spillset == s.g.bundles[b as int].spillset);
            }
        }
        let ghost t = self@;
        self.enqueue(bundle, prio);
        proof {
            let w = self@;
            let e = PrioQueueEntry { prio, bundle };
            assert forall|b: u32|
                b < s.g.bundles.len() && b != bundle.0 && is_idle(s, b) implies #[trigger] is_idle(
                w,
                b,
            ) by {
                if is_queued(w.queue, b) {
                    let i = choose|i: int| 0 <= i < w.queue.len() && (
                    #[trigger] w.queue[i]).bundle.0 == b;
                    lemma_queue_member(t.queue, e, i);
                    if w.queue[i] != e {
                        let j = choose|j: int| 0 <= j < t.queue.len() && t.queue[j]
                            == w.queue[i];
                        assert(s.queue[j].bundle.0 == b);
                    }
                }
            }
            assert forall|i: int| 0 <= i < w.spilled.len() implies w.g.bundles[(
            #[trigger] w.spilled[i]).ix()].allocation == Allocation::Nowhere by {
                assert(s.g.bundles[s.spilled[i].ix()].allocation == Allocation::Nowhere);
                assert(queued_ok(s.g, s.spillsets.len() as int, s.spilled[i].0));
            }
            assert forall|busy: Set<u32>| settled(c, s, 0, busy) implies #[trigger] settled(
                c,
                w,
                0,
                busy.remove(bundle.0),
            ) by {
                lemma_settled_requeue(c, s, w, 0, busy, bundle.0, e);
            }
        }
        Ok(())
    }

    /// Split a bundle, with another one in its way, and queue all parts.
    pub fn split_and_requeue_bundle(
        &mut self,
        bundle: LiveBundleIndex,
        first_conflicting_bundle: LiveBundleIndex,
    ) -> (r: Result<(), RegAllocError>)
        requires
            old(self).wf(),
            queued_ok(old(self)@.g, old(self)@.spillsets.len() as int, bundle.0),
            first_conflicting_bundle.is_valid() ==> queued_ok(
                old(self)@.g,
                old(self)@.spillsets.len() as int,
                first_conflicting_bundle.0,
            ),
            is_idle(old(self)@, bundle.0),
            aside_free(old(self)@, 0),
            settled(old(self).ctx(), old(self)@, 0, only(bundle.0)),
        ensures
            final(self).ctx() == old(self).ctx(),
            match alloc_split(old(self)@, bundle.0, first_conflicting_bundle.0) {
                Ok(s) => {
                    &&& r is Ok
                    &&& final(self)@ == s
                    &&& final(self).wf()
                    &&& aside_free(s, 0)
                    &&& settled(old(self).ctx(), s, 0, Set::empty())
                    &&& same_extent(old(self)@.g, s.g)
                    &&& frees_kept(old(self)@, s)
                },
                Err(e) => r == Err::<(), RegAllocError>(e) && e !is SSA,
            },
    {
        let ghost s0 = self@;
        let ghost c = self.ctx();
        self.stats.splits = self.stats.splits.wrapping_add(1);
        assert(alloc_ok(c, self@));
        let ghost s1 = self@;
        let points = self.find_split_points(bundle, first_conflicting_bundle);
        let ghost s2 = self@;
        let made = match self.g.split_bundle(bundle, &points) {
            Ok(made) => made,
            Err(e) => {
                return Err(e);
            },
        };
        let ghost s3 = self@;
        proof {
            lemma_alloc_split(c, s2, s3, bundle.0, made@);
            let cut = graph_split(s2.g, bundle.0, points@)->Ok_0;
            lemma_split_sound(c, s2, s3, bundle.0, cut);
            lemma_parts_idle(c, s2, s3, bundle.0, made@);
            lemma_settled_stats(c, s0, s2, 0, only(bundle.0));
            let parts = members_from(made@, 0).insert(bundle.0);
            lemma_settled_split(c, s2, s3, 0, bundle.0, cut, only(bundle.0), parts);
        }
        match self.requeue(bundle) {
            Ok(()) => {},
            Err(e) => {
                return Err(e);
            },
        }
        let ghost s4 = self@;
        proof {
            let parts = members_from(made@, 0).insert(bundle.0);
            lemma_settled_more(c, s4, 0, parts.remove(bundle.0), members_from(made@, 0));
        }
        assert(all_queued(s4.g, s4.spillsets.len() as int, made@)) by {
            assert forall|i: int| 0 <= i < made@.len() implies queued_ok(
                s4.g,
                s4.spillsets.len() as int,
                #[trigger] made@[i],
            ) by {
                assert(queued_ok(s3.g, s3.spillsets.len() as int, made@[i]));
            }
        }
        let mut i: usize = 0;
        while i < small_len(&made)
            invariant
                self.wf(),
                self.ctx() == c,
                c == old(self).ctx(),
                i <= made@.len(),
                all_queued(self@.g, self@.spillsets.len() as int, made@),
                made@.no_duplicates(),
                aside_free(self@, 0),
                same_lists(s4.g, self@.g),
                self@.pregs == s4.pregs,
                settled(c, self@, 0, members_from(made@, i as int)),
                forall|k: int| i <= k < made@.len() ==> is_idle(self@, #[trigger] made@[k]),
                alloc_split(old(self)@, bundle.0, first_conflicting_bundle.0)
                    == alloc_requeue_all(s4, made@, 0),
                alloc_requeue_all(s4, made@, 0) == alloc_requeue_all(self@, made@, i as int),
            decreases made@.len() - i,
        {
            let ghost t = self@;
            let b = LiveBundleIndex(small_get(&made, i));
            assert(queued_ok(t.g, t.spillsets.len() as int, made@[i as int]));
            assert(is_idle(t, made@[i as int]));
            match self.requeue(b) {
                Ok(()) => {},
                Err(e) => {
                    return Err(e);
                },
            }
            assert(all_queued(self@.g, self@.spillsets.len() as int, made@)) by {
                assert forall|k: int| 0 <= k < made@.len() implies queued_ok(
                    self@.g,
                    self@.spillsets.len() as int,
                    #[trigger] made@[k],
                ) by {
                    assert(queued_ok(t.g, t.spillsets.len() as int, made@[k]));
                }
            }
            assert forall|k: int| i + 1 <= k < made@.len() implies is_idle(
                self@,
                #[trigger] made@[k],
            ) by {
                assert(is_idle(t, made@[k]));
                assert(queued_ok(t.g, t.spillsets.len() as int, made@[k]));
                assert(made@[k] != made@[i as int]);
            }
            proof {
                let rest = members_from(made@, i as int);
                lemma_settled_more(c, self@, 0, rest.remove(b.0), members_from(made@, i + 1));
            }
            i += 1;
        }
        proof {
            lemma_settled_more(c, self@, 0, members_from(made@, i as int), Set::empty());
            lemma_same_lists_extent(s3.g, self@.g);
            lemma_same_extent_trans(s0.g, s3.g, self@.g);
            lemma_frees_same(s0, self@);
        }
        Ok(())
    }
}

/// How the search for a register ended.
pub enum ProbeEnd {
    /// The bundle has a register, or was put aside to be spilled.
    Done,
    /// The bundles that are in the way.
    Conflicts(Seq<u32>),
}

/// The register to try in step `i`: the hint first, then the registers of the class, beginning at
/// a place that depends on the bundle, without the hint.
pub open spec fn probe_reg(c: Ctx, class: RegClass, b: u32, hint: Option<PReg>, i: int) -> Option<
    PReg,
> {
    let regs = c.m.regs_by_class[class.ix()];
    match hint {
        Some(h) => if i == 0 {
            Some(h)
        } else {
            let reg = regs[(i - 1 + b) % regs.len() as int];
            if reg == h {
                None
            } else {
                Some(reg)
            }
        },
        None => Some(regs[(i + b) % regs.len() as int]),
    }
}

/// Of two sets of bundles in the way, the one with the smaller greatest weight; the first one if
/// they are alike.
pub open spec fn cheaper(g: GraphState, best: Option<Seq<u32>>, found: Seq<u32>) -> Option<
    Seq<u32>,
> {
    match best {
        Some(a) => if max_weight(g, found, found.len() as int) < max_weight(g, a, a.len() as int) {
            Some(found)
        } else {
            Some(a)
        },
        None => Some(found),
    }
}

/// The registers of the class from step `i` on are tried for bundle `b`.
pub open spec fn probe_class(
    c: Ctx,
    s: AllocState,
    b: u32,
    class: RegClass,
    hint: Option<PReg>,
    i: int,
    n: int,
    best: Option<Seq<u32>>,
) -> (AllocState, ProbeEnd)
    decreases n - i,
{
    if i >= n {
        (
            s,
            ProbeEnd::Conflicts(
                match best {
                    Some(a) => a,
                    None => Seq::empty(),
                },
            ),
        )
    } else {
        match probe_reg(c, class, b, hint, i) {
            None => probe_class(c, s, b, class, hint, i + 1, n, best),
            Some(preg) => {
                let s1 = AllocState {
                    stats: Stats {
                        process_bundle_reg_probes_any:
                            s.stats.process_bundle_reg_probes_any.wrapping_add(1),
                        ..s.stats
                    },
                    ..s
                };
                let (t, r) = alloc_try(c, s1, b, preg.ix());
                match r {
                    TryResult::Allocated(alloc) => {
                        let u = AllocState {
                            stats: Stats {
                                process_bundle_reg_success_any:
                                    t.stats.process_bundle_reg_success_any.wrapping_add(1),
                                ..t.stats
                            },
                            ..t
                        };
                        (alloc_set_hint(u, b, alloc.as_reg()), ProbeEnd::Done)
                    },
                    TryResult::Conflict(found) => probe_class(
                        c,
                        t,
                        b,
                        class,
                        hint,
                        i + 1,
                        n,
                        cheaper(t.g, best, found),
                    ),
                    TryResult::ConflictWithFixed => probe_class(
                        c,
                        t,
                        b,
                        class,
                        hint,
                        i + 1,
                        n,
                        best,
                    ),
                }
            },
        }
    }
}

/// One given register is tried for bundle `b`.
pub open spec fn probe_fixed(c: Ctx, s: AllocState, b: u32, preg: PReg) -> (AllocState, ProbeEnd) {
    let s1 = AllocState {
        stats: Stats {
            process_bundle_reg_probes_fixed:
                s.stats.process_bundle_reg_probes_fixed.wrapping_add(1),
            ..s.stats
        },
        ..s
    };
    let (t, r) = alloc_try(c, s1, b, preg.ix());
    match r {
        TryResult::Allocated(alloc) => {
            let u = AllocState {
                stats: Stats {
                    process_bundle_reg_success_fixed:
                        t.stats.process_bundle_reg_success_fixed.wrapping_add(1),
                    ..t.stats
                },
                ..t
            };
            (alloc_set_hint(u, b, alloc.as_reg()), ProbeEnd::Done)
        },
        TryResult::Conflict(found) => (t, ProbeEnd::Conflicts(found)),
        TryResult::ConflictWithFixed => (t, ProbeEnd::Conflicts(Seq::empty())),
    }
}

/// A location is sought that meets what bundle `b` demands. A bundle that needs no register is put
/// aside.
pub open spec fn probe(c: Ctx, s: AllocState, b: u32, req: Requirement, hint: Option<PReg>) -> (
    AllocState,
    ProbeEnd,
) {
    match req {
        Requirement::Fixed(preg) => probe_fixed(c, s, b, preg),
        Requirement::Register(class) => {
            let n = c.m.regs_by_class[class.ix()].len() as int;
            let count = if hint is Some {
                n + 1
            } else {
                n
            };
            probe_class(c, s, b, class, hint, 0, count, None)
        },
        Requirement::Any(_) => (
            AllocState { spilled: s.spilled.push(LiveBundleIndex(b)), ..s },
            ProbeEnd::Done,
        ),
    }
}

/// The bundles from position `i` on lose their registers.
pub open spec fn evict_all(s: AllocState, bundles: Seq<u32>, i: int) -> AllocState
    decreases bundles.len() - i,
{
    if i < 0 || i >= bundles.len() {
        s
    } else {
        let t = alloc_evict(s, bundles[i]);
        let u = AllocState {
            stats: Stats {
                evict_bundle_count: t.stats.evict_bundle_count.wrapping_add(1),
                ..t.stats
            },
            ..t
        };
        evict_all(u, bundles, i + 1)
    }
}

/// How the attempts for a bundle ended: with the bundle done, or with a split to come.
pub struct AttemptEnd {
    pub s: AllocState,
    pub done: bool,
    /// The bundle in the way, if one is known.
    pub conflict: u32,
}

/// The attempts for bundle `b` after the first `attempts` ones. Bundles in the way are evicted if
/// they all weigh less; a bundle that can be split has two attempts.
pub open spec fn attempt(
    c: Ctx,
    s: AllocState,
    b: u32,
    req: Option<Requirement>,
    hint: Option<PReg>,
    attempts: int,
) -> Result<AttemptEnd, RegAllocError>
    decreases 100 * c.f.insts - attempts,
{
    if attempts + 1 >= 100 * c.f.insts {
        Err(RegAllocError::NoConvergence)
    } else {
        match req {
            None => Ok(AttemptEnd { s, done: false, conflict: NIL }),
            Some(r) => {
                let (t, end) = probe(c, s, b, r, hint);
                match end {
                    ProbeEnd::Done => Ok(AttemptEnd { s: t, done: true, conflict: NIL }),
                    ProbeEnd::Conflicts(found) => {
                        let props = t.g.bundles[b as int].spill_weight_and_props;
                        if (attempts + 1 >= 2 && !props_minimal(props)) || found.len() == 0 {
                            Ok(AttemptEnd { s: t, done: false, conflict: NIL })
                        } else if max_weight(t.g, found, found.len() as int) >= props_weight(props) {
                            Ok(AttemptEnd { s: t, done: false, conflict: found[0] })
                        } else {
                            let u = AllocState {
                                stats: Stats {
                                    evict_bundle_event:
                                        t.stats.evict_bundle_event.wrapping_add(1),
                                    ..t.stats
                                },
                                ..t
                            };
                            attempt(c, evict_all(u, found, 0), b, req, hint, attempts + 1)
                        }
                    },
                }
            },
        }
    }
}

/// Bundle `b` is given a register, put aside to be spilled, or split.
pub open spec fn alloc_process(c: Ctx, s: AllocState, b: u32) -> Result<
    AllocState,
    RegAllocError,
> {
    let req = graph_requirement(s.g, b);
    let hint = s.spillsets[s.g.bundles[b as int].spillset.ix()].reg_hint;
    match attempt(c, s, b, req, hint, 0) {
        Ok(end) => if end.done {
            Ok(end.s)
        } else if props_minimal(end.s.g.bundles[b as int].spill_weight_and_props) {
            Err(RegAllocError::NoConvergence)
        } else {
            alloc_split(end.s, b, end.conflict)
        },
        Err(e) => Err(e),
    }
}

/// The bundles in the queue, after the first `count` ones were done.
pub open spec fn alloc_process_all(c: Ctx, s: AllocState, count: int) -> Result<
    AllocState,
    RegAllocError,
>
    decreases c.f.insts * 50 + 1 - count,
{
    if s.queue.len() == 0 {
        Ok(s)
    } else {
        let b = s.queue.last().bundle.0;
        let t = AllocState {
            queue: s.queue.drop_last(),
            stats: Stats {
                process_bundle_count: s.stats.process_bundle_count.wrapping_add(1),
                ..s.stats
            },
            ..s
        };
        match alloc_process(c, t, b) {
            Ok(u) => if count + 1 > c.f.insts * 50 {
                Err(RegAllocError::NoConvergence)
            } else {
                alloc_process_all(c, u, count + 1)
            },
            Err(e) => Err(e),
        }
    }
}

/// A register that is demanded is one of the machine that may hold values.
pub open spec fn req_ok(c: Ctx, r: Requirement) -> bool {
    r matches Requirement::Fixed(p) ==> p.ix() < c.m.regs.len() && p.encoded() && may_hold(
        c,
        p.ix(),
    )
}

proof fn lemma_uses_requirement_ok(
    c: Ctx,
    g: GraphState,
    r: int,
    list: Seq<u32>,
    j: int,
    needed: Requirement,
)
    requires
        graph_ok(c.f, g),
        mentions_ok(c, g),
        req_ok(c, needed),
        0 <= r < g.in_range.len(),
        list == g.in_range[r],
        0 <= j <= list.len(),
    ensures
        uses_requirement(g.uses, list, j, needed) matches Some(n) ==> req_ok(c, n),
    decreases list.len() - j,
{
    if j < list.len() {
        crate::lists::lemma_below(g.in_range, g.uses.len() as int, r, j);
        assert(operand_reg_ok(c, g.uses[list[j] as int].operand));
        match needed.both(Requirement::from_operand(g.uses[list[j] as int].operand)) {
            Some(n) => {
                lemma_uses_requirement_ok(c, g, r, list, j + 1, n);
            },
            None => {},
        }
    }
}

proof fn lemma_list_requirement_ok(c: Ctx, g: GraphState, b: int, i: int, needed: Requirement)
    requires
        graph_ok(c.f, g),
        mentions_ok(c, g),
        req_ok(c, needed),
        0 <= b < g.in_bundle.len(),
        0 <= i <= g.in_bundle[b].len(),
    ensures
        list_requirement(g, g.in_bundle[b], i, needed) matches Some(n) ==> req_ok(c, n),
    decreases g.in_bundle[b].len() - i,
{
    let list = g.in_bundle[b];
    if i < list.len() {
        crate::lists::lemma_below(g.in_bundle, g.ranges.len() as int, b, i);
        let r = list[i];
        let lr = g.ranges[r as int];
        assert(range_ok(c.f, g, r as int));
        if lr.def.is_valid() {
            assert(operand_reg_ok(c, g.defs[lr.def.ix()].operand));
            match needed.both(Requirement::from_operand(g.defs[lr.def.ix()].operand)) {
                Some(n) => {
                    lemma_uses_requirement_ok(c, g, r as int, g.in_range[r as int], 0, n);
                },
                None => {},
            }
        } else {
            lemma_uses_requirement_ok(c, g, r as int, g.in_range[r as int], 0, needed);
        }
        match range_requirement(g, r, needed) {
            Some(n) => {
                lemma_list_requirement_ok(c, g, b, i + 1, n);
            },
            None => {},
        }
    }
}

/// How the search for a register ended.
pub enum ProbeResult {
    /// The bundle has a register, or was put aside to be spilled.
    Done,
    /// The bundles that are in the way.
    Conflicts(IndexVec),
}

impl ProbeResult {
    /// The mathematical value.
    pub open spec fn view(&self) -> ProbeEnd {
        match self {
            ProbeResult::Done => ProbeEnd::Done,
            ProbeResult::Conflicts(b) => ProbeEnd::Conflicts(b@),
        }
    }
}

/// What every step of the search for a register keeps.
pub open spec fn probe_keeps(s: AllocState, t: AllocState, b: u32) -> bool {
    &&& same_lists(s.g, t.g)
    &&& frees_kept(s, t)
    &&& t.spillsets.len() == s.spillsets.len()
    &&& queued_ok(t.g, t.spillsets.len() as int, b)
}

/// The hint is of the class.
pub open spec fn hint_classed(m: MachModel, hint: Option<PReg>, class: RegClass) -> bool {
    classes_ok(m) ==> (hint matches Some(p) ==> p.class == class)
}

/// The bundles that are busy after the search for a register for bundle `b`.
pub open spec fn probed(end: ProbeEnd, b: u32) -> Set<u32> {
    match end {
        ProbeEnd::Done => Set::empty(),
        ProbeEnd::Conflicts(_) => only(b),
    }
}

/// A register that was tried is taken.
proof fn lemma_taken(c: Ctx, s: AllocState, t: AllocState, u: AllocState, b: u32, p: PReg, q: Requirement)
    requires
        alloc_ok(c, s),
        alloc_ok(c, u),
        mach_ok(c.m),
        settled(c, s, 0, only(b)),
        queued_ok(s.g, s.spillsets.len() as int, b),
        p.ix() < c.m.regs.len(),
        p.encoded(),
        graph_requirement(s.g, b) == Some(q),
        reg_meets(c.m, q, p),
        alloc_try(c, s, b, p.ix()).1 is Allocated,
        t == alloc_try(c, s, b, p.ix()).0,
        u == (AllocState { stats: u.stats, ..t }),
    ensures
        settled(c, alloc_set_hint(u, b, Some(p)), 0, Set::empty()),
        alloc_try(c, s, b, p.ix()).1 == TryResult::Allocated(Allocation::Reg(p)),
        graph_requirement(u.g, b) == Some(q),
{
    assert(c.m.regs[p.ix()] == p);
    lemma_settled_try(c, s, 0, 0, only(b), b, p.ix(), q);
    lemma_settled_more(c, t, 0, only(b).remove(b), Set::empty());
    lemma_settled_stats(c, t, u, 0, Set::empty());
    lemma_settled_hint(c, u, 0, Set::empty(), b, p);
    assert(settled_bundle(c, u, 0, b));
    assert forall|i: int| 0 <= i < s.g.in_bundle[b as int].len() implies same_mentions(
        s.g,
        u.g,
        #[trigger] s.g.in_bundle[b as int][i],
    ) by {}
    lemma_same_requirement(s.g, u.g, b);
}

impl<'a, F: Function> AllocPass<'a, F> {
    /// The register to try in a step of the search.
    fn choose_reg(
        &self,
        class: RegClass,
        bundle: LiveBundleIndex,
        hint_reg: Option<PReg>,
        i: usize,
    ) -> (r: Option<PReg>)
        requires
            self.wf(),
            hint_ok(self.ctx(), hint_reg),
            hint_classed(self.ctx().m, hint_reg, class),
            i < self.ctx().m.regs_by_class[class.ix()].len() + if hint_reg is Some {
                1int
            } else {
                0int
            },
        ensures
            r == probe_reg(self.ctx(), class, bundle.0, hint_reg, i as int),
            hint_ok(self.ctx(), r),
            hint_classed(self.ctx().m, r, class),
    {
        let ghost c = self.ctx();
        let regs = &self.env.regs_by_class[class.index()];
        assert(regs@ == c.m.regs_by_class[class.ix()]);
        match hint_reg {
            Some(hint) => {
                if i == 0 {
                    return Some(hint);
                }
                let k = ((i as u64 - 1 + bundle.0 as u64) % (regs.len() as u64)) as usize;
                assert(k == (i - 1 + bundle.0) % regs@.len() as int);
                assert(c.m.regs_by_class[class.ix()][k as int].ix() < c.m.regs.len());
                proof {
                    lemma_offered(c, class.ix(), k as int);
                }
                let reg = regs[k];
                if reg == hint {
                    None
                } else {
                    Some(reg)
                }
            },
            None => {
                let k = ((i as u64 + bundle.0 as u64) % (regs.len() as u64)) as usize;
                assert(k == (i + bundle.0) % regs@.len() as int);
                assert(c.m.regs_by_class[class.ix()][k as int].ix() < c.m.regs.len());
                proof {
                    lemma_offered(c, class.ix(), k as int);
                }
                Some(regs[k])
            },
        }
    }

    /// Try one given register for a bundle.
    fn try_fixed_reg(&mut self, bundle: LiveBundleIndex, preg: PReg) -> (r: ProbeResult)
        requires
            old(self).wf(),
            queued_ok(old(self)@.g, old(self)@.spillsets.len() as int, bundle.0),
            preg.ix() < old(self).ctx().m.regs.len(),
            preg.encoded(),
            may_hold(old(self).ctx(), preg.ix()),
            is_idle(old(self)@, bundle.0),
            aside_free(old(self)@, 0),
            settled(old(self).ctx(), old(self)@, 0, only(bundle.0)),
            graph_requirement(old(self)@.g, bundle.0) == Some(Requirement::Fixed(preg)),
        ensures
            final(self).ctx() == old(self).ctx(),
            final(self).wf(),
            (final(self)@, r@) == probe_fixed(old(self).ctx(), old(self)@, bundle.0, preg),
            aside_free(final(self)@, 0),
            r is Conflicts ==> is_idle(final(self)@, bundle.0),
            settled(old(self).ctx(), final(self)@, 0, probed(r@, bundle.0)),
            graph_requirement(final(self)@.g, bundle.0) == graph_requirement(
                old(self)@.g,
                bundle.0,
            ),
            probe_keeps(old(self)@, final(self)@, bundle.0),
            r matches ProbeResult::Conflicts(found) ==> all_queued(
                final(self)@.g,
                final(self)@.spillsets.len() as int,
                found@,
            ),
    {
        let ghost s = self@;
        let ghost c = self.ctx();
        self.stats.process_bundle_reg_probes_fixed =
        self.stats.process_bundle_reg_probes_fixed.wrapping_add(1);
        assert(alloc_ok(c, self@)) by {
            assert(self@ =~= AllocState { stats: self@.stats, ..s });
        }
        let ghost s1 = self@;
        proof {
            lemma_settled_stats(c, s, s1, 0, only(bundle.0));
        }
        match self.try_to_allocate_bundle_to_reg(bundle, PRegIndex::new(preg.index())) {
            AllocRegResult::Allocated(alloc) => {
                let ghost t = self@;
                self.stats.process_bundle_reg_success_fixed =
                self.stats.process_bundle_reg_success_fixed.wrapping_add(1);
                assert(alloc_ok(c, self@));
                proof {
                    lemma_taken(c, s1, t, self@, bundle.0, preg, Requirement::Fixed(preg));
                }
                self.set_hint(bundle, alloc.as_reg());
                proof {
                    lemma_frees_same(s, s1);
                    lemma_frees_trans(s, s1, t);
                    lemma_frees_same(t, self@);
                    lemma_frees_trans(s, t, self@);
                }
                ProbeResult::Done
            },
            AllocRegResult::Conflict(found) => {
                proof {
                    lemma_frees_same(s, s1);
                    lemma_frees_trans(s, s1, self@);
                }
                ProbeResult::Conflicts(found)
            },
            AllocRegResult::ConflictWithFixed => {
                proof {
                    lemma_frees_same(s, s1);
                    lemma_frees_trans(s, s1, self@);
                }
                let none = small_new();
                ProbeResult::Conflicts(none)
            },
        }
    }

    /// Try the registers of a class for a bundle.
    fn try_class_regs(
        &mut self,
        bundle: LiveBundleIndex,
        class: RegClass,
        hint_reg: Option<PReg>,
    ) -> (r: ProbeResult)
        requires
            old(self).wf(),
            queued_ok(old(self)@.g, old(self)@.spillsets.len() as int, bundle.0),
            hint_ok(old(self).ctx(), hint_reg),
            hint_classed(old(self).ctx().m, hint_reg, class),
            is_idle(old(self)@, bundle.0),
            aside_free(old(self)@, 0),
            settled(old(self).ctx(), old(self)@, 0, only(bundle.0)),
            graph_requirement(old(self)@.g, bundle.0) == Some(Requirement::Register(class)),
        ensures
            final(self).ctx() == old(self).ctx(),
            final(self).wf(),
            (final(self)@, r@) == probe(
                old(self).ctx(),
                old(self)@,
                bundle.0,
                Requirement::Register(class),
                hint_reg,
            ),
            aside_free(final(self)@, 0),
            r is Conflicts ==> is_idle(final(self)@, bundle.0),
            settled(old(self).ctx(), final(self)@, 0, probed(r@, bundle.0)),
            graph_requirement(final(self)@.g, bundle.0) == graph_requirement(
                old(self)@.g,
                bundle.0,
            ),
            probe_keeps(old(self)@, final(self)@, bundle.0),
            r matches ProbeResult::Conflicts(found) ==> all_queued(
                final(self)@.g,
                final(self)@.spillsets.len() as int,
                found@,
            ),
    {
        let ghost s = self@;
        let ghost c = self.ctx();
        let mut lowest_cost_conflict_set: Option<IndexVec> = None;
        let n_regs = self.env.regs_by_class[class.index()].len();
        assert(c.m.regs_by_class[class.ix()].len() == n_regs);
        let loop_count: usize = if hint_reg.is_some() {
            n_regs + 1
        } else {
            n_regs
        };
        let mut i: usize = 0;
        while i < loop_count
            invariant
                self.wf(),
                self.ctx() == c,
                c == old(self).ctx(),
                s == old(self)@,
                hint_ok(c, hint_reg),
                n_regs == c.m.regs_by_class[class.ix()].len(),
                loop_count == n_regs + if hint_reg is Some {
                    1int
                } else {
                    0int
                },
                i <= loop_count,
                self@ == (AllocState { stats: self@.stats, ..s }),
                is_idle(s, bundle.0),
                aside_free(s, 0),
                settled(c, s, 0, only(bundle.0)),
                graph_requirement(s.g, bundle.0) == Some(Requirement::Register(class)),
                    hint_classed(c.m, hint_reg, class),
                queued_ok(s.g, s.spillsets.len() as int, bundle.0),
                lowest_cost_conflict_set matches Some(best) ==> all_queued(
                    s.g,
                    s.spillsets.len() as int,
                    best@,
                ),
                probe(c, s, bundle.0, Requirement::Register(class), hint_reg) == probe_class(
                    c,
                    self@,
                    bundle.0,
                    class,
                    hint_reg,
                    i as int,
                    loop_count as int,
                    best_view(lowest_cost_conflict_set),
                ),
            decreases loop_count - i,
        {
            match self.choose_reg(class, bundle, hint_reg, i) {
                Some(preg) => {
                    self.stats.process_bundle_reg_probes_any =
                    self.stats.process_bundle_reg_probes_any.wrapping_add(1);
                    assert(alloc_ok(c, self@));
                    let ghost s1 = self@;
                    proof {
                        lemma_settled_stats(c, s, s1, 0, only(bundle.0));
                    }
                    let preg_idx = PRegIndex::new(preg.index());
                    match self.try_to_allocate_bundle_to_reg(bundle, preg_idx) {
                        AllocRegResult::Allocated(alloc) => {
                            let ghost t = self@;
                            self.stats.process_bundle_reg_success_any =
                            self.stats.process_bundle_reg_success_any.wrapping_add(1);
                            assert(alloc_ok(c, self@));
                            proof {
                                let q = Requirement::Register(class);
                                lemma_taken(c, s1, t, self@, bundle.0, preg, q);
                            }
                            self.set_hint(bundle, alloc.as_reg());
                            proof {
                                lemma_frees_same(s, s1);
                                lemma_frees_trans(s, s1, t);
                                lemma_frees_same(t, self@);
                                lemma_frees_trans(s, t, self@);
                            }
                            return ProbeResult::Done;
                        },
                        AllocRegResult::Conflict(found) => {
                            lowest_cost_conflict_set =
                            match lowest_cost_conflict_set {
                                None => Some(found),
                                Some(best) => if self.maximum_spill_weight_in_bundle_set(&found)
                                    < self.maximum_spill_weight_in_bundle_set(&best) {
                                    Some(found)
                                } else {
                                    Some(best)
                                },
                            };
                        },
                        AllocRegResult::ConflictWithFixed => {},
                    }
                },
                None => {},
            }
            i += 1;
        }
        proof {
            lemma_settled_stats(c, s, self@, 0, only(bundle.0));
            lemma_frees_same(s, self@);
        }
        match lowest_cost_conflict_set {
            Some(best) => ProbeResult::Conflicts(best),
            None => {
                let none = small_new();
                ProbeResult::Conflicts(none)
            },
        }
    }

    /// Seek a location for a bundle.
    fn probe_bundle(
        &mut self,
        bundle: LiveBundleIndex,
        req: Requirement,
        hint_reg: Option<PReg>,
    ) -> (r: ProbeResult)
        requires
            old(self).wf(),
            queued_ok(old(self)@.g, old(self)@.spillsets.len() as int, bundle.0),
            hint_ok(old(self).ctx(), hint_reg),
            req_ok(old(self).ctx(), req),
            hint_classed(old(self).ctx().m, hint_reg, req.class()),
            is_idle(old(self)@, bundle.0),
            aside_free(old(self)@, 0),
            settled(old(self).ctx(), old(self)@, 0, only(bundle.0)),
            graph_requirement(old(self)@.g, bundle.0) == Some(req),
        ensures
            final(self).ctx() == old(self).ctx(),
            final(self).wf(),
            (final(self)@, r@) == probe(
                old(self).ctx(),
                old(self)@,
                bundle.0,
                req,
                hint_reg,
            ),
            aside_free(final(self)@, 0),
            r is Conflicts ==> is_idle(final(self)@, bundle.0),
            settled(old(self).ctx(), final(self)@, 0, probed(r@, bundle.0)),
            graph_requirement(final(self)@.g, bundle.0) == graph_requirement(
                old(self)@.g,
                bundle.0,
            ),
            probe_keeps(old(self)@, final(self)@, bundle.0),
            r matches ProbeResult::Conflicts(found) ==> all_queued(
                final(self)@.g,
                final(self)@.spillsets.len() as int,
                found@,
            ),
    {
        match req {
            Requirement::Fixed(preg) => self.try_fixed_reg(bundle, preg),
            Requirement::Register(class) => self.try_class_regs(bundle, class, hint_reg),
            Requirement::Any(_) => {
                let ghost s = self@;
                let ghost c = self.ctx();
                self.spilled_bundles.push(bundle);
                proof {
                    let t = self@;
                    assert forall|i: int| 0 <= i < t.spilled.len() implies queued_ok(
                        t.g,
                        t.spillsets.len() as int,
                        (#[trigger] t.spilled[i]).0,
                    ) by {
                        if i < s.spilled.len() {
                            assert(queued_ok(s.g, s.spillsets.len() as int, s.spilled[i].0));
                        }
                    }
                    assert(t =~= AllocState { spilled: t.spilled, ..s });
                    assert(waiting(t.g, t.queue, t.spilled)) by {
                        assert forall|i: int, j: int|
                            #![trigger t.spilled[i], t.spilled[j]]
                            0 <= i < j < t.spilled.len() implies t.spilled[i] != t.spilled[j] by {
                            assert(s.spilled[i] == t.spilled[i]);
                            if j == s.spilled.len() {
                                assert(s.spilled.contains(s.spilled[i]));
                            } else {
                                assert(s.spilled[j] == t.spilled[j]);
                            }
                        }
                        assert forall|i: int, j: int|
                            #![trigger t.queue[i], t.spilled[j]]
                            0 <= i < t.queue.len() && 0 <= j < t.spilled.len() implies t.queue[i].bundle
                            != t.spilled[j] by {
                            if j == s.spilled.len() {
                                assert(s.queue[i].bundle.0 != bundle.0);
                            } else {
                                assert(s.queue[i].bundle != s.spilled[j]);
                            }
                        }
                    }
                    assert forall|i: int| 0 <= i < t.spilled.len() implies t.g.bundles[(
                    #[trigger] t.spilled[i]).ix()].allocation == Allocation::Nowhere by {
                        if i < s.spilled.len() {
                            assert(s.g.bundles[s.spilled[i].ix()].allocation
                                == Allocation::Nowhere);
                        }
                    }
                    assert(alloc_ok(c, t));
                    lemma_frees_same(s, t);
                    lemma_settled_aside(c, s, t, only(bundle.0), bundle.0);
                    lemma_settled_more(c, t, 0, only(bundle.0).remove(bundle.0), Set::empty());
                }
                ProbeResult::Done
            },
        }
    }

    /// Take their registers away from bundles.
    fn evict_bundles(&mut self, bundles: &IndexVec)
        requires
            old(self).wf(),
            all_queued(old(self)@.g, old(self)@.spillsets.len() as int, bundles@),
            aside_free(old(self)@, 0),
        ensures
            final(self).ctx() == old(self).ctx(),
            final(self).wf(),
            aside_free(final(self)@, 0),
            forall|busy: Set<u32>|
                settled(old(self).ctx(), old(self)@, 0, busy) ==> #[trigger] settled(
                    old(self).ctx(),
                    final(self)@,
                    0,
                    busy,
                ),
            forall|b: u32|
                b < old(self)@.g.bundles.len() && is_idle(old(self)@, b) ==> #[trigger] is_idle(
                    final(self)@,
                    b,
                ),
            final(self)@ == evict_all(old(self)@, bundles@, 0),
            same_lists(old(self)@.g, final(self)@.g),
            frees_kept(old(self)@, final(self)@),
            forall|b: u32|
                queued_ok(old(self)@.g, old(self)@.spillsets.len() as int, b)
                    ==> #[trigger] queued_ok(
                    final(self)@.g,
                    final(self)@.spillsets.len() as int,
                    b,
                ),
    {
        let ghost s = self@;
        let ghost c = self.ctx();
        proof {
            lemma_frees_same(s, s);
        }
        let mut i: usize = 0;
        while i < small_len(bundles)
            invariant
                self.wf(),
                self.ctx() == c,
                i <= bundles@.len(),
                all_queued(s.g, s.spillsets.len() as int, bundles@),
                same_lists(s.g, self@.g),
                frees_kept(s, self@),
                s.pregs.len() == c.m.regs.len(),
                aside_free(self@, 0),
                forall|busy: Set<u32>|
                    settled(c, s, 0, busy) ==> #[trigger] settled(c, self@, 0, busy),
                forall|b: u32|
                    b < s.g.bundles.len() && is_idle(s, b) ==> #[trigger] is_idle(self@, b),
                forall|b: u32|
                    queued_ok(s.g, s.spillsets.len() as int, b) ==> #[trigger] queued_ok(
                        self@.g,
                        self@.spillsets.len() as int,
                        b,
                    ),
                evict_all(s, bundles@, 0) == evict_all(self@, bundles@, i as int),
            decreases bundles@.len() - i,
        {
            let ghost t = self@;
            let b = LiveBundleIndex(small_get(bundles, i));
            assert(queued_ok(s.g, s.spillsets.len() as int, bundles@[i as int]));
            self.evict_bundle(b);
            let ghost u = self@;
            assert forall|b: u32|
                queued_ok(s.g, s.spillsets.len() as int, b) implies #[trigger] queued_ok(
                u.g,
                u.spillsets.len() as int,
                b,
            ) by {
                assert(queued_ok(t.g, t.spillsets.len() as int, b));
            }
            assert forall|b: u32|
                b < s.g.bundles.len() && is_idle(s, b) implies #[trigger] is_idle(u, b) by {
                assert(is_idle(t, b));
            }
            self.stats.evict_bundle_count = self.stats.evict_bundle_count.wrapping_add(1);
            assert(alloc_ok(c, self@));
            proof {
                lemma_frees_trans(s, t, u);
                lemma_frees_same(u, self@);
                lemma_frees_trans(s, u, self@);
            }
            assert forall|b: u32|
                b < s.g.bundles.len() && is_idle(s, b) implies #[trigger] is_idle(self@, b) by {
                assert(is_idle(u, b));
            }
            assert forall|busy: Set<u32>| settled(c, s, 0, busy) implies #[trigger] settled(
                c,
                self@,
                0,
                busy,
            ) by {
                assert(settled(c, t, 0, busy));
                lemma_settled_evict(c, t, 0, busy, bundles@[i as int]);
                lemma_settled_stats(c, u, self@, 0, busy);
            }
            i += 1;
        }
    }

    /// Was the bundle noted as minimal?
    pub fn minimal_bundle(&self, bundle: LiveBundleIndex) -> (r: bool)
        requires
            self.wf(),
            bundle.0 < self@.g.bundles.len(),
        ensures
            r == props_minimal(self@.g.bundles[bundle.ix()].spill_weight_and_props),
    {
        self.g.bundles[bundle.index()].cached_minimal()
    }

    /// Give a bundle a register, put it aside to be spilled, or split it.
    pub fn process_bundle(&mut self, bundle: LiveBundleIndex) -> (r: Result<(), RegAllocError>)
        requires
            old(self).wf(),
            queued_ok(old(self)@.g, old(self)@.spillsets.len() as int, bundle.0),
            is_idle(old(self)@, bundle.0),
            aside_free(old(self)@, 0),
            settled(old(self).ctx(), old(self)@, 0, only(bundle.0)),
        ensures
            final(self).ctx() == old(self).ctx(),
            match alloc_process(old(self).ctx(), old(self)@, bundle.0) {
                Ok(s) => {
                    &&& r is Ok
                    &&& final(self)@ == s
                    &&& final(self).wf()
                    &&& aside_free(s, 0)
                    &&& settled(old(self).ctx(), s, 0, Set::empty())
                    &&& same_extent(old(self)@.g, s.g)
                    &&& frees_kept(old(self)@, s)
                },
                Err(e) => r == Err::<(), RegAllocError>(e) && e !is SSA,
            },
    {
        let ghost s = self@;
        let ghost c = self.ctx();
        let req = self.g.compute_requirement(bundle);
        let set = self.g.bundles[bundle.index()].spillset;
        let hint_reg = self.spillsets[set.index()].reg_hint;
        proof {
            assert(s.spillsets[set.ix()].reg_hint == hint_reg);
            assert(hint_ok(c, hint_reg));
            let list = s.g.in_bundle[bundle.ix()];
            lemma_list_requirement_ok(
                c,
                s.g,
                bundle.ix(),
                0,
                Requirement::Any(s.g.vregs[s.g.ranges[list[0] as int].vreg.ix()].reg.class),
            );
            lemma_requirement_class(s.g, bundle.0);
            assert(set_classed(s, bundle.0));
        }
        proof {
            lemma_frees_same(s, s);
        }
        let limit = 100 * (self.func.insts() as u64);
        let mut attempts: u64 = 0;
        let mut first_conflicting_bundle = LiveBundleIndex::invalid();
        let mut searching = true;
        while searching
            invariant
                self.wf(),
                self.ctx() == c,
                c == old(self).ctx(),
                s == old(self)@,
                queued_ok(self@.g, self@.spillsets.len() as int, bundle.0),
                is_idle(self@, bundle.0),
                aside_free(self@, 0),
                settled(c, self@, 0, only(bundle.0)),
                same_lists(s.g, self@.g),
                frees_kept(s, self@),
                s.pregs.len() == c.m.regs.len(),
                lists_ok(s.g.in_vreg, s.g.ranges.len() as int),
                graph_requirement(self@.g, bundle.0) == req,
                hint_ok(c, hint_reg),
                req matches Some(q) ==> req_ok(c, q) && hint_classed(c.m, hint_reg, q.class()),
                limit == 100 * c.f.insts,
                attempts <= limit,
                req == graph_requirement(s.g, bundle.0),
                hint_reg == s.spillsets[s.g.bundles[bundle.ix()].spillset.ix()].reg_hint,
                searching ==> attempt(c, s, bundle.0, req, hint_reg, 0) == attempt(
                    c,
                    self@,
                    bundle.0,
                    req,
                    hint_reg,
                    attempts as int,
                ),
                !searching ==> attempt(c, s, bundle.0, req, hint_reg, 0) == Ok::<
                    AttemptEnd,
                    RegAllocError,
                >(
                    AttemptEnd {
                        s: self@,
                        done: false,
                        conflict: first_conflicting_bundle.0,
                    },
                ),
                first_conflicting_bundle.is_valid() ==> queued_ok(
                    self@.g,
                    self@.spillsets.len() as int,
                    first_conflicting_bundle.0,
                ),
                searching ==> first_conflicting_bundle.is_invalid(),
            decreases limit - attempts + (if searching {
                1int
            } else {
                0int
            }),
        {
            if attempts + 1 >= limit {
                return Err(RegAllocError::NoConvergence);
            }
            attempts += 1;
            match req {
                None => {
                    searching = false;
                },
                Some(q) => {
                    let ghost before = self@;
                    match self.probe_bundle(bundle, q, hint_reg) {
                        ProbeResult::Done => {
                            proof {
                                lemma_frees_trans(s, before, self@);
                                lemma_same_lists_extent(s.g, self@.g);
                            }
                            return Ok(());
                        },
                        ProbeResult::Conflicts(found) => {
                            proof {
                                lemma_frees_trans(s, before, self@);
                            }
                            if (attempts >= 2 && !self.minimal_bundle(bundle)) || small_len(&found)
                                == 0 {
                                searching = false;
                            } else if self.maximum_spill_weight_in_bundle_set(&found)
                                >= self.bundle_spill_weight(bundle) {
                                first_conflicting_bundle = LiveBundleIndex(small_get(&found, 0));
                                assert(queued_ok(
                                    self@.g,
                                    self@.spillsets.len() as int,
                                    found@[0],
                                ));
                                searching = false;
                            } else {
                                let ghost t = self@;
                                self.stats.evict_bundle_event =
                                self.stats.evict_bundle_event.wrapping_add(1);
                                assert(alloc_ok(c, self@));
                                proof {
                                    lemma_settled_stats(c, t, self@, 0, only(bundle.0));
                                    lemma_frees_same(t, self@);
                                    lemma_frees_trans(s, t, self@);
                                }
                                let ghost w = self@;
                                self.evict_bundles(&found);
                                proof {
                                    lemma_frees_trans(s, w, self@);
                                    assert forall|i: int|
                                        0 <= i < t.g.in_bundle[bundle.ix()].len() implies same_mentions(
                                    t.g, self@.g, #[trigger] t.g.in_bundle[bundle.ix()][i]) by {}
                                    lemma_same_requirement(t.g, self@.g, bundle.0);
                                }
                            }
                        },
                    }
                },
            }
        }
        if self.minimal_bundle(bundle) {
            return Err(RegAllocError::NoConvergence);
        }
        let ghost t = self@;
        proof {
            lemma_same_lists_extent(s.g, t.g);
        }
        match self.split_and_requeue_bundle(bundle, first_conflicting_bundle) {
            Ok(()) => {
                proof {
                    lemma_same_extent_trans(s.g, t.g, self@.g);
                    lemma_frees_trans(s, t, self@);
                }
                Ok(())
            },
            Err(e) => Err(e),
        }
    }

    /// Process the bundles in the queue until it is empty.
    pub fn process_bundles(&mut self) -> (r: Result<(), RegAllocError>)
        requires
            old(self).wf(),
            aside_free(old(self)@, 0),
            settled(old(self).ctx(), old(self)@, 0, Set::empty()),
        ensures
            final(self).ctx() == old(self).ctx(),
            match alloc_process_all(old(self).ctx(), old(self)@, 0) {
                Ok(s) => {
                    &&& r is Ok
                    &&& final(self)@ == (AllocState {
                        stats: Stats {
                            final_liverange_count: s.g.ranges.len() as usize,
                            final_bundle_count: s.g.bundles.len() as usize,
                            spill_bundle_count: s.spilled.len() as usize,
                            ..s.stats
                        },
                        ..s
                    })
                    &&& final(self).wf()
                    &&& aside_free(s, 0)
                    &&& s.queue.len() == 0
                    &&& settled(old(self).ctx(), final(self)@, 0, Set::empty())
                    &&& same_extent(old(self)@.g, s.g)
                    &&& frees_kept(old(self)@, s)
                },
                Err(e) => r == Err::<(), RegAllocError>(e) && e !is SSA,
            },
    {
        let ghost s = self@;
        let ghost c = self.ctx();
        proof {
            lemma_frees_same(s, s);
        }
        let limit = 50 * (self.func.insts() as u64);
        let mut count: u64 = 0;
        while self.allocation_queue.len() > 0
            invariant
                self.wf(),
                self.ctx() == c,
                c == old(self).ctx(),
                s == old(self)@,
                limit == 50 * c.f.insts,
                count <= limit,
                limit < 0x40_0000_0000,
                aside_free(self@, 0),
                settled(c, self@, 0, Set::empty()),
                same_extent(s.g, self@.g),
                frees_kept(s, self@),
                s.pregs.len() == c.m.regs.len(),
                alloc_process_all(c, s, 0) == alloc_process_all(c, self@, count as int),
            decreases limit + 1 - count,
        {
            let ghost t = self@;
            let bundle = self.allocation_queue.pop().unwrap();
            assert(queued_ok(
                t.g,
                t.spillsets.len() as int,
                t.queue[t.queue.len() - 1].bundle.0,
            ));
            self.stats.process_bundle_count = self.stats.process_bundle_count.wrapping_add(1);
            proof {
                let u = self@;
                assert forall|i: int| 0 <= i < u.queue.len() implies queued_ok(
                    u.g,
                    u.spillsets.len() as int,
                    (#[trigger] u.queue[i]).bundle.0,
                ) by {
                    assert(u.queue[i] == t.queue[i]);
                    assert(queued_ok(t.g, t.spillsets.len() as int, t.queue[i].bundle.0));
                }
                lemma_popped(t, u);
                assert(alloc_ok(c, u));
                lemma_settled_popped(c, t, u);
                lemma_frees_same(t, u);
                lemma_frees_trans(s, t, u);
            }
            let ghost u = self@;
            match self.process_bundle(bundle) {
                Ok(()) => {
                    proof {
                        lemma_same_extent_trans(s.g, t.g, self@.g);
                        lemma_frees_trans(s, u, self@);
                    }
                },
                Err(e) => {
                    return Err(e);
                },
            }
            count += 1;
            if count > limit {
                return Err(RegAllocError::NoConvergence);
            }
        }
        let ghost done = self@;
        self.stats.final_liverange_count = self.g.ranges.len();
        self.stats.final_bundle_count = self.g.bundles.len();
        self.stats.spill_bundle_count = self.spilled_bundles.len();
        assert(alloc_ok(c, self@));
        proof {
            lemma_settled_stats(c, done, self@, 0, Set::empty());
        }
        Ok(())
    }
}

/// A bundle that is taken out of the queue is busy.
proof fn lemma_settled_popped(c: Ctx, s: AllocState, t: AllocState)
    requires
        alloc_ok(c, s),
        settled(c, s, 0, Set::empty()),
        s.queue.len() > 0,
        t == (AllocState { queue: s.queue.drop_last(), stats: t.stats, ..s }),
    ensures
        settled(c, t, 0, only(s.queue.last().bundle.0)),
{
    let k = s.queue.len() - 1;
    let b = s.queue[k].bundle.0;
    assert forall|x: u32| x != b && is_queued(s.queue, x) implies #[trigger] is_queued(
        t.queue,
        x,
    ) by {
        let i = choose|i: int| 0 <= i < s.queue.len() && (#[trigger] s.queue[i]).bundle.0 == x;
        assert(t.queue[i].bundle.0 == x);
    }
    if b < s.g.bundles.len() && s.g.in_bundle[b as int].len() > 0 {
        assert(set_classed(s, b));
        assert(set_classed(t, b));
    }
    lemma_settled_step(c, s, t, 0, 0, Set::empty(), only(b), b);
}

/// A bundle that is taken out of the queue is idle.
proof fn lemma_popped(s: AllocState, t: AllocState)
    requires
        waiting(s.g, s.queue, s.spilled),
        s.queue.len() > 0,
        t == (AllocState { queue: s.queue.drop_last(), stats: t.stats, ..s }),
    ensures
        waiting(t.g, t.queue, t.spilled),
        is_idle(t, s.queue.last().bundle.0),
{
    let k = s.queue.len() - 1;
    let b = s.queue[k].bundle.0;
    assert forall|i: int| 0 <= i < t.queue.len() implies #[trigger] t.queue[i] == s.queue[i] by {}
    if is_queued(t.queue, b) {
        let i = choose|i: int| 0 <= i < t.queue.len() && (#[trigger] t.queue[i]).bundle.0 == b;
        assert(s.queue[i].bundle != s.queue[k].bundle);
    }
    if t.spilled.contains(LiveBundleIndex(b)) {
        let i = choose|i: int| 0 <= i < t.spilled.len() && t.spilled[i] == LiveBundleIndex(b);
        assert(s.queue[k].bundle != s.spilled[i]);
    }
}

/// The value of a set of bundles that may be missing.
pub open spec fn best_view(best: Option<IndexVec>) -> Option<Seq<u32>> {
    match best {
        Some(b) => Some(b@),
        None => None,
    }
}

} // verus!
