//! Registers for bundles: the queue, the attempts, evictions.
use crate::bundles::{bundled, in_its_bundle, listed};
use crate::code_range::{LiveRangeSet, RangeEntry};
use crate::data::{LiveBundle, PRegData, SpillSet, Stats, VRegData};
use crate::func::{FuncModel, Function, MachineEnv};
use crate::graph::{graph_ok, GraphState, LiveGraph, MAX_ENTRIES};
use crate::index::{Inst, LiveBundleIndex, LiveRangeIndex, SpillSetIndex, SpillSlotIndex};
use crate::lists::NIL;
use crate::liveness::{entries_ok, may_hold, mentions_ok, preg_entries, Ctx};
use crate::place::{
    aside_free, holds, is_idle, is_queued, lemma_new_set_ordered, lemma_ordered_same,
    lemma_queue_waiting, lemma_sets_empty, owned, placed, sets_below, sound, waiting,
};
use crate::props::{graph_refresh, graph_set_bundle, lemma_set_bundle_ok};
use crate::queue::{queue_insert, queue_sorted, PrioQueue, PrioQueueEntry};
use crate::reg::{Allocation, PReg, RegAllocError, RegClass, VReg};
use crate::settle::{
    classes_ok, hints_classed, lemma_bundle_first, lemma_queue_insert, lemma_settled_more,
    lemma_settled_stats, lemma_settled_step, set_classed, settled, settled_bundle,
};
use crate::small::small_new;
use vstd::prelude::*;

verus! {

/// The state of the search for registers.
pub struct AllocPass<'a, F: Function> {
    pub func: &'a F,
    pub env: &'a MachineEnv,
    pub g: LiveGraph,
    pub pregs: Vec<PRegData>,
    pub allocation_queue: PrioQueue,
    pub hot_code: LiveRangeSet,
    pub clobbers: Vec<Inst>,
    pub spillsets: Vec<SpillSet>,
    pub spilled_bundles: Vec<LiveBundleIndex>,
    pub stats: Stats,
    pub shape: Ghost<Ctx>,
}

/// The mathematical value of a `SpillSet`.
#[verifier::ext_equal]
pub struct SpillSetState {
    pub bundles: Seq<u32>,
    pub size: u32,
    pub class: RegClass,
    pub slot: SpillSlotIndex,
    pub reg_hint: Option<PReg>,
}

impl SpillSet {
    /// The mathematical value.
    pub open spec fn view(&self) -> SpillSetState {
        SpillSetState {
            bundles: self.bundles@,
            size: self.size,
            class: self.class,
            slot: self.slot,
            reg_hint: self.reg_hint,
        }
    }
}

/// The mathematical value of an `AllocPass`.
#[verifier::ext_equal]
pub struct AllocState {
    pub g: GraphState,
    pub pregs: Seq<Seq<RangeEntry>>,
    pub queue: Seq<PrioQueueEntry>,
    pub hot: Seq<RangeEntry>,
    pub clobbers: Seq<Inst>,
    pub spillsets: Seq<SpillSetState>,
    pub spilled: Seq<LiveBundleIndex>,
    pub stats: Stats,
}

/// The values of the spill sets.
pub open spec fn spillset_states(s: Seq<SpillSet>) -> Seq<SpillSetState> {
    Seq::new(s.len(), |i: int| s[i]@)
}

/// The bundle exists, holds live ranges and has a spill set.
pub open spec fn queued_ok(g: GraphState, spillsets: int, b: u32) -> bool {
    &&& b < g.bundles.len()
    &&& g.in_bundle[b as int].len() > 0
    &&& g.bundles[b as int].spillset.0 < spillsets
}

/// All numbers are those of bundles that were queued.
pub open spec fn all_queued(g: GraphState, n: int, bundles: Seq<u32>) -> bool {
    forall|i: int| 0 <= i < bundles.len() ==> queued_ok(g, n, #[trigger] bundles[i])
}

/// The entries of a physical register are disjoint; each stands for a live range of no virtual
/// register, or for one of a bundle that was queued.
pub open spec fn preg_ok(g: GraphState, spillsets: int, s: Seq<RangeEntry>) -> bool {
    &&& entries_ok(s, g.ranges.len() as int)
    &&& forall|i: int|
        0 <= i < s.len() ==> taken_ok(g, spillsets, (#[trigger] s[i]).1)
}

/// The live range is one of no virtual register, or one of a bundle that was queued.
pub open spec fn taken_ok(g: GraphState, spillsets: int, lr: LiveRangeIndex) -> bool {
    g.ranges[lr.ix()].vreg.is_valid() ==> queued_ok(g, spillsets, g.ranges[lr.ix()].bundle.0)
}

/// A register, if it is one, is one of the machine that may hold values.
pub open spec fn hint_ok(c: Ctx, hint: Option<PReg>) -> bool {
    hint matches Some(p) ==> p.ix() < c.m.regs.len() && p.encoded() && may_hold(c, p.ix())
}

/// Is the size the number of words that the function asks for in the stack frame, for one of its
/// registers of the class?
#[verifier::opaque]
pub open spec fn set_sized(f: FuncModel, vregs: Seq<VRegData>, size: u32, class: RegClass) -> bool {
    exists|v: int|
        0 <= v < vregs.len() && (#[trigger] vregs[v]).reg.class == class && size == ((f.slot_size)(
            class,
            vregs[v].reg,
        ) as usize) as u32
}

/// The size that is asked for one of the registers.
proof fn lemma_size_asked(f: FuncModel, vregs: Seq<VRegData>, reg: VReg, size: u32)
    requires
        exists|v: int| 0 <= v < vregs.len() && (#[trigger] vregs[v]).reg == reg,
        size == ((f.slot_size)(reg.class, reg) as usize) as u32,
    ensures
        set_sized(f, vregs, size, reg.class),
{
    reveal(set_sized);
}

/// The parts of the search fit together, live ranges are in order, registers belong to one bundle
/// at a time, and bundles wait at one place.
pub open spec fn alloc_ok(c: Ctx, s: AllocState) -> bool {
    base_ok(c, s) && sound(c, s)
}

/// The parts of the search fit together.
pub open spec fn base_ok(c: Ctx, s: AllocState) -> bool {
    let n = s.spillsets.len() as int;
    &&& graph_ok(c.f, s.g)
    &&& mentions_ok(c, s.g)
    &&& listed(s.g)
    &&& s.pregs.len() == c.m.regs.len()
    &&& forall|p: int| 0 <= p < s.pregs.len() ==> preg_ok(s.g, n, #[trigger] s.pregs[p])
    &&& queue_sorted(s.queue)
    &&& forall|i: int| 0 <= i < s.queue.len() ==> queued_ok(s.g, n, (#[trigger] s.queue[i]).bundle.0)
    &&& entries_ok(s.hot, s.g.ranges.len() as int)
    &&& forall|i: int| 0 <= i < s.clobbers.len() ==> (#[trigger] s.clobbers[i]).0 < c.f.insts
    &&& n <= MAX_ENTRIES
    &&& forall|i: int|
        0 <= i < n ==> hint_ok(c, (#[trigger] s.spillsets[i]).reg_hint) && all_queued(
            s.g,
            n,
            s.spillsets[i].bundles,
        ) && s.spillsets[i].slot.is_invalid() && set_sized(
            c.f,
            s.g.vregs,
            s.spillsets[i].size,
            s.spillsets[i].class,
        )
    &&& forall|i: int| 0 <= i < s.spilled.len() ==> queued_ok(s.g, n, (#[trigger] s.spilled[i]).0)
    &&& forall|b: int| 0 <= b < s.g.bundles.len() ==> hint_ok(c, (#[trigger] s.g.bundles[b]).allocation.as_reg())
}

impl<'a, F: Function> AllocPass<'a, F> {
    /// The mathematical value.
    pub open spec fn view(&self) -> AllocState {
        AllocState {
            g: self.g@,
            pregs: preg_entries(self.pregs@),
            queue: self.allocation_queue@,
            hot: self.hot_code@,
            clobbers: self.clobbers@,
            spillsets: spillset_states(self.spillsets@),
            spilled: self.spilled_bundles@,
            stats: self.stats,
        }
    }

    /// What stays fixed.
    pub open spec fn ctx(&self) -> Ctx {
        self.shape@
    }

    /// The parts of the search fit together, live ranges are in order, registers belong to one
    /// bundle at a time, and bundles wait at one place.
    pub open spec fn wf(&self) -> bool {
        self.base_wf() && sound(self.ctx(), self@)
    }

    /// The parts of the search fit together.
    pub open spec fn base_wf(&self) -> bool {
        &&& self.g.wf()
        &&& self.g.func@ == self.ctx().f
        &&& self.ctx().f == self.func.model()
        &&& self.ctx().m == self.env@
        &&& crate::liveness::ctx_ok(self.ctx())
        &&& base_ok(self.ctx(), self@)
        &&& forall|p: int|
            0 <= p < self.pregs@.len() ==> (#[trigger] self.pregs@[p]).reg == self.env.regs@[p]
    }
}

/// Bundle `b`, whose first live range belongs to `reg`, gets a spill set and is queued.
pub open spec fn alloc_enqueue(c: Ctx, s: AllocState, b: u32, reg: VReg) -> Result<
    AllocState,
    RegAllocError,
> {
    if s.spillsets.len() >= MAX_ENTRIES {
        Err(RegAllocError::TooLarge)
    } else {
        let set = SpillSetState {
            bundles: Seq::empty(),
            size: ((c.f.slot_size)(reg.class, reg) as usize) as u32,
            class: reg.class,
            slot: SpillSlotIndex(u32::MAX),
            reg_hint: None,
        };
        let g = graph_set_bundle(
            s.g,
            b,
            LiveBundle {
                spillset: SpillSetIndex(s.spillsets.len() as u32),
                ..s.g.bundles[b as int]
            },
        );
        match graph_refresh(g, b) {
            Ok(h) => Ok(
                AllocState {
                    g: h,
                    spillsets: s.spillsets.push(set),
                    queue: queue_insert(
                        s.queue,
                        PrioQueueEntry {
                            prio: h.bundles[b as int].prio,
                            bundle: LiveBundleIndex(b),
                        },
                    ),
                    ..s
                },
            ),
            Err(e) => Err(e),
        }
    }
}

/// The bundles that begin with the first live range of one of the registers from `v` on are
/// queued.
pub open spec fn alloc_enqueue_all(c: Ctx, s: AllocState, v: int) -> Result<
    AllocState,
    RegAllocError,
>
    decreases c.f.num_vregs - v,
{
    if v < 0 || v >= c.f.num_vregs {
        Ok(s)
    } else {
        let list = s.g.in_vreg[v];
        let b = s.g.ranges[list[0] as int].bundle.0;
        if list.len() > 0 && s.g.in_bundle[b as int][0] == list[0] {
            match alloc_enqueue(c, s, b, s.g.vregs[v].reg) {
                Ok(t) => alloc_enqueue_all(c, t, v + 1),
                Err(e) => Err(e),
            }
        } else {
            alloc_enqueue_all(c, s, v + 1)
        }
    }
}

/// The live ranges and lists stay, and bundles keep their spill sets.
pub open spec fn same_lists(g: GraphState, h: GraphState) -> bool {
    &&& h == (GraphState { bundles: h.bundles, ..g })
    &&& h.bundles.len() == g.bundles.len()
}

pub proof fn lemma_queue_member(s: Seq<PrioQueueEntry>, e: PrioQueueEntry, i: int)
    requires
        0 <= i < queue_insert(s, e).len(),
    ensures
        queue_insert(s, e)[i] == e || exists|j: int| 0 <= j < s.len() && s[j] == queue_insert(s, e)[i],
{
    crate::queue::lemma_queue_position(s, e, 0);
    let p = crate::queue::queue_position(s, e, 0);
    let t = queue_insert(s, e);
    if i < p {
        assert(t[i] == s[i]);
    } else if i > p {
        assert(t[i] == s[i - 1]);
    }
}

/// A bundle that was queued stays so when bundles keep their live ranges and spill sets.
pub proof fn lemma_alloc_bundles(c: Ctx, s: AllocState, t: AllocState)
    requires
        base_ok(c, s),
        t == (AllocState { g: t.g, spillsets: t.spillsets, stats: t.stats, ..s }),
        graph_ok(c.f, t.g),
        same_lists(s.g, t.g),
        s.spillsets.len() <= t.spillsets.len() <= MAX_ENTRIES,
        forall|b: int|
            0 <= b < s.g.bundles.len() ==> {
                &&& (#[trigger] t.g.bundles[b]).spillset == s.g.bundles[b].spillset
                    || t.g.bundles[b].spillset.0 < t.spillsets.len()
                &&& hint_ok(c, t.g.bundles[b].allocation.as_reg())
            },
        forall|i: int|
            0 <= i < t.spillsets.len() ==> hint_ok(c, (#[trigger] t.spillsets[i]).reg_hint)
                && t.spillsets[i].slot.is_invalid() && set_sized(
                c.f,
                t.g.vregs,
                t.spillsets[i].size,
                t.spillsets[i].class,
            ) && if i < s.spillsets.len() {
                t.spillsets[i].bundles == s.spillsets[i].bundles
            } else {
                t.spillsets[i].bundles.len() == 0
            },
    ensures
        base_ok(c, t),
{
    let n = s.spillsets.len() as int;
    let m = t.spillsets.len() as int;
    assert forall|b: u32| queued_ok(s.g, n, b) implies #[trigger] queued_ok(t.g, m, b) by {
        assert(t.g.bundles[b as int].spillset == s.g.bundles[b as int].spillset
            || t.g.bundles[b as int].spillset.0 < t.spillsets.len());
    }
    assert forall|p: int| 0 <= p < t.pregs.len() implies preg_ok(t.g, m, #[trigger] t.pregs[p]) by {
        assert(preg_ok(s.g, n, s.pregs[p]));
        assert forall|i: int| 0 <= i < t.pregs[p].len() implies taken_ok(
            t.g,
            m,
            (#[trigger] t.pregs[p][i]).1,
        ) by {
            assert(taken_ok(s.g, n, s.pregs[p][i].1));
        }
    }
    assert forall|i: int| 0 <= i < t.queue.len() implies queued_ok(
        t.g,
        m,
        (#[trigger] t.queue[i]).bundle.0,
    ) by {
        assert(queued_ok(s.g, n, s.queue[i].bundle.0));
    }
    assert forall|i: int| 0 <= i < t.spilled.len() implies queued_ok(
        t.g,
        m,
        (#[trigger] t.spilled[i]).0,
    ) by {
        assert(queued_ok(s.g, n, s.spilled[i].0));
    }
    assert forall|i: int| 0 <= i < m implies hint_ok(c, (#[trigger] t.spillsets[i]).reg_hint)
        && all_queued(t.g, m, t.spillsets[i].bundles) by {
        if i < n {
            assert(all_queued(s.g, n, s.spillsets[i].bundles));
            assert forall|k: int| 0 <= k < t.spillsets[i].bundles.len() implies queued_ok(
                t.g,
                m,
                #[trigger] t.spillsets[i].bundles[k],
            ) by {
                assert(queued_ok(s.g, n, s.spillsets[i].bundles[k]));
            }
        }
    }
    assert forall|b: int, i: int|
        0 <= b < t.g.in_bundle.len() && 0 <= i < t.g.in_bundle[b].len() implies crate::bundles::in_its_vreg(
        t.g,
        #[trigger] t.g.in_bundle[b][i],
    ) by {
        assert(crate::bundles::in_its_vreg(s.g, s.g.in_bundle[b][i]));
    }
}

/// What is placed and what waits does not depend on spill sets.
pub proof fn lemma_same_allocations(c: Ctx, s: AllocState, t: AllocState)
    requires
        base_ok(c, s),
        sound(c, s),
        same_lists(s.g, t.g),
        t.pregs == s.pregs,
        t.queue == s.queue,
        t.spilled == s.spilled,
        forall|b: int|
            0 <= b < s.g.bundles.len() ==> (#[trigger] t.g.bundles[b]).allocation
                == s.g.bundles[b].allocation,
    ensures
        placed(c, t.g, t.pregs),
        waiting(t.g, t.queue, t.spilled),
{
    assert forall|b: int, i: int|
        0 <= b < t.g.in_bundle.len() && 0 <= i < t.g.in_bundle[b].len() implies holds(
        t.g,
        t.pregs,
        b,
        #[trigger] t.g.in_bundle[b][i],
    ) by {
        assert(holds(s.g, s.pregs, b, s.g.in_bundle[b][i]));
        assert(t.g.bundles[b].allocation == s.g.bundles[b].allocation);
    }
    assert forall|p: int, i: int| 0 <= p < t.pregs.len() && 0 <= i < t.pregs[p].len() implies owned(
        c,
        t.g,
        p,
        #[trigger] t.pregs[p][i],
    ) by {
        assert(owned(c, s.g, p, s.pregs[p][i]));
        assert(preg_ok(s.g, s.spillsets.len() as int, s.pregs[p]));
        assert(taken_ok(s.g, s.spillsets.len() as int, s.pregs[p][i].1));
    }
    assert forall|i: int| 0 <= i < t.queue.len() implies t.g.bundles[(
    #[trigger] t.queue[i]).bundle.ix()].allocation == Allocation::Nowhere by {
        assert(queued_ok(s.g, s.spillsets.len() as int, s.queue[i].bundle.0));
        assert(s.g.bundles[s.queue[i].bundle.ix()].allocation == Allocation::Nowhere);
    }
}

/// Bundles may change in what is neither their spill set nor their register.
pub proof fn lemma_bundles_sound(c: Ctx, s: AllocState, t: AllocState)
    requires
        base_ok(c, s),
        sound(c, s),
        same_lists(s.g, t.g),
        t.pregs == s.pregs,
        t.queue == s.queue,
        t.spilled == s.spilled,
        t.spillsets.len() >= s.spillsets.len(),
        forall|b: int|
            0 <= b < s.g.bundles.len() ==> (#[trigger] t.g.bundles[b]).spillset
                == s.g.bundles[b].spillset && t.g.bundles[b].allocation
                == s.g.bundles[b].allocation,
    ensures
        sound(c, t),
{
    lemma_ordered_same(s.g, t.g, s.spillsets.len() as int, t.spillsets.len() as int);
    lemma_same_allocations(c, s, t);
}

/// The bundles whose first live range belongs to register `v` or a later one.
pub open spec fn not_queued(g: GraphState, v: int) -> Set<u32> {
    Set::new(
        |b: u32|
            b < g.bundles.len() && g.in_bundle[b as int].len() > 0
                && g.ranges[g.in_bundle[b as int][0] as int].vreg.ix() >= v,
    )
}

/// A register that no bundle begins with.
proof fn lemma_not_queued(c: Ctx, g: GraphState, s: AllocState, v: int)
    requires
        graph_ok(c.f, g),
        bundled(g),
        settled(c, s, 0, not_queued(g, v)),
        same_lists(g, s.g),
        g.in_vreg[v].len() == 0 || g.in_bundle[g.ranges[g.in_vreg[v][0] as int].bundle.ix()][0]
            != g.in_vreg[v][0],
    ensures
        settled(c, s, 0, not_queued(g, v + 1)),
{
    assert forall|b: u32|
        b < s.g.bundles.len() && s.g.in_bundle[b as int].len() > 0 && #[trigger] not_queued(
            g,
            v,
        ).contains(b) implies not_queued(g, v + 1).contains(b) by {
        lemma_bundle_first(c.f, g, b as int);
    }
    lemma_settled_more(c, s, 0, not_queued(g, v), not_queued(g, v + 1));
}

/// The bundle that begins with the first live range of register `v` was queued.
proof fn lemma_enqueue_settled(c: Ctx, g: GraphState, s: AllocState, t: AllocState, b: u32, v: int)
    requires
        graph_ok(c.f, g),
        bundled(g),
        base_ok(c, s),
        sets_below(s.g, s.spillsets.len() as int),
        settled(c, s, 0, not_queued(g, v)),
        same_lists(g, s.g),
        same_lists(g, t.g),
        b < g.bundles.len(),
        g.in_bundle[b as int].len() > 0,
        g.ranges[g.in_bundle[b as int][0] as int].vreg.0 == v,
        alloc_enqueue(c, s, b, g.vregs[v].reg) == Ok::<AllocState, RegAllocError>(t),
        t.g.bundles[b as int].allocation == Allocation::Nowhere,
    ensures
        settled(c, t, 0, not_queued(g, v + 1)),
{
    let e = PrioQueueEntry { prio: t.g.bundles[b as int].prio, bundle: LiveBundleIndex(b) };
    lemma_queue_insert(s.queue, e);
    assert(settled_bundle(c, t, 0, b));
    assert(set_classed(t, b));
    assert(hints_classed(c.m, t.spillsets)) by {
        if classes_ok(c.m) {
            assert forall|i: int| 0 <= i < t.spillsets.len() implies ((
            #[trigger] t.spillsets[i]).reg_hint matches Some(x) ==> x.class
                == t.spillsets[i].class) by {
                if i < s.spillsets.len() {
                    assert(s.spillsets[i].reg_hint matches Some(x) ==> x.class
                        == s.spillsets[i].class);
                }
            }
        }
    }
    assert forall|x: u32| #[trigger] not_queued(g, v).contains(x) && x != b implies not_queued(
        g,
        v + 1,
    ).contains(x) by {
        lemma_bundle_first(c.f, g, x as int);
        lemma_bundle_first(c.f, g, b as int);
    }
    lemma_settled_step(c, s, t, 0, 0, not_queued(g, v), not_queued(g, v + 1), b);
}

impl<'a, F: Function> AllocPass<'a, F> {
    /// Put a bundle that was queued before, or can be now, into the queue.
    pub fn enqueue(&mut self, bundle: LiveBundleIndex, prio: u32)
        requires
            old(self).wf(),
            queued_ok(old(self)@.g, old(self)@.spillsets.len() as int, bundle.0),
            is_idle(old(self)@, bundle.0),
        ensures
            final(self).ctx() == old(self).ctx(),
            final(self).wf(),
            final(self)@ == (AllocState {
                queue: queue_insert(old(self)@.queue, PrioQueueEntry { prio, bundle }),
                ..old(self)@
            }),
    {
        let ghost s = self@;
        self.allocation_queue.insert(bundle, prio as usize);
        proof {
            let t = self@;
            let e = PrioQueueEntry { prio, bundle };
            assert(t.queue == queue_insert(s.queue, e));
            lemma_queue_waiting(s, e);
            assert forall|i: int| 0 <= i < t.queue.len() implies queued_ok(
                t.g,
                t.spillsets.len() as int,
                (#[trigger] t.queue[i]).bundle.0,
            ) by {
                lemma_queue_member(s.queue, e, i);
                if t.queue[i] != e {
                    let j = choose|j: int| 0 <= j < s.queue.len() && s.queue[j] == t.queue[i];
                    assert(queued_ok(s.g, s.spillsets.len() as int, s.queue[j].bundle.0));
                }
            }
            assert(alloc_ok(self.ctx(), t));
        }
    }

    /// Give a bundle a spill set and queue it.
    fn enqueue_new(&mut self, bundle: LiveBundleIndex, reg: VReg) -> (r: Result<(), RegAllocError>)
        requires
            old(self).wf(),
            exists|v: int|
                0 <= v < old(self)@.g.vregs.len() && (#[trigger] old(self)@.g.vregs[v]).reg == reg,
            bundle.0 < old(self)@.g.bundles.len(),
            old(self)@.g.in_bundle[bundle.ix()].len() > 0,
            is_idle(old(self)@, bundle.0),
        ensures
            final(self).ctx() == old(self).ctx(),
            match alloc_enqueue(old(self).ctx(), old(self)@, bundle.0, reg) {
                Ok(s) => {
                    &&& r is Ok
                    &&& final(self)@ == s
                    &&& final(self).wf()
                    &&& same_lists(old(self)@.g, s.g)
                },
                Err(e) => r == Err::<(), RegAllocError>(e) && e !is SSA,
            },
    {
        let ghost s = self@;
        let ghost c = self.ctx();
        if self.spillsets.len() >= MAX_ENTRIES as usize {
            return Err(RegAllocError::TooLarge);
        }
        let ssidx = SpillSetIndex::new(self.spillsets.len());
        let size = self.func.spillslot_size(reg.class(), reg) as u32;
        self.spillsets.push(
            SpillSet {
                bundles: small_new(),
                slot: SpillSlotIndex::invalid(),
                size,
                class: reg.class(),
                reg_hint: None,
            },
        );
        proof {
            lemma_set_bundle_ok(
                c.f,
                s.g,
                bundle.0,
                LiveBundle { spillset: ssidx, ..s.g.bundles[bundle.ix()] },
            );
        }
        self.g.bundles[bundle.index()].spillset = ssidx;
        let prio = match self.g.refresh_bundle(bundle) {
            Ok(prio) => prio,
            Err(e) => {
                return Err(e);
            },
        };
        proof {
            let t = self@;
            let set = SpillSetState {
                bundles: Seq::empty(),
                size,
                class: reg.class,
                slot: SpillSlotIndex(u32::MAX),
                reg_hint: None,
            };
            assert(t.spillsets =~= s.spillsets.push(set));
            assert forall|i: int| 0 <= i < t.spillsets.len() implies hint_ok(
                c,
                (#[trigger] t.spillsets[i]).reg_hint,
            ) && t.spillsets[i].slot.is_invalid() && set_sized(
                c.f,
                t.g.vregs,
                t.spillsets[i].size,
                t.spillsets[i].class,
            ) && if i < s.spillsets.len() {
                t.spillsets[i].bundles == s.spillsets[i].bundles
            } else {
                t.spillsets[i].bundles.len() == 0
            } by {
                if i < s.spillsets.len() {
                    assert(hint_ok(c, s.spillsets[i].reg_hint));
                } else {
                    lemma_size_asked(c.f, s.g.vregs, reg, size);
                }
            }
            assert forall|b: int| 0 <= b < s.g.bundles.len() implies {
                &&& (#[trigger] t.g.bundles[b]).spillset == s.g.bundles[b].spillset
                    || t.g.bundles[b].spillset.0 < t.spillsets.len()
                &&& hint_ok(c, t.g.bundles[b].allocation.as_reg())
            } by {
                assert(hint_ok(c, s.g.bundles[b].allocation.as_reg()));
            }
            lemma_alloc_bundles(c, s, t);
            let n = s.spillsets.len() as int;
            let data = LiveBundle { spillset: ssidx, ..s.g.bundles[bundle.ix()] };
            let h = graph_set_bundle(s.g, bundle.0, data);
            lemma_new_set_ordered(s.g, bundle.0, data, n);
            lemma_ordered_same(h, t.g, n + 1, n + 1);
            lemma_same_allocations(c, s, t);
        }
        self.enqueue(bundle, prio);
        Ok(())
    }

    /// Give spill sets to the bundles and queue them.
    pub fn queue_bundles(&mut self) -> (r: Result<(), RegAllocError>)
        requires
            old(self).wf(),
            bundled(old(self)@.g),
            old(self)@.queue.len() == 0,
            old(self)@.spilled.len() == 0,
            old(self)@.spillsets.len() == 0,
            forall|b: int|
                0 <= b < old(self)@.g.bundles.len() ==> (#[trigger] old(
                    self,
                )@.g.bundles[b]).allocation == Allocation::Nowhere,
        ensures
            final(self).ctx() == old(self).ctx(),
            match alloc_enqueue_all(old(self).ctx(), old(self)@, 0) {
                Ok(s) => {
                    &&& r is Ok
                    &&& final(self)@ == (AllocState {
                        stats: Stats {
                            merged_bundle_count: s.queue.len() as usize,
                            ..s.stats
                        },
                        ..s
                    })
                    &&& final(self).wf()
                    &&& same_lists(old(self)@.g, s.g)
                    &&& s.pregs == old(self)@.pregs
                    &&& aside_free(s, 0)
                    &&& settled(old(self).ctx(), final(self)@, 0, Set::empty())
                },
                Err(e) => r == Err::<(), RegAllocError>(e) && e !is SSA,
            },
    {
        let ghost s = self@;
        let ghost c = self.ctx();
        assert(settled(c, s, 0, not_queued(s.g, 0)));
        let n = self.g.vregs.len();
        let mut v: usize = 0;
        while v < n
            invariant
                self.wf(),
                self.ctx() == c,
                c == old(self).ctx(),
                s == old(self)@,
                n == c.f.num_vregs,
                v <= n,
                graph_ok(c.f, s.g),
                bundled(s.g),
                same_lists(s.g, self@.g),
                self@.pregs == s.pregs,
                self@.spilled.len() == 0,
                settled(c, self@, 0, not_queued(s.g, v as int)),
                forall|i: int|
                    0 <= i < self@.spillsets.len() ==> (
                    #[trigger] self@.spillsets[i]).bundles.len() == 0,
                forall|b: int|
                    0 <= b < self@.g.bundles.len() ==> (#[trigger] self@.g.bundles[b]).allocation
                        == Allocation::Nowhere,
                forall|i: int|
                    0 <= i < self@.queue.len() ==> s.g.ranges[s.g.in_bundle[(
                    #[trigger] self@.queue[i]).bundle.ix()][0] as int].vreg.0 < v,
                alloc_enqueue_all(c, s, 0) == alloc_enqueue_all(c, self@, v as int),
            decreases n - v,
        {
            let lr = self.g.in_vreg.first(v);
            if lr != NIL {
                proof {
                    assert(in_its_bundle(s.g, s.g.in_vreg[v as int][0]));
                    assert(self@.g.in_vreg[v as int][0] == lr);
                }
                let bundle = self.g.ranges[lr as usize].bundle;
                if self.g.in_bundle.first(bundle.index()) == lr {
                    let reg = self.g.vregs[v].reg;
                    let ghost before = self@;
                    assert(before.g.vregs[v as int].reg == reg);
                    assert(s.g.ranges[s.g.in_bundle[bundle.ix()][0] as int].vreg.0 == v);
                    assert(is_idle(self@, bundle.0)) by {
                        if is_queued(self@.queue, bundle.0) {
                            let i = choose|i: int|
                                0 <= i < self@.queue.len() && (
                                #[trigger] self@.queue[i]).bundle.0 == bundle.0;
                            assert(s.g.ranges[s.g.in_bundle[self@.queue[i].bundle.ix()][0] as int].vreg.0
                                < v);
                        }
                    }
                    match self.enqueue_new(bundle, reg) {
                        Ok(()) => {},
                        Err(e) => {
                            return Err(e);
                        },
                    }
                    proof {
                        let after = self@;
                        assert forall|i: int| 0 <= i < after.spillsets.len() implies (
                        #[trigger] after.spillsets[i]).bundles.len() == 0 by {
                            if i < before.spillsets.len() {
                                assert(after.spillsets[i] == before.spillsets[i]);
                            }
                        }
                        assert forall|i: int| 0 <= i < after.queue.len() implies s.g.ranges[s.g.in_bundle[(
                        #[trigger] after.queue[i]).bundle.ix()][0] as int].vreg.0 <= v by {
                            let e = PrioQueueEntry {
                                prio: after.g.bundles[bundle.ix()].prio,
                                bundle,
                            };
                            assert(after.queue == queue_insert(before.queue, e));
                            lemma_queue_member(before.queue, e, i);
                            if after.queue[i] != e {
                                let j = choose|j: int|
                                    0 <= j < before.queue.len() && before.queue[j]
                                        == after.queue[i];
                                assert(s.g.ranges[s.g.in_bundle[before.queue[j].bundle.ix()][0] as int].vreg.0
                                    < v);
                            }
                        }
                        assert forall|b: int| 0 <= b < after.g.bundles.len() implies (
                        #[trigger] after.g.bundles[b]).allocation == Allocation::Nowhere by {
                            assert(before.g.bundles[b].allocation == Allocation::Nowhere);
                        }
                        lemma_enqueue_settled(c, s.g, before, after, bundle.0, v as int);
                    }
                } else {
                    proof {
                        lemma_not_queued(c, s.g, self@, v as int);
                    }
                }
            } else {
                proof {
                    lemma_not_queued(c, s.g, self@, v as int);
                }
            }
            v += 1;
        }
        proof {
            lemma_sets_empty(self@);
            assert forall|b: u32|
                b < self@.g.bundles.len() && self@.g.in_bundle[b as int].len() > 0
                    && #[trigger] not_queued(s.g, v as int).contains(b) implies Set::<
                u32,
            >::empty().contains(b) by {
                lemma_bundle_first(c.f, s.g, b as int);
            }
            lemma_settled_more(c, self@, 0, not_queued(s.g, v as int), Set::empty());
        }
        let ghost done = self@;
        self.stats.merged_bundle_count = self.allocation_queue.len();
        proof {
            lemma_settled_stats(c, done, self@, 0, Set::empty());
        }
        Ok(())
    }
}

} // verus!
