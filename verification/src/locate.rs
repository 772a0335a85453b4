//! Where values are: every live range has a location that meets what its mentions demand, and two
//! live ranges that reach into each other are in different places.
use crate::apply::{range_alloc, ApplyIn};
use crate::assign::{all_queued, alloc_ok, preg_ok, queued_ok, AllocState};
use crate::func::{FuncModel, MachModel};
use crate::graph::GraphState;
use crate::lists::{lemma_below, lists_ok};
use crate::liveness::{Ctx, PassState};
use crate::place::{entry_of, holds, lemma_key, set_member, sets_filled};
use crate::props::{graph_requirement, list_requirement, range_requirement, uses_requirement};
use crate::reg::{Allocation, PReg};
use crate::requirement::Requirement;
use crate::settle::{is_aside, reg_meets, settled, settled_bundle};
use crate::slots::{
    law_slots_not_shared, set_in_slot, set_ready, sets_with_slots, slot_base, slots_placed,
    slots_sound,
};
use crate::spill::{bundles_exist, slots_ok, SlotData, SlotState};
use vstd::prelude::*;

verus! {

/// The stack frame before it has slots.
pub open spec fn slots_start(a: AllocState) -> SlotState {
    SlotState {
        spillsets: a.spillsets,
        slots: Seq::empty(),
        by_size: Seq::empty(),
        num_spillslots: 0,
    }
}

/// What is read to apply locations.
pub open spec fn apply_input(c: Ctx, u: PassState, a: AllocState, t: SlotState) -> ApplyIn {
    ApplyIn {
        c,
        g: a.g,
        spillsets: t.spillsets,
        slots: t.slots,
        liveins: u.liveins,
        outs: u.outs,
        ins: u.ins,
    }
}

/// The search is over: nothing waits in the queue, and every bundle has a register or is entered in
/// its spill set.
pub open spec fn search_done(c: Ctx, a: AllocState) -> bool {
    &&& alloc_ok(c, a)
    &&& a.queue.len() == 0
    &&& sets_filled(a, a.spilled.len() as int)
    &&& settled(c, a, a.spilled.len() as int, Set::empty())
}

/// The stack frame is done: every spill set with bundles has a slot, and every slot its place.
pub open spec fn frame_done(f: FuncModel, a: AllocState, t: SlotState) -> bool {
    &&& slots_sound(a.g, t)
    &&& sets_with_slots(slots_start(a), t, t.spillsets.len() as int)
    &&& slots_placed(t, f.named_by_last, t.slots.len() as int, t.num_spillslots as int)
}

/// After the search the spill sets are ready for slots.
pub proof fn lemma_frame_ready(c: Ctx, a: AllocState)
    requires
        search_done(c, a),
    ensures
        slots_ok(a.g, slots_start(a)),
        slots_sound(a.g, slots_start(a)),
{
    let s = slots_start(a);
    let n = a.spillsets.len() as int;
    reveal(lists_ok);
    assert forall|i: int| 0 <= i < s.spillsets.len() implies bundles_exist(
        a.g,
        (#[trigger] s.spillsets[i]).bundles,
    ) && set_ready(a.g, s.spillsets[i].bundles) by {
        let bundles = a.spillsets[i].bundles;
        assert(all_queued(a.g, n, a.spillsets[i].bundles));
        assert forall|k: int| 0 <= k < bundles.len() implies (#[trigger] bundles[k])
            < a.g.bundles.len() by {
            assert(queued_ok(a.g, n, a.spillsets[i].bundles[k]));
        }
        assert(a.spillsets[i].bundles.no_duplicates());
        assert forall|x: int, y: int|
            #![trigger bundles[x], bundles[y]]
            0 <= x < y < bundles.len() implies crate::order::apart(
            a.g.ranges,
            a.g.in_bundle[bundles[x] as int],
            a.g.in_bundle[bundles[y] as int],
        ) by {
            assert(set_member(a, a.spilled.len() as int, i, a.spillsets[i].bundles[x]));
            assert(set_member(a, a.spilled.len() as int, i, a.spillsets[i].bundles[y]));
        }
    }
    assert forall|i: int| 0 <= i < s.spillsets.len() implies #[trigger] set_in_slot(a.g, s, i) by {
        assert(a.spillsets[i].slot.is_invalid());
    }
}

/// Where bundle `b` is once search and stack frame are done.
pub proof fn lemma_bundle_located(c: Ctx, a: AllocState, t: SlotState, b: u32)
    requires
        search_done(c, a),
        frame_done(c.f, a, t),
        b < a.g.bundles.len(),
        a.g.in_bundle[b as int].len() > 0,
    ensures
        ({
            let set = a.g.bundles[b as int].spillset;
            let slot = t.spillsets[set.ix()].slot;
            match a.g.bundles[b as int].allocation {
                Allocation::Reg(p) => {
                    &&& graph_requirement(a.g, b) matches Some(q)
                    &&& reg_meets(c.m, q, p)
                },
                Allocation::Stack(_) => false,
                Allocation::Nowhere => {
                    &&& graph_requirement(a.g, b) matches Some(Requirement::Any(_))
                    &&& set.0 < t.spillsets.len()
                    &&& t.spillsets[set.ix()].bundles.contains(b)
                    &&& slot.is_valid()
                    &&& slot.0 < t.slots.len()
                    &&& t.slots[slot.ix()].alloc is Stack
                },
            }
        }),
{
    let k = a.spilled.len() as int;
    assert(settled_bundle(c, a, k, b));
    if a.g.bundles[b as int].allocation == Allocation::Nowhere {
        assert(is_aside(a, k, b));
        let m = choose|m: int|
            0 <= m < a.spilled.len() && (#[trigger] a.spilled[m]).0 == b && (m >= k
                || a.spillsets[a.g.bundles[b as int].spillset.ix()].bundles.contains(b));
        assert(queued_ok(a.g, a.spillsets.len() as int, a.spilled[m].0));
        let set = a.g.bundles[b as int].spillset.ix();
        assert(t.spillsets[set].bundles == a.spillsets[set].bundles);
        assert(t.spillsets[set].bundles.len() > 0);
        assert(set_in_slot(a.g, t, set));
        let data = t.slots[t.spillsets[set].slot.ix()];
        assert(data.alloc is Stack);
    }
}

/// Does a location meet the demand?
pub open spec fn location_meets(m: MachModel, q: Requirement, loc: Allocation) -> bool {
    match loc {
        Allocation::Reg(p) => reg_meets(m, q, p),
        Allocation::Stack(_) => q is Any,
        Allocation::Nowhere => false,
    }
}

proof fn lemma_uses_implied(
    uses: Seq<crate::data::Use>,
    list: Seq<u32>,
    j: int,
    needed: Requirement,
)
    requires
        0 <= j <= list.len(),
    ensures
        uses_requirement(uses, list, j, needed) matches Some(q) ==> {
            &&& q.implies(needed)
            &&& forall|i: int|
                j <= i < list.len() ==> q.implies(
                    Requirement::from_operand(uses[(#[trigger] list[i]) as int].operand),
                )
        },
    decreases list.len() - j,
{
    if j < list.len() {
        match needed.both(Requirement::from_operand(uses[list[j] as int].operand)) {
            Some(n) => {
                lemma_uses_implied(uses, list, j + 1, n);
            },
            None => {},
        }
    }
}

/// The demand implies that of every mention of live range `r`.
pub open spec fn implies_mentions(g: GraphState, r: u32, q: Requirement) -> bool {
    let lr = g.ranges[r as int];
    let list = g.in_range[r as int];
    &&& lr.def.is_valid() ==> q.implies(Requirement::from_operand(g.defs[lr.def.ix()].operand))
    &&& forall|i: int|
        0 <= i < list.len() ==> q.implies(
            Requirement::from_operand(g.uses[(#[trigger] list[i]) as int].operand),
        )
}

proof fn lemma_list_implied(g: GraphState, list: Seq<u32>, i: int, needed: Requirement)
    requires
        0 <= i <= list.len(),
    ensures
        list_requirement(g, list, i, needed) matches Some(q) ==> {
            &&& q.implies(needed)
            &&& forall|k: int|
                i <= k < list.len() ==> implies_mentions(g, #[trigger] list[k], q)
        },
    decreases list.len() - i,
{
    if i < list.len() {
        let r = list[i];
        let lr = g.ranges[r as int];
        let uses = g.in_range[r as int];
        if lr.def.is_valid() {
            match needed.both(Requirement::from_operand(g.defs[lr.def.ix()].operand)) {
                Some(n) => {
                    lemma_uses_implied(g.uses, uses, 0, n);
                },
                None => {},
            }
        } else {
            lemma_uses_implied(g.uses, uses, 0, needed);
        }
        match range_requirement(g, r, needed) {
            Some(n) => {
                lemma_list_implied(g, list, i + 1, n);
                match list_requirement(g, list, i + 1, n) {
                    Some(q) => {
                        assert forall|k: int| 0 <= k < uses.len() implies q.implies(
                            Requirement::from_operand(g.uses[(#[trigger] uses[k]) as int].operand),
                        ) by {
                            assert(n.implies(
                                Requirement::from_operand(g.uses[uses[k] as int].operand),
                            ));
                        }
                        assert(implies_mentions(g, list[i], q));
                    },
                    None => {},
                }
            },
            None => {},
        }
    }
}

/// What a bundle demands implies what each of its mentions demands.
pub proof fn law_requirement_implies(g: GraphState, b: u32, i: int)
    requires
        0 <= i < g.in_bundle[b as int].len(),
    ensures
        graph_requirement(g, b) matches Some(q) ==> implies_mentions(g, g.in_bundle[b as int][i], q),
{
    let list = g.in_bundle[b as int];
    let class = g.vregs[g.ranges[list[0] as int].vreg.ix()].reg.class;
    lemma_list_implied(g, list, 0, Requirement::Any(class));
}

/// Every live range of a bundle has a location, and the location meets what the mentions of the
/// live range demand.
pub proof fn law_demands_met(c: Ctx, u: PassState, a: AllocState, t: SlotState, b: u32, i: int)
    requires
        search_done(c, a),
        frame_done(c.f, a, t),
        b < a.g.bundles.len(),
        0 <= i < a.g.in_bundle[b as int].len(),
    ensures
        ({
            let r = a.g.in_bundle[b as int][i];
            let lr = a.g.ranges[r as int];
            let list = a.g.in_range[r as int];
            &&& range_alloc(apply_input(c, u, a, t), r) matches Some(loc)
            &&& !(loc is Nowhere)
            &&& lr.def.is_valid() ==> location_meets(
                c.m,
                Requirement::from_operand(a.g.defs[lr.def.ix()].operand),
                loc,
            )
            &&& forall|j: int|
                0 <= j < list.len() ==> location_meets(
                    c.m,
                    Requirement::from_operand(a.g.uses[(#[trigger] list[j]) as int].operand),
                    loc,
                )
        }),
{
    let r = a.g.in_bundle[b as int][i];
    lemma_below(a.g.in_bundle, a.g.ranges.len() as int, b as int, i);
    assert(a.g.ranges[a.g.in_bundle[b as int][i] as int].bundle.0 == b);
    lemma_bundle_located(c, a, t, b);
    law_requirement_implies(a.g, b, i);
}

/// The words of the stack frame that a slot takes.
pub open spec fn slot_words(data: SlotData, named_by_last: bool) -> (int, int) {
    (slot_base(data, named_by_last), slot_base(data, named_by_last) + data.size)
}

/// The words of the stack frame that live range `r` takes.
pub open spec fn range_words(x: ApplyIn, r: u32) -> (int, int) {
    let set = x.g.bundles[x.g.ranges[r as int].bundle.ix()].spillset;
    slot_words(x.slots[x.spillsets[set.ix()].slot.ix()], x.c.f.named_by_last)
}

/// Two live ranges that reach into each other are in different registers or in different words of
/// the stack frame.
pub proof fn law_locations_apart(
    c: Ctx,
    u: PassState,
    a: AllocState,
    t: SlotState,
    b: u32,
    i: int,
    d: u32,
    j: int,
)
    requires
        search_done(c, a),
        frame_done(c.f, a, t),
        b < a.g.bundles.len(),
        0 <= i < a.g.in_bundle[b as int].len(),
        d < a.g.bundles.len(),
        0 <= j < a.g.in_bundle[d as int].len(),
        a.g.in_bundle[b as int][i] != a.g.in_bundle[d as int][j],
        a.g.ranges[a.g.in_bundle[b as int][i] as int].range.meets(
            a.g.ranges[a.g.in_bundle[d as int][j] as int].range,
        ),
    ensures
        ({
            let x = apply_input(c, u, a, t);
            let r = a.g.in_bundle[b as int][i];
            let q = a.g.in_bundle[d as int][j];
            &&& range_alloc(x, r) != range_alloc(x, q)
            &&& match (range_alloc(x, r), range_alloc(x, q)) {
                (Some(Allocation::Reg(p)), Some(Allocation::Reg(s))) => p != s,
                (Some(Allocation::Stack(_)), Some(Allocation::Stack(_))) => {
                    range_words(x, r).1 <= range_words(x, q).0 || range_words(x, q).1
                        <= range_words(x, r).0
                },
                _ => true,
            }
        }),
{
    let x = apply_input(c, u, a, t);
    let g = a.g;
    let n = g.ranges.len() as int;
    let r = g.in_bundle[b as int][i];
    let q = g.in_bundle[d as int][j];
    lemma_below(g.in_bundle, n, b as int, i);
    lemma_below(g.in_bundle, n, d as int, j);
    assert(g.ranges[g.in_bundle[b as int][i] as int].bundle.0 == b);
    assert(g.ranges[g.in_bundle[d as int][j] as int].bundle.0 == d);
    lemma_bundle_located(c, a, t, b);
    lemma_bundle_located(c, a, t, d);
    lemma_key(c.f, g, r);
    lemma_key(c.f, g, q);
    match (g.bundles[b as int].allocation, g.bundles[d as int].allocation) {
        (Allocation::Reg(p), Allocation::Reg(s)) => {
            if p == s {
                assert(holds(g, a.pregs, b as int, g.in_bundle[b as int][i]));
                assert(holds(g, a.pregs, d as int, g.in_bundle[d as int][j]));
                assert(crate::assign::hint_ok(c, g.bundles[b as int].allocation.as_reg()));
                let entries = a.pregs[p.ix()];
                assert(preg_ok(g, a.spillsets.len() as int, a.pregs[p.ix()]));
                let m = choose|m: int| 0 <= m < entries.len() && entries[m] == entry_of(g, r);
                let k = choose|k: int| 0 <= k < entries.len() && entries[k] == entry_of(g, q);
                if m < k {
                    assert(entries[m].0.to <= entries[k].0.from);
                } else {
                    assert(entries[k].0.to <= entries[m].0.from);
                }
            }
        },
        (Allocation::Nowhere, Allocation::Nowhere) => {
            let set1 = g.bundles[b as int].spillset.ix();
            let set2 = g.bundles[d as int].spillset.ix();
            let slot1 = t.spillsets[set1].slot.ix();
            let slot2 = t.spillsets[set2].slot.ix();
            let k = choose|k: int|
                0 <= k < t.spillsets[set1].bundles.len() && t.spillsets[set1].bundles[k] == b;
            let l = choose|l: int|
                0 <= l < t.spillsets[set2].bundles.len() && t.spillsets[set2].bundles[l] == d;
            if slot1 == slot2 {
                law_slots_not_shared(c.f, g, t, set1, k, i, set2, l, j);
            } else if slot1 < slot2 {
                let _ = (t.slots[slot1], t.slots[slot2]);
                assert(slot_base(t.slots[slot1], c.f.named_by_last) + t.slots[slot1].size
                    <= slot_base(t.slots[slot2], c.f.named_by_last));
            } else {
                assert(slot_base(t.slots[slot2], c.f.named_by_last) + t.slots[slot2].size
                    <= slot_base(t.slots[slot1], c.f.named_by_last));
            }
        },
        _ => {},
    }
}

/// A live range is not in a register at places that are kept free in that register, such as
/// those of clobbers and of the fixed registers of instructions.
pub proof fn law_reserved_respected(c: Ctx, a: AllocState, b: u32, i: int, p: PReg, k: int)
    requires
        search_done(c, a),
        b < a.g.bundles.len(),
        0 <= i < a.g.in_bundle[b as int].len(),
        a.g.bundles[b as int].allocation == Allocation::Reg(p),
        0 <= k < a.pregs[p.ix()].len(),
        a.g.ranges[a.pregs[p.ix()][k].1.ix()].vreg.is_invalid(),
    ensures
        a.g.ranges[a.g.in_bundle[b as int][i] as int].range.to.ix() <= a.pregs[p.ix()][k].0.from
            || a.pregs[p.ix()][k].0.to <= a.g.ranges[a.g.in_bundle[b as int][i] as int].range.from.ix(),
{
    let g = a.g;
    let r = g.in_bundle[b as int][i];
    lemma_below(g.in_bundle, g.ranges.len() as int, b as int, i);
    lemma_key(c.f, g, r);
    assert(holds(g, a.pregs, b as int, g.in_bundle[b as int][i]));
    assert(crate::assign::hint_ok(c, g.bundles[b as int].allocation.as_reg()));
    let entries = a.pregs[p.ix()];
    assert(preg_ok(g, a.spillsets.len() as int, a.pregs[p.ix()]));
    let m = choose|m: int| 0 <= m < entries.len() && entries[m] == entry_of(g, r);
    assert(g.ranges[g.in_bundle[b as int][i] as int].vreg.is_valid());
    if m < k {
        assert(entries[m].0.to <= entries[k].0.from);
    } else {
        assert(m != k);
        assert(entries[k].0.to <= entries[m].0.from);
    }
}

proof fn lemma_uses_weakest(
    uses: Seq<crate::data::Use>,
    list: Seq<u32>,
    j: int,
    needed: Requirement,
    w: Requirement,
)
    requires
        0 <= j <= list.len(),
        w.implies(needed),
        forall|k: int|
            0 <= k < list.len() ==> w.implies(
                Requirement::from_operand(uses[(#[trigger] list[k]) as int].operand),
            ),
    ensures
        uses_requirement(uses, list, j, needed) matches Some(q) && w.implies(q),
    decreases list.len() - j,
{
    if j < list.len() {
        let n = needed.both(Requirement::from_operand(uses[list[j] as int].operand));
        lemma_uses_weakest(uses, list, j + 1, n->Some_0, w);
    }
}

proof fn lemma_list_weakest(
    g: GraphState,
    list: Seq<u32>,
    i: int,
    needed: Requirement,
    w: Requirement,
)
    requires
        0 <= i <= list.len(),
        w.implies(needed),
        forall|k: int| 0 <= k < list.len() ==> implies_mentions(g, #[trigger] list[k], w),
    ensures
        list_requirement(g, list, i, needed) matches Some(q) && w.implies(q),
    decreases list.len() - i,
{
    if i < list.len() {
        let r = list[i];
        assert(implies_mentions(g, list[i], w));
        let d = g.ranges[r as int].def;
        let n = if d.is_valid() {
            needed.both(Requirement::from_operand(g.defs[d.ix()].operand))->Some_0
        } else {
            needed
        };
        lemma_uses_weakest(g.uses, g.in_range[r as int], 0, n, w);
        let m = range_requirement(g, r, needed)->Some_0;
        lemma_list_weakest(g, list, i + 1, m, w);
    }
}

/// A bundle demands no more than its mentions do: whatever implies what each of them demands, for the
/// class of the bundle, implies what the bundle demands.
pub proof fn law_requirement_weakest(g: GraphState, b: u32, w: Requirement)
    requires
        ({
            let list = g.in_bundle[b as int];
            let class = g.vregs[g.ranges[list[0] as int].vreg.ix()].reg.class;
            &&& w.implies(Requirement::Any(class))
            &&& forall|k: int| 0 <= k < list.len() ==> implies_mentions(g, #[trigger] list[k], w)
        }),
    ensures
        graph_requirement(g, b) matches Some(q) && w.implies(q),
{
    let list = g.in_bundle[b as int];
    let class = g.vregs[g.ranges[list[0] as int].vreg.ix()].reg.class;
    lemma_list_weakest(g, list, 0, Requirement::Any(class), w);
}

} // verus!
