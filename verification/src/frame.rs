//! The words of the stack frame that values take.
use crate::apply::range_alloc;
use crate::assign::set_sized;
use crate::bundles::class_of;
use crate::carried::found;
use crate::cfg::reachable;
use crate::copied::range_of;
use crate::func::FuncModel;
use crate::index::Block;
use crate::lists::{lemma_below, lemma_neq};
use crate::liveness::Ctx;
use crate::locate::{law_locations_apart, lemma_bundle_located, range_words};
use crate::names::{law_entry_names, named_alike, names_in};
use crate::needed::{lemma_fits, sits, succeeds};
use crate::parts::in_some;
use crate::reg::{Allocation, SpillSlot, VReg};
use crate::run::{allocated, located};
use crate::settle::set_classed;
use crate::spill::slots_sized;
use vstd::prelude::*;

verus! {

/// As many words are asked for one register of a class as for another one, and not more than a
/// stack frame can have.
pub open spec fn sized_by_class(f: FuncModel) -> bool {
    forall|v: VReg, w: VReg|
        #![trigger (f.slot_size)(v.class, v), (f.slot_size)(w.class, w)]
        v.class == w.class ==> (f.slot_size)(v.class, v) == (f.slot_size)(w.class, w) && (
        f.slot_size)(v.class, v) <= u32::MAX
}

/// The first word that a register takes in the slot: a slot goes by its first word or by its last one.
pub open spec fn first_word(f: FuncModel, reg: VReg, slot: SpillSlot) -> int {
    if f.named_by_last {
        slot.index - (f.slot_size)(reg.class, reg) + 1
    } else {
        slot.index as int
    }
}

/// The word behind those that a register takes in the slot.
pub open spec fn end_word(f: FuncModel, reg: VReg, slot: SpillSlot) -> int {
    first_word(f, reg, slot) + (f.slot_size)(reg.class, reg)
}

/// Is register number `v` named `reg` wherever it is defined, and defined in a block that can be
/// reached?
pub open spec fn goes_by(c: Ctx, v: int, reg: VReg) -> bool {
    &&& 0 <= v < c.f.num_vregs
    &&& named_alike(c.f, v, reg)
    &&& exists|b: Block| b.0 < c.f.blocks && #[trigger] reachable(c.f, b) && names_in(c.f, v, b)
}

proof fn lemma_goes_by(c: Ctx, v: int, reg: VReg)
    requires
        succeeds(c),
        goes_by(c, v, reg),
    ensures
        found(c).g.vregs[v].reg == reg,
{
    lemma_fits(c);
    let b = choose|b: Block|
        b.0 < c.f.blocks && #[trigger] reachable(c.f, b) && names_in(c.f, v, b);
    law_entry_names(c, b, v, reg);
    reveal(succeeds);
}

/// A live range on the stack takes as many words as are asked for a register of its class.
proof fn lemma_stack_words(c: Ctx, v: int, y: int, slot: SpillSlot) -> (size: u32)
    requires
        succeeds(c),
        0 <= v < found(c).g.in_vreg.len(),
        0 <= y < found(c).g.in_vreg[v].len(),
        range_alloc(found(c), found(c).g.in_vreg[v][y]) == Some(Allocation::Stack(slot)),
    ensures
        set_sized(c.f, found(c).g.vregs, size, found(c).g.vregs[v].reg.class),
        size > 0,
        ({
            let (base, end) = range_words(found(c), found(c).g.in_vreg[v][y]);
            &&& base == if c.f.named_by_last {
                slot.index - size + 1
            } else {
                slot.index as int
            }
            &&& end == base + size
            &&& base >= 0
            &&& base % size as int == 0
            &&& end <= allocated(c)->Ok_0.num_spillslots
        }),
{
    reveal(succeeds);
    let (u, a, t) = located(c)->Ok_0;
    let r = a.g.in_vreg[v][y];
    lemma_below(a.g.in_vreg, a.g.ranges.len() as int, v, y);
    assert(in_some(a.g.in_bundle, a.g.in_vreg[v][y]));
    let (b, k) = choose|b: int, k: int|
        0 <= b < a.g.in_bundle.len() && 0 <= k < a.g.in_bundle[b].len()
            && #[trigger] a.g.in_bundle[b][k] == r;
    assert(a.g.ranges[a.g.in_bundle[b][k] as int].bundle.0 == b);
    lemma_bundle_located(c, a, t, b as u32);
    let set = a.g.bundles[b].spillset.ix();
    assert(set_classed(a, b as u32));
    assert(class_of(a.g, a.g.in_bundle[b][k]) == class_of(a.g, a.g.in_bundle[b][0]));
    assert(a.g.ranges[a.g.in_vreg[v][y] as int].vreg.0 == v);
    assert(t.spillsets[set].size == a.spillsets[set].size);
    let n = t.spillsets[set].slot.ix();
    assert(t.slots[n].size == t.spillsets[set].size) by {
        reveal(slots_sized);
    }
    let _ = a.spillsets[set];
    t.slots[n].size
}

/// A register takes as many words as the function asks for.
proof fn lemma_asked(c: Ctx, v: int, reg: VReg, size: u32)
    requires
        sized_by_class(c.f),
        found(c).g.vregs[v].reg == reg,
        set_sized(c.f, found(c).g.vregs, size, found(c).g.vregs[v].reg.class),
    ensures
        size == (c.f.slot_size)(reg.class, reg),
{
    reveal(set_sized);
    let vregs = found(c).g.vregs;
    let w = choose|w: int|
        0 <= w < vregs.len() && (#[trigger] vregs[w]).reg.class == reg.class && size == ((
        c.f.slot_size)(reg.class, vregs[w].reg) as usize) as u32;
    let s = vregs[w].reg;
    assert((c.f.slot_size)(s.class, s) == (c.f.slot_size)(reg.class, reg));
}

/// A register on the stack takes as many words as the function asks for it, from a multiple of that
/// number on, and they are in the stack frame.
pub proof fn law_slot_sized(c: Ctx, v: int, reg: VReg, p: int, slot: SpillSlot)
    requires
        succeeds(c),
        sized_by_class(c.f),
        goes_by(c, v, reg),
        sits(c, v, p, Allocation::Stack(slot)),
    ensures
        (c.f.slot_size)(reg.class, reg) > 0,
        0 <= first_word(c.f, reg, slot),
        first_word(c.f, reg, slot) % ((c.f.slot_size)(reg.class, reg) as int) == 0,
        end_word(c.f, reg, slot) <= allocated(c)->Ok_0.num_spillslots,
{
    lemma_goes_by(c, v, reg);
    let y = choose|y: int|
        0 <= y < found(c).g.in_vreg[v].len() && #[trigger] range_of(c, v, y).from.ix() <= p
            < range_of(c, v, y).to.ix() && range_alloc(found(c), found(c).g.in_vreg[v][y]) == Some(
            Allocation::Stack(slot),
        );
    let size = lemma_stack_words(c, v, y, slot);
    lemma_asked(c, v, reg, size);
}

proof fn lemma_words_apart(c: Ctx, v: int, y: int, w: int, z: int, p: int)
    requires
        succeeds(c),
        0 <= v < found(c).g.in_vreg.len(),
        0 <= y < found(c).g.in_vreg[v].len(),
        0 <= w < found(c).g.in_vreg.len(),
        0 <= z < found(c).g.in_vreg[w].len(),
        v != w,
        range_of(c, v, y).from.ix() <= p < range_of(c, v, y).to.ix(),
        range_of(c, w, z).from.ix() <= p < range_of(c, w, z).to.ix(),
        range_alloc(found(c), found(c).g.in_vreg[v][y]) matches Some(Allocation::Stack(_)),
        range_alloc(found(c), found(c).g.in_vreg[w][z]) matches Some(Allocation::Stack(_)),
    ensures
        ({
            let (a, b) = range_words(found(c), found(c).g.in_vreg[v][y]);
            let (d, e) = range_words(found(c), found(c).g.in_vreg[w][z]);
            b <= d || e <= a
        }),
{
    reveal(succeeds);
    let (u, a, t) = located(c)->Ok_0;
    let (r, q) = (a.g.in_vreg[v][y], a.g.in_vreg[w][z]);
    lemma_neq(a.g.in_vreg, a.g.ranges.len() as int, v, y, w, z);
    assert(in_some(a.g.in_bundle, a.g.in_vreg[v][y]));
    assert(in_some(a.g.in_bundle, a.g.in_vreg[w][z]));
    let (b, k) = choose|b: int, k: int|
        0 <= b < a.g.in_bundle.len() && 0 <= k < a.g.in_bundle[b].len()
            && #[trigger] a.g.in_bundle[b][k] == r;
    let (d, l) = choose|d: int, l: int|
        0 <= d < a.g.in_bundle.len() && 0 <= l < a.g.in_bundle[d].len()
            && #[trigger] a.g.in_bundle[d][l] == q;
    law_locations_apart(c, u, a, t, b as u32, k, d as u32, l);
}

/// Two registers that are on the stack at one place have no word in common.
pub proof fn law_slots_apart(
    c: Ctx,
    v: int,
    reg: VReg,
    w: int,
    other: VReg,
    p: int,
    slot: SpillSlot,
    next: SpillSlot,
)
    requires
        succeeds(c),
        sized_by_class(c.f),
        v != w,
        goes_by(c, v, reg),
        goes_by(c, w, other),
        sits(c, v, p, Allocation::Stack(slot)),
        sits(c, w, p, Allocation::Stack(next)),
    ensures
        end_word(c.f, reg, slot) <= first_word(c.f, other, next) || end_word(c.f, other, next)
            <= first_word(c.f, reg, slot),
{
    lemma_goes_by(c, v, reg);
    lemma_goes_by(c, w, other);
    let y = choose|y: int|
        0 <= y < found(c).g.in_vreg[v].len() && #[trigger] range_of(c, v, y).from.ix() <= p
            < range_of(c, v, y).to.ix() && range_alloc(found(c), found(c).g.in_vreg[v][y]) == Some(
            Allocation::Stack(slot),
        );
    let z = choose|z: int|
        0 <= z < found(c).g.in_vreg[w].len() && #[trigger] range_of(c, w, z).from.ix() <= p
            < range_of(c, w, z).to.ix() && range_alloc(found(c), found(c).g.in_vreg[w][z]) == Some(
            Allocation::Stack(next),
        );
    let size = lemma_stack_words(c, v, y, slot);
    lemma_asked(c, v, reg, size);
    let size = lemma_stack_words(c, w, z, next);
    lemma_asked(c, w, other, size);
    lemma_words_apart(c, v, y, w, z, p);
}

} // verus!
