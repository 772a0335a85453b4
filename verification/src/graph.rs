//! The tables of live ranges, uses, definitions, registers and bundles, and the lists between
//! them.
use crate::code_range::CodeRange;
use crate::data::{
    spill_weight_from_policy, Def, LiveBundle, LiveRange, Use, VRegData, FIXED_USES_MASK,
};
use crate::func::FuncModel;
use crate::index::{DefIndex, LiveBundleIndex, LiveRangeIndex, UseIndex, VRegIndex};
use crate::lists::{
    is_free, lemma_below, lemma_insert_ok, lemma_remove_ok, lists_ok, node_at, ListFamily, NIL,
};
use crate::liveness::takes_param;
use crate::reg::{OperandPolicy, ProgPoint, RegAllocError};
use vstd::prelude::*;

verus! {

/// The number of entries that a table can have.
pub const MAX_ENTRIES: u32 = 0xffff_fffe;

/// From this number of live ranges on, new live ranges are joined to those before them.
pub const COALESCE_LIMIT: usize = 100_000;

/// The tables. A live range is in the list of its register and in the list of its bundle; a use
/// is in the list of its live range.
pub struct LiveGraph {
    pub ranges: Vec<LiveRange>,
    pub uses: Vec<Use>,
    pub defs: Vec<Def>,
    pub vregs: Vec<VRegData>,
    pub bundles: Vec<LiveBundle>,
    pub in_vreg: ListFamily,
    pub in_bundle: ListFamily,
    pub in_range: ListFamily,
    pub func: Ghost<FuncModel>,
}

/// The mathematical value of a `LiveGraph`.
#[verifier::ext_equal]
pub struct GraphState {
    pub ranges: Seq<LiveRange>,
    pub uses: Seq<Use>,
    pub defs: Seq<Def>,
    pub vregs: Seq<VRegData>,
    pub bundles: Seq<LiveBundle>,
    /// For each register, its live ranges in program order.
    pub in_vreg: Seq<Seq<u32>>,
    /// For each bundle, its live ranges in program order.
    pub in_bundle: Seq<Seq<u32>>,
    /// For each live range, its uses in program order.
    pub in_range: Seq<Seq<u32>>,
}

/// The weight of a use.
pub open spec fn use_weight(uses: Seq<Use>, u: u32) -> int {
    spill_weight_from_policy(uses[u as int].operand.policy) as int
}

/// Does the use demand one given register?
pub open spec fn use_fixed(uses: Seq<Use>, u: u32) -> bool {
    uses[u as int].operand.policy is FixedReg
}

/// The weight of the uses in a list.
pub open spec fn uses_weight(uses: Seq<Use>, list: Seq<u32>) -> int
    decreases list.len(),
{
    if list.len() == 0 {
        0
    } else {
        uses_weight(uses, list.drop_last()) + use_weight(uses, list.last())
    }
}

/// The number of fixed-register uses in a list.
pub open spec fn fixed_count(uses: Seq<Use>, list: Seq<u32>) -> int
    decreases list.len(),
{
    if list.len() == 0 {
        0
    } else {
        fixed_count(uses, list.drop_last()) + if use_fixed(uses, list.last()) {
            1int
        } else {
            0int
        }
    }
}

pub proof fn lemma_uses_insert(uses: Seq<Use>, list: Seq<u32>, i: int, u: u32)
    requires
        0 <= i <= list.len(),
    ensures
        uses_weight(uses, list.insert(i, u)) == uses_weight(uses, list) + use_weight(uses, u),
        fixed_count(uses, list.insert(i, u)) == fixed_count(uses, list) + if use_fixed(uses, u) {
            1int
        } else {
            0int
        },
    decreases list.len(),
{
    let t = list.insert(i, u);
    if i == list.len() {
        assert(t.drop_last() =~= list);
    } else {
        assert(t.drop_last() =~= list.drop_last().insert(i, u));
        lemma_uses_insert(uses, list.drop_last(), i, u);
    }
}

pub proof fn lemma_uses_remove(uses: Seq<Use>, list: Seq<u32>, i: int)
    requires
        0 <= i < list.len(),
    ensures
        uses_weight(uses, list.remove(i)) == uses_weight(uses, list) - use_weight(uses, list[i]),
        fixed_count(uses, list.remove(i)) == fixed_count(uses, list) - if use_fixed(uses, list[i]) {
            1int
        } else {
            0int
        },
{
    lemma_uses_insert(uses, list.remove(i), i, list[i]);
    assert(list.remove(i).insert(i, list[i]) =~= list);
}

pub proof fn lemma_uses_nonneg(uses: Seq<Use>, list: Seq<u32>)
    ensures
        uses_weight(uses, list) >= 0,
        0 <= fixed_count(uses, list) <= list.len(),
    decreases list.len(),
{
    if list.len() > 0 {
        lemma_uses_nonneg(uses, list.drop_last());
    }
}

/// Weight and count depend on the uses in the list alone.
pub proof fn lemma_uses_frame(a: Seq<Use>, b: Seq<Use>, list: Seq<u32>)
    requires
        forall|i: int|
            0 <= i < list.len() ==> a[#[trigger] list[i] as int].operand.policy
                == b[list[i] as int].operand.policy,
    ensures
        uses_weight(a, list) == uses_weight(b, list),
        fixed_count(a, list) == fixed_count(b, list),
    decreases list.len(),
{
    if list.len() > 0 {
        assert(list[list.len() - 1] == list.last());
        assert forall|i: int| 0 <= i < list.drop_last().len() implies a[#[trigger] list.drop_last()[i] as int].operand.policy
            == b[list.drop_last()[i] as int].operand.policy by {
            assert(list.drop_last()[i] == list[i]);
        }
        lemma_uses_frame(a, b, list.drop_last());
    }
}

/// The point is at an instruction of the function and the slot is one of its operands.
pub open spec fn mention_ok(f: FuncModel, pos: ProgPoint, slot: usize) -> bool {
    pos.inst.0 < f.insts && slot < f.operands[pos.inst.ix()].len()
}

/// A live range lies in the function and refers to entries that exist.
pub open spec fn range_ok(f: FuncModel, g: GraphState, r: int) -> bool {
    let lr = g.ranges[r];
    &&& lr.range.within(f.insts)
    &&& lr.vreg.is_valid() ==> lr.vreg.0 < g.vregs.len()
    &&& lr.bundle.is_valid() ==> lr.bundle.0 < g.bundles.len()
    &&& lr.def.is_valid() ==> lr.def.0 < g.defs.len() && lr.vreg.is_valid()
        && g.vregs[lr.vreg.ix()].def.is_valid()
}

/// The weight and the count kept of a live range fit its uses.
pub open spec fn stats_ok(g: GraphState, r: int) -> bool {
    &&& g.ranges[r].uses_spill_weight == uses_weight(g.uses, g.in_range[r])
    &&& fixed_count(g.uses, g.in_range[r]) <= g.ranges[r].fixed_uses()
}

/// A register refers to a definition of it, and to a block that takes it as a parameter.
pub open spec fn vreg_ok(f: FuncModel, g: GraphState, v: int) -> bool {
    &&& g.vregs[v].def.is_valid() ==> g.vregs[v].def.0 < g.defs.len()
        && g.defs[g.vregs[v].def.ix()].operand.vreg.vreg == v
    &&& g.vregs[v].blockparam.is_valid() ==> g.vregs[v].blockparam.0 < f.blocks && takes_param(
        f,
        g.vregs[v].blockparam,
        v as u32,
    )
}

/// The tables fit together, whatever the lists of the bundles hold.
pub open spec fn core_ok(f: FuncModel, g: GraphState) -> bool {
    &&& f.insts <= crate::reg::MAX_INSTS
    &&& g.vregs.len() == f.num_vregs
    &&& f.num_vregs < u32::MAX
    &&& g.in_vreg.len() == g.vregs.len()
    &&& g.in_bundle.len() == g.bundles.len()
    &&& g.in_range.len() == g.ranges.len()
    &&& g.ranges.len() <= MAX_ENTRIES
    &&& g.bundles.len() <= MAX_ENTRIES
    &&& g.uses.len() <= MAX_ENTRIES
    &&& g.defs.len() <= MAX_ENTRIES
    &&& lists_ok(g.in_vreg, g.ranges.len() as int)
    &&& lists_ok(g.in_bundle, g.ranges.len() as int)
    &&& lists_ok(g.in_range, g.uses.len() as int)
    &&& forall|r: int| 0 <= r < g.ranges.len() ==> #[trigger] range_ok(f, g, r)
    &&& forall|r: int| 0 <= r < g.ranges.len() ==> #[trigger] stats_ok(g, r)
    &&& forall|u: int| 0 <= u < g.uses.len() ==> mention_ok(f, (#[trigger] g.uses[u]).pos, g.uses[u].slot)
    &&& forall|d: int| 0 <= d < g.defs.len() ==> mention_ok(f, (#[trigger] g.defs[d]).pos, g.defs[d].slot)
    &&& forall|v: int| 0 <= v < g.vregs.len() ==> #[trigger] vreg_ok(f, g, v)
    &&& forall|v: int, i: int|
        0 <= v < g.in_vreg.len() && 0 <= i < g.in_vreg[v].len() ==> g.ranges[(
        #[trigger] g.in_vreg[v][i]) as int].vreg.0 == v
}

/// The live ranges in the list of a bundle belong to it and to a register.
pub open spec fn members_ok(g: GraphState) -> bool {
    forall|b: int, i: int|
        0 <= b < g.in_bundle.len() && 0 <= i < g.in_bundle[b].len() ==> {
            &&& g.ranges[(#[trigger] g.in_bundle[b][i]) as int].bundle.0 == b
            &&& g.ranges[g.in_bundle[b][i] as int].vreg.is_valid()
        }
}

/// The tables fit together.
pub open spec fn graph_ok(f: FuncModel, g: GraphState) -> bool {
    core_ok(f, g) && members_ok(g)
}

impl LiveGraph {
    /// The mathematical value.
    pub open spec fn view(&self) -> GraphState {
        GraphState {
            ranges: self.ranges@,
            uses: self.uses@,
            defs: self.defs@,
            vregs: self.vregs@,
            bundles: self.bundles@,
            in_vreg: self.in_vreg@,
            in_bundle: self.in_bundle@,
            in_range: self.in_range@,
        }
    }

    /// The lists are linked, over as many nodes as the tables have entries.
    pub open spec fn linked(&self) -> bool {
        &&& self.in_vreg.wf()
        &&& self.in_bundle.wf()
        &&& self.in_range.wf()
        &&& self.in_vreg.nodes() == self.ranges@.len()
        &&& self.in_bundle.nodes() == self.ranges@.len()
        &&& self.in_range.nodes() == self.uses@.len()
    }

    /// The tables fit together.
    pub open spec fn wf(&self) -> bool {
        self.linked() && graph_ok(self.func@, self@)
    }
}

/// A live range that nothing refers to yet.
pub open spec fn fresh_range(range: CodeRange) -> LiveRange {
    LiveRange {
        range,
        vreg: VRegIndex(u32::MAX),
        bundle: LiveBundleIndex(u32::MAX),
        uses_spill_weight: 0,
        num_fixed_uses_and_flags: 0,
        def: DefIndex(u32::MAX),
    }
}

/// The tables with one more live range.
pub open spec fn graph_add_range(g: GraphState, lr: LiveRange) -> GraphState {
    GraphState { ranges: g.ranges.push(lr), in_range: g.in_range.push(Seq::empty()), ..g }
}

/// The tables with another entry for live range `r`.
pub open spec fn graph_set_range(g: GraphState, r: u32, lr: LiveRange) -> GraphState {
    GraphState { ranges: g.ranges.update(r as int, lr), ..g }
}

pub proof fn lemma_add_range_ok(f: FuncModel, g: GraphState, lr: LiveRange)
    requires
        graph_ok(f, g),
        g.ranges.len() < MAX_ENTRIES,
        lr.range.within(f.insts),
        lr.vreg.is_valid() ==> lr.vreg.0 < g.vregs.len(),
        lr.bundle.is_valid() ==> lr.bundle.0 < g.bundles.len(),
        !lr.def.is_valid(),
        lr.uses_spill_weight == 0,
    ensures
        graph_ok(f, graph_add_range(g, lr)),
{
    let h = graph_add_range(g, lr);
    let n = g.ranges.len() as int;
    assert(lists_ok(h.in_vreg, h.ranges.len() as int) && lists_ok(h.in_bundle, h.ranges.len() as int)
        && lists_ok(h.in_range, h.uses.len() as int)) by {
        reveal(lists_ok);
    }
    assert forall|r: int| 0 <= r < h.ranges.len() implies #[trigger] range_ok(f, h, r) by {
        if r < n {
            assert(range_ok(f, g, r));
        }
    }
    assert forall|r: int| 0 <= r < h.ranges.len() implies #[trigger] stats_ok(h, r) by {
        if r < n {
            assert(stats_ok(g, r));
        }
    }
    assert forall|v: int| 0 <= v < h.vregs.len() implies #[trigger] vreg_ok(f, h, v) by {
        assert(vreg_ok(f, g, v));
    }
    assert forall|v: int, i: int|
        0 <= v < h.in_vreg.len() && 0 <= i < h.in_vreg[v].len() implies h.ranges[(
    #[trigger] h.in_vreg[v][i]) as int].vreg.0 == v by {
        lemma_below(g.in_vreg, n, v, i);
    }
    assert forall|b: int, i: int|
        0 <= b < h.in_bundle.len() && 0 <= i < h.in_bundle[b].len() implies {
        &&& h.ranges[(#[trigger] h.in_bundle[b][i]) as int].bundle.0 == b
        &&& h.ranges[h.in_bundle[b][i] as int].vreg.is_valid()
    } by {
        lemma_below(g.in_bundle, n, b, i);
    }
}

/// An entry may be replaced by one with the same register, bundle, weight and count.
pub proof fn lemma_set_range_ok(f: FuncModel, g: GraphState, r: u32, lr: LiveRange)
    requires
        graph_ok(f, g),
        r < g.ranges.len(),
        lr.range.within(f.insts),
        lr.vreg == g.ranges[r as int].vreg,
        lr.bundle == g.ranges[r as int].bundle,
        lr.uses_spill_weight == g.ranges[r as int].uses_spill_weight,
        lr.num_fixed_uses_and_flags == g.ranges[r as int].num_fixed_uses_and_flags,
        lr.def.is_valid() ==> lr.def.0 < g.defs.len() && lr.vreg.is_valid()
            && g.vregs[lr.vreg.ix()].def.is_valid(),
    ensures
        graph_ok(f, graph_set_range(g, r, lr)),
{
    let h = graph_set_range(g, r, lr);
    assert(range_ok(f, g, r as int));
    assert forall|k: int| 0 <= k < h.ranges.len() implies #[trigger] range_ok(f, h, k) by {
        assert(range_ok(f, g, k));
    }
    assert forall|k: int| 0 <= k < h.ranges.len() implies #[trigger] stats_ok(h, k) by {
        assert(stats_ok(g, k));
    }
    assert forall|v: int| 0 <= v < h.vregs.len() implies #[trigger] vreg_ok(f, h, v) by {
        assert(vreg_ok(f, g, v));
    }
    assert forall|v: int, i: int|
        0 <= v < h.in_vreg.len() && 0 <= i < h.in_vreg[v].len() implies h.ranges[(
    #[trigger] h.in_vreg[v][i]) as int].vreg.0 == v by {
        lemma_below(g.in_vreg, g.ranges.len() as int, v, i);
    }
    assert forall|b: int, i: int|
        0 <= b < h.in_bundle.len() && 0 <= i < h.in_bundle[b].len() implies {
        &&& h.ranges[(#[trigger] h.in_bundle[b][i]) as int].bundle.0 == b
        &&& h.ranges[h.in_bundle[b][i] as int].vreg.is_valid()
    } by {
        lemma_below(g.in_bundle, g.ranges.len() as int, b, i);
    }
}

impl LiveGraph {
    /// Add a live range that nothing refers to yet.
    pub fn create_liverange(&mut self, range: CodeRange) -> (r: Result<
        LiveRangeIndex,
        RegAllocError,
    >)
        requires
            old(self).wf(),
            range.within(old(self).func@.insts),
        ensures
            final(self).func == old(self).func,
            final(self).wf(),
            match r {
                Ok(lr) => {
                    &&& old(self)@.ranges.len() < MAX_ENTRIES
                    &&& lr.0 == old(self)@.ranges.len()
                    &&& final(self)@ == graph_add_range(old(self)@, fresh_range(range))
                    &&& is_free(final(self)@.in_vreg, lr.0)
                    &&& is_free(final(self)@.in_bundle, lr.0)
                },
                Err(e) => {
                    &&& old(self)@.ranges.len() >= MAX_ENTRIES
                    &&& e == RegAllocError::TooLarge
                    &&& final(self)@ == old(self)@
                },
            },
    {
        let idx = self.ranges.len();
        if idx >= MAX_ENTRIES as usize {
            return Err(RegAllocError::TooLarge);
        }
        proof {
            lemma_add_range_ok(self.func@, self@, fresh_range(range));
        }
        self.ranges.push(
            LiveRange {
                range,
                vreg: VRegIndex::invalid(),
                bundle: LiveBundleIndex::invalid(),
                uses_spill_weight: 0,
                num_fixed_uses_and_flags: 0,
                def: DefIndex::invalid(),
            },
        );
        self.in_vreg.add_node();
        self.in_bundle.add_node();
        self.in_range.add_list();
        Ok(LiveRangeIndex::new(idx))
    }
}

/// The first position from `i` on whose use comes after `pos`.
pub open spec fn first_use_after(uses: Seq<Use>, list: Seq<u32>, pos: ProgPoint, i: int) -> int
    decreases list.len() - i,
{
    if i >= list.len() || i < 0 || uses[list[i] as int].pos.ix() > pos.ix() {
        i
    } else {
        first_use_after(uses, list, pos, i + 1)
    }
}

/// Where a use at `pos` is put into a list: after all uses if it comes after the last one, and
/// before the first one that comes after it otherwise.
pub open spec fn use_position(uses: Seq<Use>, list: Seq<u32>, pos: ProgPoint) -> int {
    if list.len() == 0 || pos.ix() > uses[list.last() as int].pos.ix() {
        list.len() as int
    } else {
        first_use_after(uses, list, pos, 0)
    }
}

pub proof fn lemma_first_use_after(uses: Seq<Use>, list: Seq<u32>, pos: ProgPoint, i: int)
    requires
        0 <= i <= list.len(),
    ensures
        i <= first_use_after(uses, list, pos, i) <= list.len(),
    decreases list.len() - i,
{
    if i < list.len() {
        lemma_first_use_after(uses, list, pos, i + 1);
    }
}

/// The tables after use `u` was put into the list of live range `into`.
pub open spec fn graph_insert_use(g: GraphState, into: u32, u: u32) -> Result<
    GraphState,
    RegAllocError,
> {
    let lr = g.ranges[into as int];
    let list = g.in_range[into as int];
    let w = use_weight(g.uses, u);
    let fixed = use_fixed(g.uses, u);
    if lr.uses_spill_weight + w > u32::MAX || (fixed && lr.fixed_uses() >= FIXED_USES_MASK) {
        Err(RegAllocError::TooLarge)
    } else {
        let p = use_position(g.uses, list, g.uses[u as int].pos);
        Ok(
            GraphState {
                ranges: g.ranges.update(
                    into as int,
                    LiveRange {
                        uses_spill_weight: (lr.uses_spill_weight + w) as u32,
                        num_fixed_uses_and_flags: if fixed {
                            (lr.num_fixed_uses_and_flags + 1) as u32
                        } else {
                            lr.num_fixed_uses_and_flags
                        },
                        ..lr
                    },
                ),
                in_range: g.in_range.update(into as int, list.insert(p, u)),
                ..g
            },
        )
    }
}

/// The tables after the use at position `j` of live range `from` was taken out of its list.
pub open spec fn graph_remove_use(g: GraphState, from: u32, j: int) -> GraphState {
    let lr = g.ranges[from as int];
    let list = g.in_range[from as int];
    let u = list[j];
    GraphState {
        ranges: g.ranges.update(
            from as int,
            LiveRange {
                uses_spill_weight: (lr.uses_spill_weight - use_weight(g.uses, u)) as u32,
                num_fixed_uses_and_flags: if use_fixed(g.uses, u) {
                    (lr.num_fixed_uses_and_flags - 1) as u32
                } else {
                    lr.num_fixed_uses_and_flags
                },
                ..lr
            },
        ),
        in_range: g.in_range.update(from as int, list.remove(j)),
        ..g
    }
}

pub proof fn lemma_fixed_inc(x: u32)
    requires
        x & FIXED_USES_MASK < FIXED_USES_MASK,
    ensures
        x < u32::MAX,
        ((x + 1) as u32) & FIXED_USES_MASK == (x & FIXED_USES_MASK) + 1,
{
    assert(x < 0xffff_ffff) by (bit_vector)
        requires
            x & 0xff_ffff < 0xff_ffff,
    ;
    let y: u32 = (x + 1) as u32;
    assert(y & 0xff_ffff == (x & 0xff_ffff) + 1) by (bit_vector)
        requires
            x & 0xff_ffff < 0xff_ffff,
            y == x + 1,
    ;
}

pub proof fn lemma_fixed_dec(x: u32)
    requires
        x & FIXED_USES_MASK > 0,
    ensures
        x > 0,
        ((x - 1) as u32) & FIXED_USES_MASK == (x & FIXED_USES_MASK) - 1,
{
    assert(x > 0) by (bit_vector)
        requires
            x & 0xff_ffff > 0,
    ;
    let y: u32 = (x - 1) as u32;
    assert(y & 0xff_ffff == (x & 0xff_ffff) - 1) by (bit_vector)
        requires
            x & 0xff_ffff > 0,
            y == x - 1,
    ;
}

/// What is kept of a live range and its uses may change as long as the two fit.
proof fn lemma_use_change_ok(f: FuncModel, g: GraphState, h: GraphState, r: u32)
    requires
        graph_ok(f, g),
        r < g.ranges.len(),
        h == (GraphState { ranges: h.ranges, in_range: h.in_range, ..g }),
        h.in_range.len() == g.in_range.len(),
        lists_ok(h.in_range, h.uses.len() as int),
        forall|k: int| 0 <= k < g.in_range.len() && k != r ==> #[trigger] h.in_range[k] == g.in_range[k],
        h.ranges == g.ranges.update(r as int, h.ranges[r as int]),
        h.ranges[r as int] == (LiveRange {
            uses_spill_weight: h.ranges[r as int].uses_spill_weight,
            num_fixed_uses_and_flags: h.ranges[r as int].num_fixed_uses_and_flags,
            ..g.ranges[r as int]
        }),
        stats_ok(h, r as int),
    ensures
        graph_ok(f, h),
{
    assert forall|k: int| 0 <= k < h.ranges.len() implies #[trigger] range_ok(f, h, k) by {
        assert(range_ok(f, g, k));
    }
    assert forall|k: int| 0 <= k < h.ranges.len() implies #[trigger] stats_ok(h, k) by {
        assert(stats_ok(g, k));
    }
    assert forall|v: int| 0 <= v < h.vregs.len() implies #[trigger] vreg_ok(f, h, v) by {
        assert(vreg_ok(f, g, v));
    }
    assert forall|v: int, i: int|
        0 <= v < h.in_vreg.len() && 0 <= i < h.in_vreg[v].len() implies h.ranges[(
    #[trigger] h.in_vreg[v][i]) as int].vreg.0 == v by {
        lemma_below(g.in_vreg, g.ranges.len() as int, v, i);
    }
    assert forall|b: int, i: int|
        0 <= b < h.in_bundle.len() && 0 <= i < h.in_bundle[b].len() implies {
        &&& h.ranges[(#[trigger] h.in_bundle[b][i]) as int].bundle.0 == b
        &&& h.ranges[h.in_bundle[b][i] as int].vreg.is_valid()
    } by {
        lemma_below(g.in_bundle, g.ranges.len() as int, b, i);
    }
}

pub proof fn lemma_insert_use_ok(f: FuncModel, g: GraphState, into: u32, u: u32)
    requires
        graph_ok(f, g),
        into < g.ranges.len(),
        u < g.uses.len(),
        is_free(g.in_range, u),
        graph_insert_use(g, into, u) is Ok,
    ensures
        graph_ok(f, graph_insert_use(g, into, u)->Ok_0),
{
    let h = graph_insert_use(g, into, u)->Ok_0;
    let lr = g.ranges[into as int];
    let list = g.in_range[into as int];
    let pos = g.uses[u as int].pos;
    let p = use_position(g.uses, list, pos);
    lemma_first_use_after(g.uses, list, pos, 0);
    lemma_uses_insert(g.uses, list, p, u);
    assert(stats_ok(g, into as int));
    if use_fixed(g.uses, u) {
        lemma_fixed_inc(lr.num_fixed_uses_and_flags);
    }
    lemma_insert_ok(g.in_range, g.uses.len() as int, into as int, p, u);
    lemma_use_change_ok(f, g, h, into);
}

pub proof fn lemma_remove_use_ok(f: FuncModel, g: GraphState, from: u32, j: int)
    requires
        graph_ok(f, g),
        from < g.ranges.len(),
        0 <= j < g.in_range[from as int].len(),
    ensures
        graph_ok(f, graph_remove_use(g, from, j)),
        g.ranges[from as int].uses_spill_weight >= use_weight(g.uses, g.in_range[from as int][j]),
        use_fixed(g.uses, g.in_range[from as int][j]) ==> g.ranges[from as int].fixed_uses() > 0,
        is_free(graph_remove_use(g, from, j).in_range, g.in_range[from as int][j]),
{
    let h = graph_remove_use(g, from, j);
    let lr = g.ranges[from as int];
    let list = g.in_range[from as int];
    lemma_uses_remove(g.uses, list, j);
    lemma_uses_nonneg(g.uses, list.remove(j));
    assert(stats_ok(g, from as int));
    if use_fixed(g.uses, list[j]) {
        lemma_fixed_dec(lr.num_fixed_uses_and_flags);
    }
    lemma_remove_ok(g.in_range, g.uses.len() as int, from as int, j);
    lemma_use_change_ok(f, g, h, from);
}

impl LiveGraph {
    /// Put a use into the list of a live range and count it there.
    pub fn insert_use_into_liverange_and_update_stats(
        &mut self,
        into: LiveRangeIndex,
        u: UseIndex,
    ) -> (r: Result<(), RegAllocError>)
        requires
            old(self).wf(),
            into.0 < old(self)@.ranges.len(),
            u.0 < old(self)@.uses.len(),
            is_free(old(self)@.in_range, u.0),
        ensures
            final(self).func == old(self).func,
            match graph_insert_use(old(self)@, into.0, u.0) {
                Ok(g) => r is Ok && final(self)@ == g && final(self).wf(),
                Err(e) => r == Err::<(), RegAllocError>(e) && e is TooLarge,
            },
    {
        let ghost g = self@;
        let insert_pos = self.uses[u.index()].pos;
        let policy = self.uses[u.index()].operand.policy();
        let weight = spill_weight_from_policy(policy);
        let lr = self.ranges[into.index()];
        let fixed = matches!(policy, OperandPolicy::FixedReg(_));
        if lr.uses_spill_weight > u32::MAX - weight || (fixed && lr.num_fixed_uses()
            >= FIXED_USES_MASK) {
            return Err(RegAllocError::TooLarge);
        }
        let ghost list = g.in_range[into.ix()];
        let last = self.in_range.last(into.index());
        let ghost mut p: int = 0;
        let mut prev: u32 = NIL;
        if last != NIL && insert_pos > self.uses[last as usize].pos {
            prev = last;
            proof {
                p = list.len() as int;
            }
        } else {
            let mut iter = self.in_range.first(into.index());
            while iter != NIL && !(self.uses[iter as usize].pos > insert_pos)
                invariant
                    self.linked(),
                    self@ == g,
                    into.0 < g.in_range.len(),
                    list == g.in_range[into.ix()],
                    0 <= p <= list.len(),
                    prev == node_at(list, p - 1),
                    iter == node_at(list, p),
                    iter == NIL <==> p == list.len(),
                    iter != NIL ==> iter < g.uses.len(),
                    first_use_after(g.uses, list, insert_pos, 0) == first_use_after(
                        g.uses,
                        list,
                        insert_pos,
                        p,
                    ),
                decreases list.len() - p,
            {
                prev = iter;
                iter = self.in_range.next(iter, Ghost(into.ix()), Ghost(p));
                proof {
                    p = p + 1;
                }
            }
        }
        proof {
            assert(p == use_position(g.uses, list, insert_pos));
            lemma_insert_use_ok(self.func@, g, into.0, u.0);
            if fixed {
                lemma_fixed_inc(lr.num_fixed_uses_and_flags);
            }
        }
        self.in_range.insert_after(into.index(), prev, u.0, Ghost(p));
        if fixed {
            self.ranges[into.index()].inc_num_fixed_uses();
        }
        self.ranges[into.index()].uses_spill_weight = lr.uses_spill_weight + weight;
        assert(self@.ranges =~= graph_insert_use(g, into.0, u.0)->Ok_0.ranges);
        Ok(())
    }

    /// Count one use less for a live range.
    pub fn update_liverange_stats_on_remove_use(&mut self, from: LiveRangeIndex, u: UseIndex)
        requires
            from.0 < old(self)@.ranges.len(),
            u.0 < old(self)@.uses.len(),
            old(self)@.ranges[from.ix()].uses_spill_weight >= use_weight(old(self)@.uses, u.0),
            use_fixed(old(self)@.uses, u.0) ==> old(self)@.ranges[from.ix()].fixed_uses() > 0,
            old(self)@.ranges.len() <= MAX_ENTRIES,
            old(self)@.uses.len() <= MAX_ENTRIES,
        ensures
            *final(self) == (LiveGraph { ranges: final(self).ranges, ..*old(self) }),
            final(self)@.ranges == old(self)@.ranges.update(
                from.ix(),
                (LiveRange {
                    uses_spill_weight: (old(self)@.ranges[from.ix()].uses_spill_weight - use_weight(
                        old(self)@.uses,
                        u.0,
                    )) as u32,
                    num_fixed_uses_and_flags: if use_fixed(old(self)@.uses, u.0) {
                        (old(self)@.ranges[from.ix()].num_fixed_uses_and_flags - 1) as u32
                    } else {
                        old(self)@.ranges[from.ix()].num_fixed_uses_and_flags
                    },
                    ..old(self)@.ranges[from.ix()]
                }),
            ),
    {
        let policy = self.uses[u.index()].operand.policy();
        let weight = spill_weight_from_policy(policy);
        if matches!(policy, OperandPolicy::FixedReg(_)) {
            self.ranges[from.index()].dec_num_fixed_uses();
        }
        let old_weight = self.ranges[from.index()].uses_spill_weight;
        self.ranges[from.index()].uses_spill_weight = old_weight - weight;
    }
}

/// The tables with one more use, which is in no list yet.
pub open spec fn graph_add_use(g: GraphState, u: Use) -> GraphState {
    GraphState { uses: g.uses.push(u), ..g }
}

/// The tables with one more definition.
pub open spec fn graph_add_def(g: GraphState, d: Def) -> GraphState {
    GraphState { defs: g.defs.push(d), ..g }
}

/// The tables with another entry for register `v`.
pub open spec fn graph_set_vreg(g: GraphState, v: int, data: VRegData) -> GraphState {
    GraphState { vregs: g.vregs.update(v, data), ..g }
}

pub proof fn lemma_add_use_ok(f: FuncModel, g: GraphState, u: Use)
    requires
        graph_ok(f, g),
        g.uses.len() < MAX_ENTRIES,
        mention_ok(f, u.pos, u.slot),
    ensures
        graph_ok(f, graph_add_use(g, u)),
        is_free(g.in_range, g.uses.len() as u32),
{
    let h = graph_add_use(g, u);
    let n = g.uses.len() as int;
    assert(lists_ok(h.in_range, h.uses.len() as int) && is_free(g.in_range, n as u32)) by {
        reveal(lists_ok);
    }
    assert forall|r: int| 0 <= r < h.ranges.len() implies #[trigger] range_ok(f, h, r) by {
        assert(range_ok(f, g, r));
    }
    assert forall|r: int| 0 <= r < h.ranges.len() implies #[trigger] stats_ok(h, r) by {
        assert(stats_ok(g, r));
        assert forall|i: int| 0 <= i < g.in_range[r].len() implies g.uses[#[trigger] g.in_range[r][i] as int].operand.policy
            == h.uses[g.in_range[r][i] as int].operand.policy by {
            lemma_below(g.in_range, n, r, i);
        }
        lemma_uses_frame(g.uses, h.uses, g.in_range[r]);
    }
    assert forall|v: int| 0 <= v < h.vregs.len() implies #[trigger] vreg_ok(f, h, v) by {
        assert(vreg_ok(f, g, v));
    }
}

pub proof fn lemma_add_def_ok(f: FuncModel, g: GraphState, d: Def)
    requires
        graph_ok(f, g),
        g.defs.len() < MAX_ENTRIES,
        mention_ok(f, d.pos, d.slot),
    ensures
        graph_ok(f, graph_add_def(g, d)),
{
    let h = graph_add_def(g, d);
    assert forall|r: int| 0 <= r < h.ranges.len() implies #[trigger] range_ok(f, h, r) by {
        assert(range_ok(f, g, r));
    }
    assert forall|r: int| 0 <= r < h.ranges.len() implies #[trigger] stats_ok(h, r) by {
        assert(stats_ok(g, r));
    }
    assert forall|v: int| 0 <= v < h.vregs.len() implies #[trigger] vreg_ok(f, h, v) by {
        assert(vreg_ok(f, g, v));
    }
}

pub proof fn lemma_set_vreg_ok(f: FuncModel, g: GraphState, v: int, data: VRegData)
    requires
        graph_ok(f, g),
        0 <= v < g.vregs.len(),
        data.def.is_valid() ==> data.def.0 < g.defs.len() && g.defs[data.def.ix()].operand.vreg.vreg
            == v,
        g.vregs[v].def.is_valid() ==> data.def.is_valid(),
        data.blockparam.is_valid() ==> data.blockparam.0 < f.blocks && takes_param(
            f,
            data.blockparam,
            v as u32,
        ),
    ensures
        graph_ok(f, graph_set_vreg(g, v, data)),
{
    let h = graph_set_vreg(g, v, data);
    assert forall|r: int| 0 <= r < h.ranges.len() implies #[trigger] range_ok(f, h, r) by {
        assert(range_ok(f, g, r));
    }
    assert forall|r: int| 0 <= r < h.ranges.len() implies #[trigger] stats_ok(h, r) by {
        assert(stats_ok(g, r));
    }
    assert forall|k: int| 0 <= k < h.vregs.len() implies #[trigger] vreg_ok(f, h, k) by {
        assert(vreg_ok(f, g, k));
    }
}

impl LiveGraph {
    /// Add a use, in no list yet.
    pub fn add_use(&mut self, u: Use) -> (r: UseIndex)
        requires
            old(self).wf(),
            old(self)@.uses.len() < MAX_ENTRIES,
            mention_ok(old(self).func@, u.pos, u.slot),
        ensures
            final(self).wf(),
            final(self).func == old(self).func,
            final(self)@ == graph_add_use(old(self)@, u),
            r.0 == old(self)@.uses.len(),
            is_free(final(self)@.in_range, r.0),
    {
        proof {
            lemma_add_use_ok(self.func@, self@, u);
        }
        let idx = self.uses.len();
        self.uses.push(u);
        self.in_range.add_node();
        UseIndex::new(idx)
    }

    /// Add a definition.
    pub fn add_def(&mut self, d: Def) -> (r: DefIndex)
        requires
            old(self).wf(),
            old(self)@.defs.len() < MAX_ENTRIES,
            mention_ok(old(self).func@, d.pos, d.slot),
        ensures
            final(self).wf(),
            final(self).func == old(self).func,
            final(self)@ == graph_add_def(old(self)@, d),
            r.0 == old(self)@.defs.len(),
    {
        proof {
            lemma_add_def_ok(self.func@, self@, d);
        }
        let idx = self.defs.len();
        self.defs.push(d);
        DefIndex::new(idx)
    }

    /// Replace the entry of a register.
    pub fn set_vreg(&mut self, v: VRegIndex, data: VRegData)
        requires
            old(self).wf(),
            v.0 < old(self)@.vregs.len(),
            data.def.is_valid() ==> data.def.0 < old(self)@.defs.len()
                && old(self)@.defs[data.def.ix()].operand.vreg.vreg == v.0,
            old(self)@.vregs[v.ix()].def.is_valid() ==> data.def.is_valid(),
            data.blockparam.is_valid() ==> data.blockparam.0 < old(self).func@.blocks && takes_param(
                old(self).func@,
                data.blockparam,
                v.0,
            ),
        ensures
            final(self).wf(),
            final(self).func == old(self).func,
            final(self)@ == graph_set_vreg(old(self)@, v.ix(), data),
    {
        proof {
            lemma_set_vreg_ok(self.func@, self@, v.ix(), data);
        }
        self.vregs.set(v.index(), data);
    }
}

} // verus!
