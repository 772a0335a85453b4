//! What is computed of a bundle: its priority, its spill weight, its properties and what it
//! demands of its location.
use crate::data::{
    pack_props, spill_weight_from_policy, LiveBundle, LiveRange, Use, SPILL_WEIGHT_MASK,
};
use crate::func::FuncModel;
use crate::graph::{graph_ok, range_ok, stats_ok, use_fixed, vreg_ok, GraphState, LiveGraph};
use crate::index::LiveBundleIndex;
use crate::lists::{lemma_below, node_at, NIL};
use crate::reg::{OperandPolicy, RegAllocError};
use crate::requirement::Requirement;
use vstd::prelude::*;

verus! {

/// The number of instructions between the ends of a live range.
pub open spec fn range_len(lr: LiveRange) -> int {
    lr.range.to.inst.0 - lr.range.from.inst.0
}

/// The length of the first `n` live ranges of a list.
pub open spec fn list_len(ranges: Seq<LiveRange>, list: Seq<u32>, n: int) -> int
    decreases n,
{
    if n <= 0 {
        0
    } else {
        list_len(ranges, list, n - 1) + range_len(ranges[list[n - 1] as int])
    }
}

/// The priority of bundle `b`: the length of its live ranges.
pub open spec fn graph_prio(g: GraphState, b: u32) -> Result<u32, RegAllocError> {
    let list = g.in_bundle[b as int];
    let total = list_len(g.ranges, list, list.len() as int);
    if total > u32::MAX {
        Err(RegAllocError::TooLarge)
    } else {
        Ok(total as u32)
    }
}

/// The weight of a live range: that of its uses, and that of its definition if it has one.
pub open spec fn range_weight(lr: LiveRange) -> int {
    lr.uses_spill_weight + if lr.def.is_valid() {
        2000int
    } else {
        0int
    }
}

/// The weight of the first `n` live ranges of a list.
pub open spec fn list_weight(ranges: Seq<LiveRange>, list: Seq<u32>, n: int) -> int
    decreases n,
{
    if n <= 0 {
        0
    } else {
        list_weight(ranges, list, n - 1) + range_weight(ranges[list[n - 1] as int])
    }
}

/// Does one of the uses demand one given register?
pub open spec fn any_fixed(uses: Seq<Use>, list: Seq<u32>) -> bool {
    exists|j: int| 0 <= j < list.len() && use_fixed(uses, #[trigger] list[j])
}

/// Has live range `r` a mention that demands one given register?
pub open spec fn range_fixed(g: GraphState, r: u32) -> bool {
    let lr = g.ranges[r as int];
    ||| lr.def.is_valid() && g.defs[lr.def.ix()].operand.policy is FixedReg
    ||| any_fixed(g.uses, g.in_range[r as int])
}

/// Is the bundle one live range in one instruction?
pub open spec fn bundle_minimal(g: GraphState, b: u32) -> bool {
    let list = g.in_bundle[b as int];
    let range = g.ranges[list[0] as int].range;
    list.len() == 1 && range.from.inst == range.to.pred().inst
}

/// The spill weight of bundle `b`: a bundle that cannot be split weighs more than any other, and
/// one that needs one given register still more. Any other has the weight of its mentions, by
/// its priority.
pub open spec fn bundle_weight(g: GraphState, b: u32, minimal: bool, fixed: bool) -> int {
    let list = g.in_bundle[b as int];
    if minimal {
        if fixed {
            2_000_000
        } else {
            1_000_000
        }
    } else {
        let total = list_weight(g.ranges, list, list.len() as int);
        if total <= u32::MAX && g.bundles[b as int].prio > 0 {
            total / g.bundles[b as int].prio as int
        } else {
            total
        }
    }
}

/// Spill weight and properties of bundle `b`.
pub open spec fn graph_props(g: GraphState, b: u32) -> Result<u32, RegAllocError> {
    let r = g.in_bundle[b as int][0];
    let none = g.ranges[r as int].vreg.is_invalid();
    let minimal = none || bundle_minimal(g, b);
    let fixed = none || range_fixed(g, r);
    let w = bundle_weight(g, b, minimal, fixed);
    if w >= SPILL_WEIGHT_MASK {
        Err(RegAllocError::TooLarge)
    } else {
        Ok(pack_props(w as u32, minimal, fixed))
    }
}

/// The tables with another entry for bundle `b`.
pub open spec fn graph_set_bundle(g: GraphState, b: u32, data: LiveBundle) -> GraphState {
    GraphState { bundles: g.bundles.update(b as int, data), ..g }
}

/// Priority, spill weight and properties of bundle `b` are computed and noted.
pub open spec fn graph_refresh(g: GraphState, b: u32) -> Result<GraphState, RegAllocError> {
    match graph_prio(g, b) {
        Ok(prio) => {
            let h = graph_set_bundle(g, b, LiveBundle { prio, ..g.bundles[b as int] });
            match graph_props(h, b) {
                Ok(props) => Ok(
                    graph_set_bundle(
                        h,
                        b,
                        LiveBundle { spill_weight_and_props: props, ..h.bundles[b as int] },
                    ),
                ),
                Err(e) => Err(e),
            }
        },
        Err(e) => Err(e),
    }
}

pub proof fn lemma_set_bundle_ok(f: FuncModel, g: GraphState, b: u32, data: LiveBundle)
    requires
        graph_ok(f, g),
        b < g.bundles.len(),
    ensures
        graph_ok(f, graph_set_bundle(g, b, data)),
{
    let h = graph_set_bundle(g, b, data);
    assert forall|r: int| 0 <= r < h.ranges.len() implies #[trigger] range_ok(f, h, r) by {
        assert(range_ok(f, g, r));
    }
    assert forall|r: int| 0 <= r < h.ranges.len() implies #[trigger] stats_ok(h, r) by {
        assert(stats_ok(g, r));
    }
    assert forall|v: int| 0 <= v < h.vregs.len() implies #[trigger] vreg_ok(f, h, v) by {
        assert(vreg_ok(f, g, v));
    }
}

proof fn lemma_list_len_mono(f: FuncModel, g: GraphState, b: int, i: int, n: int)
    requires
        graph_ok(f, g),
        0 <= b < g.in_bundle.len(),
        0 <= i <= n <= g.in_bundle[b].len(),
    ensures
        0 <= list_len(g.ranges, g.in_bundle[b], i) <= list_len(g.ranges, g.in_bundle[b], n),
        0 <= list_weight(g.ranges, g.in_bundle[b], i) <= list_weight(g.ranges, g.in_bundle[b], n),
    decreases n,
{
    if n > 0 {
        lemma_below(g.in_bundle, g.ranges.len() as int, b, n - 1);
        assert(range_ok(f, g, g.in_bundle[b][n - 1] as int));
        if i < n {
            lemma_list_len_mono(f, g, b, i, n - 1);
        } else {
            lemma_list_len_mono(f, g, b, n - 1, n - 1);
        }
    }
}

impl LiveGraph {
    /// The priority of a bundle: the number of instructions covered by its live ranges.
    pub fn compute_bundle_prio(&self, bundle: LiveBundleIndex) -> (r: Result<u32, RegAllocError>)
        requires
            self.wf(),
            bundle.0 < self@.bundles.len(),
        ensures
            r == graph_prio(self@, bundle.0),
    {
        let ghost list = self@.in_bundle[bundle.ix()];
        let mut iter = self.in_bundle.first(bundle.index());
        let mut total: u32 = 0;
        let ghost mut i: int = 0;
        while iter != NIL
            invariant
                self.wf(),
                bundle.0 < self@.bundles.len(),
                list == self@.in_bundle[bundle.ix()],
                0 <= i <= list.len(),
                iter == node_at(list, i),
                iter == NIL <==> i == list.len(),
                iter != NIL ==> iter < self@.ranges.len(),
                total == list_len(self@.ranges, list, i),
            decreases list.len() - i,
        {
            assert(range_ok(self.func@, self@, iter as int));
            let len = self.ranges[iter as usize].range.len() as u32;
            proof {
                lemma_list_len_mono(
                    self.func@,
                    self@,
                    bundle.ix(),
                    i + 1,
                    list.len() as int,
                );
            }
            if total > u32::MAX - len {
                return Err(RegAllocError::TooLarge);
            }
            total = total + len;
            iter = self.in_bundle.next(iter, Ghost(bundle.ix()), Ghost(i));
            proof {
                i = i + 1;
            }
        }
        Ok(total)
    }

    /// Does a use of the live range demand one given register?
    fn any_fixed_use(&self, r: u32) -> (res: bool)
        requires
            self.wf(),
            r < self@.ranges.len(),
        ensures
            res == any_fixed(self@.uses, self@.in_range[r as int]),
    {
        let ghost list = self@.in_range[r as int];
        let mut use_iter = self.in_range.first(r as usize);
        let ghost mut j: int = 0;
        while use_iter != NIL
            invariant
                self.wf(),
                r < self@.ranges.len(),
                list == self@.in_range[r as int],
                0 <= j <= list.len(),
                use_iter == node_at(list, j),
                use_iter == NIL <==> j == list.len(),
                use_iter != NIL ==> use_iter < self@.uses.len(),
                forall|k: int| 0 <= k < j ==> !use_fixed(self@.uses, #[trigger] list[k]),
            decreases list.len() - j,
        {
            if matches!(self.uses[use_iter as usize].operand.policy(), OperandPolicy::FixedReg(_)) {
                assert(use_fixed(self@.uses, list[j]));
                return true;
            }
            use_iter = self.in_range.next(use_iter, Ghost(r as int), Ghost(j));
            proof {
                j = j + 1;
            }
        }
        false
    }

    /// The weight of the mentions of a bundle.
    fn total_weight(&self, bundle: LiveBundleIndex) -> (r: Option<u32>)
        requires
            self.wf(),
            bundle.0 < self@.bundles.len(),
        ensures
            ({
                let list = self@.in_bundle[bundle.ix()];
                let total = list_weight(self@.ranges, list, list.len() as int);
                r == if total > u32::MAX {
                    None
                } else {
                    Some(total as u32)
                }
            }),
    {
        let ghost list = self@.in_bundle[bundle.ix()];
        let mut iter = self.in_bundle.first(bundle.index());
        let mut total: u32 = 0;
        let ghost mut i: int = 0;
        while iter != NIL
            invariant
                self.wf(),
                bundle.0 < self@.bundles.len(),
                list == self@.in_bundle[bundle.ix()],
                0 <= i <= list.len(),
                iter == node_at(list, i),
                iter == NIL <==> i == list.len(),
                iter != NIL ==> iter < self@.ranges.len(),
                total == list_weight(self@.ranges, list, i),
            decreases list.len() - i,
        {
            let range_data = self.ranges[iter as usize];
            proof {
                lemma_list_len_mono(
                    self.func@,
                    self@,
                    bundle.ix(),
                    i + 1,
                    list.len() as int,
                );
            }
            let def_weight: u32 = if range_data.def.is_valid() {
                2000
            } else {
                0
            };
            if total > u32::MAX - def_weight || total + def_weight > u32::MAX
                - range_data.uses_spill_weight {
                return None;
            }
            total = total + def_weight + range_data.uses_spill_weight;
            iter = self.in_bundle.next(iter, Ghost(bundle.ix()), Ghost(i));
            proof {
                i = i + 1;
            }
        }
        Some(total)
    }

    /// Compute and note the spill weight and the properties of a bundle.
    pub fn recompute_bundle_properties(&mut self, bundle: LiveBundleIndex) -> (r: Result<
        (),
        RegAllocError,
    >)
        requires
            old(self).wf(),
            bundle.0 < old(self)@.bundles.len(),
            old(self)@.in_bundle[bundle.ix()].len() > 0,
        ensures
            final(self).func == old(self).func,
            match graph_props(old(self)@, bundle.0) {
                Ok(props) => {
                    &&& r is Ok
                    &&& final(self)@ == graph_set_bundle(
                        old(self)@,
                        bundle.0,
                        LiveBundle {
                            spill_weight_and_props: props,
                            ..old(self)@.bundles[bundle.ix()]
                        },
                    )
                    &&& final(self).wf()
                },
                Err(e) => r == Err::<(), RegAllocError>(e) && e !is SSA,
            },
    {
        let ghost g = self@;
        let ghost list = g.in_bundle[bundle.ix()];
        let first = self.in_bundle.first(bundle.index());
        let first_range = self.ranges[first as usize];
        assert(range_ok(self.func@, g, first as int));
        let minimal: bool;
        let mut fixed = false;
        if first_range.vreg.is_invalid() {
            minimal = true;
            fixed = true;
        } else {
            if first_range.def.is_valid() {
                if matches!(
                    self.defs[first_range.def.index()].operand.policy(),
                    OperandPolicy::FixedReg(_)
                ) {
                    fixed = true;
                }
            }
            if self.any_fixed_use(first) {
                fixed = true;
            }
            let second = self.in_bundle.next(first, Ghost(bundle.ix()), Ghost(0));
            minimal =
            second == NIL && first_range.range.from.inst == first_range.range.to.prev().inst;
        }
        let prio = self.bundles[bundle.index()].prio;
        let spill_weight: u32 = if minimal {
            if fixed {
                2_000_000
            } else {
                1_000_000
            }
        } else {
            match self.total_weight(bundle) {
                Some(total) => if prio > 0 {
                    total / prio
                } else {
                    total
                },
                None => {
                    return Err(RegAllocError::TooLarge);
                },
            }
        };
        proof {
            assert(minimal == (g.ranges[list[0] as int].vreg.is_invalid() || bundle_minimal(
                g,
                bundle.0,
            )));
            assert(fixed == (g.ranges[list[0] as int].vreg.is_invalid() || range_fixed(
                g,
                list[0],
            )));
            lemma_list_len_mono(self.func@, g, bundle.ix(), 0, list.len() as int);
            assert(spill_weight == bundle_weight(g, bundle.0, minimal, fixed));
        }
        if spill_weight >= SPILL_WEIGHT_MASK {
            return Err(RegAllocError::TooLarge);
        }
        proof {
            lemma_set_bundle_ok(
                self.func@,
                g,
                bundle.0,
                LiveBundle {
                    spill_weight_and_props: pack_props(spill_weight, minimal, fixed),
                    ..g.bundles[bundle.ix()]
                },
            );
        }
        self.bundles[bundle.index()].set_cached_spill_weight_and_props(
            spill_weight,
            minimal,
            fixed,
        );
        Ok(())
    }

    /// Compute and note the priority, the spill weight and the properties of a bundle. Returns the
    /// priority.
    pub fn refresh_bundle(&mut self, bundle: LiveBundleIndex) -> (r: Result<u32, RegAllocError>)
        requires
            old(self).wf(),
            bundle.0 < old(self)@.bundles.len(),
            old(self)@.in_bundle[bundle.ix()].len() > 0,
        ensures
            final(self).func == old(self).func,
            match graph_refresh(old(self)@, bundle.0) {
                Ok(g) => {
                    &&& r == Ok::<u32, RegAllocError>(g.bundles[bundle.ix()].prio)
                    &&& final(self)@ == g
                    &&& final(self).wf()
                },
                Err(e) => r == Err::<u32, RegAllocError>(e) && e !is SSA,
            },
    {
        let prio = match self.compute_bundle_prio(bundle) {
            Ok(prio) => prio,
            Err(e) => {
                return Err(e);
            },
        };
        proof {
            lemma_set_bundle_ok(
                self.func@,
                self@,
                bundle.0,
                LiveBundle { prio, ..self@.bundles[bundle.ix()] },
            );
        }
        self.bundles[bundle.index()].prio = prio;
        match self.recompute_bundle_properties(bundle) {
            Ok(()) => Ok(prio),
            Err(e) => Err(e),
        }
    }
}

/// What the uses from position `j` of the list on demand, together with `needed`.
pub open spec fn uses_requirement(
    uses: Seq<Use>,
    list: Seq<u32>,
    j: int,
    needed: Requirement,
) -> Option<Requirement>
    decreases list.len() - j,
{
    if j < 0 || j >= list.len() {
        Some(needed)
    } else {
        match needed.both(Requirement::from_operand(uses[list[j] as int].operand)) {
            Some(n) => uses_requirement(uses, list, j + 1, n),
            None => None,
        }
    }
}

/// What the mentions of live range `r` demand, together with `needed`.
pub open spec fn range_requirement(g: GraphState, r: u32, needed: Requirement) -> Option<
    Requirement,
> {
    let lr = g.ranges[r as int];
    let list = g.in_range[r as int];
    if lr.def.is_valid() {
        match needed.both(Requirement::from_operand(g.defs[lr.def.ix()].operand)) {
            Some(n) => uses_requirement(g.uses, list, 0, n),
            None => None,
        }
    } else {
        uses_requirement(g.uses, list, 0, needed)
    }
}

/// What the live ranges from position `i` of the list on demand, together with `needed`.
pub open spec fn list_requirement(g: GraphState, list: Seq<u32>, i: int, needed: Requirement) -> Option<
    Requirement,
>
    decreases list.len() - i,
{
    if i < 0 || i >= list.len() {
        Some(needed)
    } else {
        match range_requirement(g, list[i], needed) {
            Some(n) => list_requirement(g, list, i + 1, n),
            None => None,
        }
    }
}

/// What the mentions of bundle `b` demand of its location; none if they cannot be met together.
pub open spec fn graph_requirement(g: GraphState, b: u32) -> Option<Requirement> {
    let list = g.in_bundle[b as int];
    let class = g.vregs[g.ranges[list[0] as int].vreg.ix()].reg.class;
    list_requirement(g, list, 0, Requirement::Any(class))
}

impl LiveGraph {
    /// What the mentions of a live range demand, together with `needed0`.
    fn compute_range_requirement(&self, r: u32, needed0: Requirement) -> (res: Option<Requirement>)
        requires
            self.wf(),
            r < self@.ranges.len(),
        ensures
            res == range_requirement(self@, r, needed0),
    {
        let ghost list = self@.in_range[r as int];
        assert(range_ok(self.func@, self@, r as int));
        let mut needed = needed0;
        let def = self.ranges[r as usize].def;
        if def.is_valid() {
            let def_op = self.defs[def.index()].operand;
            match needed.merge(Requirement::from_operand(def_op)) {
                Some(n) => {
                    needed = n;
                },
                None => {
                    return None;
                },
            }
        }
        let ghost res = uses_requirement(self@.uses, list, 0, needed);
        let mut use_iter = self.in_range.first(r as usize);
        let ghost mut j: int = 0;
        while use_iter != NIL
            invariant
                self.wf(),
                r < self@.ranges.len(),
                list == self@.in_range[r as int],
                0 <= j <= list.len(),
                use_iter == node_at(list, j),
                use_iter == NIL <==> j == list.len(),
                use_iter != NIL ==> use_iter < self@.uses.len(),
                res == range_requirement(self@, r, needed0),
                res == uses_requirement(self@.uses, list, j, needed),
            decreases list.len() - j,
        {
            let use_op = self.uses[use_iter as usize].operand;
            match needed.merge(Requirement::from_operand(use_op)) {
                Some(n) => {
                    needed = n;
                },
                None => {
                    return None;
                },
            }
            use_iter = self.in_range.next(use_iter, Ghost(r as int), Ghost(j));
            proof {
                j = j + 1;
            }
        }
        Some(needed)
    }

    /// What the mentions of a bundle demand of its location; none if they cannot be met together.
    pub fn compute_requirement(&self, bundle: LiveBundleIndex) -> (res: Option<Requirement>)
        requires
            self.wf(),
            bundle.0 < self@.bundles.len(),
            self@.in_bundle[bundle.ix()].len() > 0,
        ensures
            res == graph_requirement(self@, bundle.0),
    {
        let ghost list = self@.in_bundle[bundle.ix()];
        let mut iter = self.in_bundle.first(bundle.index());
        proof {
            assert(self@.in_bundle[bundle.ix()][0] == iter);
            assert(range_ok(self.func@, self@, iter as int));
        }
        let class = self.vregs[self.ranges[iter as usize].vreg.index()].reg.class();
        let mut needed = Requirement::Any(class);
        let ghost n0 = needed;
        let ghost mut i: int = 0;
        while iter != NIL
            invariant
                self.wf(),
                bundle.0 < self@.bundles.len(),
                list == self@.in_bundle[bundle.ix()],
                0 <= i <= list.len(),
                iter == node_at(list, i),
                iter == NIL <==> i == list.len(),
                iter != NIL ==> iter < self@.ranges.len(),
                graph_requirement(self@, bundle.0) == list_requirement(self@, list, 0, n0),
                list_requirement(self@, list, 0, n0) == list_requirement(self@, list, i, needed),
            decreases list.len() - i,
        {
            match self.compute_range_requirement(iter, needed) {
                Some(n) => {
                    needed = n;
                },
                None => {
                    return None;
                },
            }
            iter = self.in_bundle.next(iter, Ghost(bundle.ix()), Ghost(i));
            proof {
                i = i + 1;
            }
        }
        Some(needed)
    }
}

/// The length of live ranges adds up, and that of one is the number of instructions from its
/// beginning to its end.
pub proof fn law_lengths_add_up(ranges: Seq<LiveRange>, a: Seq<u32>, b: Seq<u32>, r: u32)
    ensures
        list_len(ranges, a + b, (a + b).len() as int) == list_len(ranges, a, a.len() as int)
            + list_len(ranges, b, b.len() as int),
        list_len(ranges, seq![r], 1) == ranges[r as int].range.to.inst.0
            - ranges[r as int].range.from.inst.0,
    decreases b.len(),
{
    reveal_with_fuel(list_len, 2);
    if b.len() == 0 {
        assert(a + b =~= a);
    } else {
        let rest = b.drop_last();
        law_lengths_add_up(ranges, a, rest, r);
        lemma_len_prefix(ranges, a + b, a + rest, (a + rest).len() as int);
        lemma_len_prefix(ranges, b, rest, rest.len() as int);
    }
}

proof fn lemma_len_prefix(ranges: Seq<LiveRange>, a: Seq<u32>, b: Seq<u32>, n: int)
    requires
        0 <= n <= a.len(),
        n <= b.len(),
        forall|i: int| 0 <= i < n ==> a[i] == #[trigger] b[i],
    ensures
        list_len(ranges, a, n) == list_len(ranges, b, n),
    decreases n,
{
    if n > 0 {
        let _ = b[n - 1];
        lemma_len_prefix(ranges, a, b, n - 1);
    }
}

/// The weight of live ranges adds up, and that of one is the weight of its uses and, where it is
/// defined, that of a definition in a register.
pub proof fn law_weights_add_up(ranges: Seq<LiveRange>, a: Seq<u32>, b: Seq<u32>, r: u32)
    ensures
        list_weight(ranges, a + b, (a + b).len() as int) == list_weight(ranges, a, a.len() as int)
            + list_weight(ranges, b, b.len() as int),
        list_weight(ranges, seq![r], 1) == ranges[r as int].uses_spill_weight + (
        if ranges[r as int].def.is_valid() {
            spill_weight_from_policy(OperandPolicy::Reg) as int
        } else {
            0
        }),
    decreases b.len(),
{
    reveal_with_fuel(list_weight, 2);
    if b.len() == 0 {
        assert(a + b =~= a);
    } else {
        let rest = b.drop_last();
        law_weights_add_up(ranges, a, rest, r);
        lemma_weight_prefix(ranges, a + b, a + rest, (a + rest).len() as int);
        lemma_weight_prefix(ranges, b, rest, rest.len() as int);
    }
}

proof fn lemma_weight_prefix(ranges: Seq<LiveRange>, a: Seq<u32>, b: Seq<u32>, n: int)
    requires
        0 <= n <= a.len(),
        n <= b.len(),
        forall|i: int| 0 <= i < n ==> a[i] == #[trigger] b[i],
    ensures
        list_weight(ranges, a, n) == list_weight(ranges, b, n),
    decreases n,
{
    if n > 0 {
        let _ = b[n - 1];
        lemma_weight_prefix(ranges, a, b, n - 1);
    }
}

} // verus!
