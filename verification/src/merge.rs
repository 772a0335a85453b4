//! Which bundles are merged.
use crate::bundles::{
    bundled, can_merge, fresh_bundle, graph_bundle_all, graph_bundle_vreg, graph_merge,
    in_its_bundle, lemma_merge_members, retag,
};
use crate::data::LiveRange;
use crate::func::{func_ok, inst_ok, operand_ok, FuncModel, Function};
use crate::graph::{vreg_ok, GraphState, LiveGraph};
use crate::index::{Inst, LiveBundleIndex, VRegIndex};
use crate::lists::NIL;
use crate::live::graph_find;
use crate::liveness::{out_ok, BlockparamOut};
use crate::order::vregs_in_order;
use crate::reg::{InstPosition, OperandPolicy, RegAllocError};
use vstd::prelude::*;

verus! {

/// The bundle of the first live range of register `v`.
pub open spec fn graph_first_bundle(g: GraphState, v: u32) -> Result<u32, RegAllocError> {
    if g.in_vreg[v as int].len() == 0 {
        Err(RegAllocError::NoLiveRange(VRegIndex(v)))
    } else {
        Ok(g.ranges[g.in_vreg[v as int][0] as int].bundle.0)
    }
}

/// The bundles of the first live ranges of two registers are merged, if they can be.
pub open spec fn graph_merge_vregs(g: GraphState, first: u32, second: u32, swap: bool) -> Result<
    GraphState,
    RegAllocError,
> {
    match graph_first_bundle(g, first) {
        Ok(a) => match graph_first_bundle(g, second) {
            Ok(b) => if swap {
                Ok(graph_merge(g, b, a).0)
            } else {
                Ok(graph_merge(g, a, b).0)
            },
            Err(e) => Err(e),
        },
        Err(e) => Err(e),
    }
}

/// The bundle of register `from`, an input, is merged with that of register `to`, the output that
/// reuses it, if the output is defined after the instruction and the input is not live there.
pub open spec fn graph_merge_reused(g: GraphState, from: u32, to: u32) -> Result<
    GraphState,
    RegAllocError,
> {
    let d = g.vregs[to as int].def;
    if d.is_invalid() {
        Err(RegAllocError::NoLiveRange(VRegIndex(to)))
    } else {
        let point = g.defs[d.ix()].pos;
        if point.pos is Before || graph_find(g, from, point, 0) is Some {
            Ok(g)
        } else {
            graph_merge_vregs(g, from, to, false)
        }
    }
}

/// The outputs of the instruction from operand `i` on that reuse an input.
pub open spec fn graph_merge_operands(f: FuncModel, g: GraphState, inst: Inst, i: int) -> Result<
    GraphState,
    RegAllocError,
>
    decreases f.operands[inst.ix()].len() - i,
{
    let ops = f.operands[inst.ix()];
    if i < 0 || i >= ops.len() {
        Ok(g)
    } else {
        match ops[i].policy {
            OperandPolicy::Reuse(k) => match graph_merge_reused(
                g,
                ops[k as int].vreg.vreg,
                ops[i].vreg.vreg,
            ) {
                Ok(h) => graph_merge_operands(f, h, inst, i + 1),
                Err(e) => Err(e),
            },
            _ => graph_merge_operands(f, g, inst, i + 1),
        }
    }
}

/// The instruction: reused inputs, then the two sides of a copy.
pub open spec fn graph_merge_inst(f: FuncModel, g: GraphState, inst: Inst) -> Result<
    GraphState,
    RegAllocError,
> {
    match graph_merge_operands(f, g, inst, 0) {
        Ok(h) => match f.moves[inst.ix()] {
            Some((src, dst)) => graph_merge_vregs(h, src.vreg, dst.vreg, true),
            None => Ok(h),
        },
        Err(e) => Err(e),
    }
}

/// The instructions from number `i` on.
pub open spec fn graph_merge_insts(f: FuncModel, g: GraphState, i: int) -> Result<
    GraphState,
    RegAllocError,
>
    decreases f.insts - i,
{
    if i < 0 || i >= f.insts {
        Ok(g)
    } else {
        match graph_merge_inst(f, g, Inst(i as u32)) {
            Ok(h) => graph_merge_insts(f, h, i + 1),
            Err(e) => Err(e),
        }
    }
}

/// The block parameters with what is handed to them, from position `i` on.
pub open spec fn graph_merge_outs(g: GraphState, outs: Seq<BlockparamOut>, i: int) -> Result<
    GraphState,
    RegAllocError,
>
    decreases outs.len() - i,
{
    if i < 0 || i >= outs.len() {
        Ok(g)
    } else {
        match graph_merge_vregs(g, outs[i].3.0, outs[i].0.0, true) {
            Ok(h) => graph_merge_outs(h, outs, i + 1),
            Err(e) => Err(e),
        }
    }
}

/// Every register gets a bundle, and bundles that profit from one location are merged.
pub open spec fn graph_merge_all(f: FuncModel, g: GraphState, outs: Seq<BlockparamOut>) -> Result<
    GraphState,
    RegAllocError,
> {
    match graph_bundle_all(g, 0) {
        Ok(h) => match graph_merge_insts(f, h, 0) {
            Ok(k) => graph_merge_outs(k, outs, 0),
            Err(e) => Err(e),
        },
        Err(e) => Err(e),
    }
}

/// Apart from the bundles and which of them a live range belongs to, the tables are the same; every
/// bundle is new.
pub open spec fn only_bundled(g: GraphState, h: GraphState) -> bool {
    &&& h == (GraphState {
        ranges: h.ranges,
        bundles: h.bundles,
        in_bundle: h.in_bundle,
        ..g
    })
    &&& h.ranges.len() == g.ranges.len()
    &&& forall|r: int|
        0 <= r < g.ranges.len() ==> #[trigger] h.ranges[r] == (LiveRange {
            bundle: h.ranges[r].bundle,
            ..g.ranges[r]
        })
    &&& forall|b: int| 0 <= b < h.bundles.len() ==> #[trigger] h.bundles[b] == fresh_bundle()
}

proof fn lemma_only_bundled_trans(g: GraphState, h: GraphState, k: GraphState)
    requires
        only_bundled(g, h),
        only_bundled(h, k),
    ensures
        only_bundled(g, k),
{
    assert forall|r: int| 0 <= r < g.ranges.len() implies #[trigger] k.ranges[r] == (LiveRange {
        bundle: k.ranges[r].bundle,
        ..g.ranges[r]
    }) by {
        assert(h.ranges[r] == (LiveRange { bundle: h.ranges[r].bundle, ..g.ranges[r] }));
    }
}

proof fn lemma_bundle_all_keeps(g: GraphState, v: int)
    requires
        forall|b: int| 0 <= b < g.bundles.len() ==> #[trigger] g.bundles[b] == fresh_bundle(),
    ensures
        graph_bundle_all(g, v) matches Ok(h) ==> only_bundled(g, h),
    decreases g.in_vreg.len() - v,
{
    if 0 <= v < g.in_vreg.len() {
        if let Ok(h) = graph_bundle_vreg(g, v) {
            assert(only_bundled(g, h));
            if h.in_vreg == g.in_vreg {
                lemma_bundle_all_keeps(h, v + 1);
                if let Ok(k) = graph_bundle_all(h, v + 1) {
                    lemma_only_bundled_trans(g, h, k);
                }
            }
        }
    }
}

proof fn lemma_merge_operands_keeps(f: FuncModel, g: GraphState, inst: Inst, i: int)
    requires
        forall|b: int| 0 <= b < g.bundles.len() ==> #[trigger] g.bundles[b] == fresh_bundle(),
    ensures
        graph_merge_operands(f, g, inst, i) matches Ok(h) ==> only_bundled(g, h),
    decreases f.operands[inst.ix()].len() - i,
{
    let ops = f.operands[inst.ix()];
    if 0 <= i < ops.len() {
        match ops[i].policy {
            OperandPolicy::Reuse(k) => {
                if let Ok(h) = graph_merge_reused(g, ops[k as int].vreg.vreg, ops[i].vreg.vreg) {
                    assert(only_bundled(g, h));
                    lemma_merge_operands_keeps(f, h, inst, i + 1);
                    if let Ok(k) = graph_merge_operands(f, h, inst, i + 1) {
                        lemma_only_bundled_trans(g, h, k);
                    }
                }
            },
            _ => {
                lemma_merge_operands_keeps(f, g, inst, i + 1);
            },
        }
    }
}

proof fn lemma_merge_insts_keeps(f: FuncModel, g: GraphState, i: int)
    requires
        forall|b: int| 0 <= b < g.bundles.len() ==> #[trigger] g.bundles[b] == fresh_bundle(),
    ensures
        graph_merge_insts(f, g, i) matches Ok(h) ==> only_bundled(g, h),
    decreases f.insts - i,
{
    if 0 <= i < f.insts {
        let inst = Inst(i as u32);
        lemma_merge_operands_keeps(f, g, inst, 0);
        if let Ok(h) = graph_merge_operands(f, g, inst, 0) {
            if let Ok(k) = graph_merge_inst(f, g, inst) {
                assert(only_bundled(h, k));
                lemma_only_bundled_trans(g, h, k);
                lemma_merge_insts_keeps(f, k, i + 1);
                if let Ok(l) = graph_merge_insts(f, k, i + 1) {
                    lemma_only_bundled_trans(g, k, l);
                }
            }
        }
    }
}

proof fn lemma_merge_outs_keeps(g: GraphState, outs: Seq<BlockparamOut>, i: int)
    requires
        forall|b: int| 0 <= b < g.bundles.len() ==> #[trigger] g.bundles[b] == fresh_bundle(),
    ensures
        graph_merge_outs(g, outs, i) matches Ok(h) ==> only_bundled(g, h),
    decreases outs.len() - i,
{
    if 0 <= i < outs.len() {
        if let Ok(h) = graph_merge_vregs(g, outs[i].3.0, outs[i].0.0, true) {
            assert(only_bundled(g, h));
            lemma_merge_outs_keeps(h, outs, i + 1);
            if let Ok(k) = graph_merge_outs(h, outs, i + 1) {
                lemma_only_bundled_trans(g, h, k);
            }
        }
    }
}

/// Bundling and merging change nothing but bundles.
pub proof fn law_merge_only_bundles(f: FuncModel, g: GraphState, outs: Seq<BlockparamOut>)
    requires
        g.bundles.len() == 0,
    ensures
        graph_merge_all(f, g, outs) matches Ok(h) ==> only_bundled(g, h),
{
    lemma_bundle_all_keeps(g, 0);
    if let Ok(h) = graph_bundle_all(g, 0) {
        lemma_merge_insts_keeps(f, h, 0);
        if let Ok(k) = graph_merge_insts(f, h, 0) {
            lemma_only_bundled_trans(g, h, k);
            lemma_merge_outs_keeps(k, outs, 0);
            if let Ok(l) = graph_merge_outs(k, outs, 0) {
                lemma_only_bundled_trans(g, k, l);
            }
        }
    }
}

impl LiveGraph {
    /// The bundle of the first live range of a register.
    fn first_bundle(&self, v: VRegIndex) -> (r: Result<LiveBundleIndex, RegAllocError>)
        requires
            self.wf(),
            bundled(self@),
            v.0 < self@.vregs.len(),
        ensures
            match graph_first_bundle(self@, v.0) {
                Ok(b) => r == Ok::<LiveBundleIndex, RegAllocError>(LiveBundleIndex(b)) && b
                    < self@.bundles.len() && self@.in_bundle[b as int].len() > 0,
                Err(e) => r == Err::<LiveBundleIndex, RegAllocError>(e) && e !is SSA,
            },
    {
        let first = self.in_vreg.first(v.index());
        if first == NIL {
            return Err(RegAllocError::NoLiveRange(v));
        }
        proof {
            assert(in_its_bundle(self@, self@.in_vreg[v.ix()][0]));
        }
        Ok(self.ranges[first as usize].bundle)
    }

    /// Merge the bundles of the first live ranges of two registers, if they can be: the first one
    /// into the second one, or the other way round.
    fn merge_vregs(&mut self, first: VRegIndex, second: VRegIndex, swap: bool) -> (r: Result<
        (),
        RegAllocError,
    >)
        requires
            old(self).wf(),
            bundled(old(self)@),
            first.0 < old(self)@.vregs.len(),
            second.0 < old(self)@.vregs.len(),
        ensures
            final(self).func == old(self).func,
            match graph_merge_vregs(old(self)@, first.0, second.0, swap) {
                Ok(g) => r is Ok && final(self)@ == g && final(self).wf() && bundled(g),
                Err(e) => r == Err::<(), RegAllocError>(e) && e !is SSA,
            },
    {
        let a = match self.first_bundle(first) {
            Ok(a) => a,
            Err(e) => {
                return Err(e);
            },
        };
        let b = match self.first_bundle(second) {
            Ok(b) => b,
            Err(e) => {
                return Err(e);
            },
        };
        if swap {
            self.merge_bundles(b, a);
        } else {
            self.merge_bundles(a, b);
        }
        Ok(())
    }

    /// Merge the bundle of an input with that of the output that reuses it, if the output is
    /// defined after the instruction and the input is not live there.
    pub fn try_merge_reused_register(&mut self, from: VRegIndex, to: VRegIndex) -> (r: Result<
        (),
        RegAllocError,
    >)
        requires
            old(self).wf(),
            bundled(old(self)@),
            from.0 < old(self)@.vregs.len(),
            to.0 < old(self)@.vregs.len(),
        ensures
            final(self).func == old(self).func,
            match graph_merge_reused(old(self)@, from.0, to.0) {
                Ok(g) => r is Ok && final(self)@ == g && final(self).wf() && bundled(g),
                Err(e) => r == Err::<(), RegAllocError>(e) && e !is SSA,
            },
    {
        assert(vreg_ok(self.func@, self@, to.ix()));
        let def_idx = self.vregs[to.index()].def;
        if def_idx.is_invalid() {
            return Err(RegAllocError::NoLiveRange(to));
        }
        let def_point = self.defs[def_idx.index()].pos;
        if matches!(def_point.pos, InstPosition::Before) {
            return Ok(());
        }
        let use_lr_at_def = self.find_vreg_liverange_for_pos(from, def_point);
        if use_lr_at_def.is_none() {
            return self.merge_vregs(from, to, false);
        }
        Ok(())
    }

    /// Merge the bundles of outputs of an instruction with those of the inputs they reuse.
    fn merge_operands<F: Function>(&mut self, func: &F, inst: Inst) -> (r: Result<
        (),
        RegAllocError,
    >)
        requires
            old(self).wf(),
            bundled(old(self)@),
            old(self).func@ == func.model(),
            func_ok(func.model()),
            inst.0 < func.model().insts,
        ensures
            final(self).func == old(self).func,
            match graph_merge_operands(func.model(), old(self)@, inst, 0) {
                Ok(g) => r is Ok && final(self)@ == g && final(self).wf() && bundled(g),
                Err(e) => r == Err::<(), RegAllocError>(e) && e !is SSA,
            },
    {
        let ghost g = self@;
        let ghost f = func.model();
        assert(inst_ok(f, inst.ix()));
        let operands = func.inst_operands(inst);
        let mut i: usize = 0;
        while i < operands.len()
            invariant
                self.wf(),
                bundled(self@),
                self.func == old(self).func,
                self.func@ == f,
                g == old(self)@,
                f == func.model(),
                func_ok(f),
                inst.0 < f.insts,
                inst_ok(f, inst.ix()),
                operands@ == f.operands[inst.ix()],
                i <= operands@.len(),
                graph_merge_operands(f, g, inst, 0) == graph_merge_operands(
                    f,
                    self@,
                    inst,
                    i as int,
                ),
            decreases operands@.len() - i,
        {
            let operand = operands[i];
            assert(operand_ok(f, inst.ix(), f.operands[inst.ix()][i as int]));
            match operand.policy() {
                OperandPolicy::Reuse(input_idx) => {
                    assert(operand_ok(f, inst.ix(), f.operands[inst.ix()][input_idx as int]));
                    let input_vreg = VRegIndex::new(operands[input_idx].vreg().vreg());
                    let output_vreg = VRegIndex::new(operand.vreg().vreg());
                    match self.try_merge_reused_register(input_vreg, output_vreg) {
                        Ok(()) => {},
                        Err(e) => {
                            return Err(e);
                        },
                    }
                },
                _ => {},
            }
            i += 1;
        }
        Ok(())
    }

    /// Give every register a bundle and merge bundles that profit from one location.
    pub fn merge_vreg_bundles<F: Function>(
        &mut self,
        func: &F,
        blockparam_outs: &Vec<BlockparamOut>,
    ) -> (r: Result<(), RegAllocError>)
        requires
            old(self).wf(),
            old(self).func@ == func.model(),
            func_ok(func.model()),
            old(self)@.bundles.len() == 0,
            vregs_in_order(old(self)@),
            forall|i: int|
                0 <= i < blockparam_outs@.len() ==> out_ok(
                    func.model(),
                    #[trigger] blockparam_outs@[i],
                ),
        ensures
            final(self).func == old(self).func,
            match graph_merge_all(func.model(), old(self)@, blockparam_outs@) {
                Ok(g) => r is Ok && final(self)@ == g && final(self).wf() && bundled(g),
                Err(e) => r == Err::<(), RegAllocError>(e) && e !is SSA,
            },
    {
        let ghost f = func.model();
        match self.bundle_all() {
            Ok(()) => {},
            Err(e) => {
                return Err(e);
            },
        }
        let ghost g1 = self@;
        let insts = func.insts();
        let mut i: usize = 0;
        while i < insts
            invariant
                self.wf(),
                bundled(self@),
                self.func == old(self).func,
                self.func@ == f,
                f == func.model(),
                func_ok(f),
                insts == f.insts,
                i <= insts,
                graph_bundle_all(old(self)@, 0) == Ok::<GraphState, RegAllocError>(g1),
                graph_merge_insts(f, g1, 0) == graph_merge_insts(f, self@, i as int),
            decreases insts - i,
        {
            let inst = Inst::new(i);
            assert(inst_ok(f, inst.ix()));
            match self.merge_operands(func, inst) {
                Ok(()) => {},
                Err(e) => {
                    return Err(e);
                },
            }
            match func.is_move(inst) {
                Some((src_vreg, dst_vreg)) => {
                    match self.merge_vregs(
                        VRegIndex::new(src_vreg.vreg()),
                        VRegIndex::new(dst_vreg.vreg()),
                        true,
                    ) {
                        Ok(()) => {},
                        Err(e) => {
                            return Err(e);
                        },
                    }
                },
                None => {},
            }
            i += 1;
        }
        let ghost g2 = self@;
        let mut i: usize = 0;
        while i < blockparam_outs.len()
            invariant
                self.wf(),
                bundled(self@),
                self.func == old(self).func,
                self.func@ == f,
                f == func.model(),
                i <= blockparam_outs@.len(),
                forall|i: int|
                    0 <= i < blockparam_outs@.len() ==> out_ok(
                        f,
                        #[trigger] blockparam_outs@[i],
                    ),
                graph_merge_all(f, old(self)@, blockparam_outs@) == graph_merge_outs(
                    g2,
                    blockparam_outs@,
                    0,
                ),
                graph_merge_outs(g2, blockparam_outs@, 0) == graph_merge_outs(
                    self@,
                    blockparam_outs@,
                    i as int,
                ),
            decreases blockparam_outs@.len() - i,
        {
            let (from_vreg, _, _, to_vreg) = blockparam_outs[i];
            assert(out_ok(f, blockparam_outs@[i as int]));
            match self.merge_vregs(to_vreg, from_vreg, true) {
                Ok(()) => {},
                Err(e) => {
                    return Err(e);
                },
            }
            i += 1;
        }
        Ok(())
    }
}

proof fn lemma_apart_can_merge(
    ranges: Seq<LiveRange>,
    a: Seq<u32>,
    b: Seq<u32>,
    i: int,
    j: int,
    count: int,
)
    requires
        0 <= i <= a.len(),
        0 <= j <= b.len(),
        count <= i + j,
        a.len() + b.len() <= 200,
        forall|x: int, y: int|
            #![trigger a[x], b[y]]
            0 <= x < a.len() && 0 <= y < b.len() ==> ranges[a[x] as int].range.to.ix()
                <= ranges[b[y] as int].range.from.ix() || ranges[b[y] as int].range.to.ix()
                <= ranges[a[x] as int].range.from.ix(),
    ensures
        can_merge(ranges, a, b, i, j, count),
    decreases a.len() - i + b.len() - j,
{
    if i < a.len() && j < b.len() {
        let _ = (a[i], b[j]);
        if ranges[a[i] as int].range.from.ix() >= ranges[b[j] as int].range.to.ix() {
            lemma_apart_can_merge(ranges, a, b, i, j + 1, count + 1);
        } else {
            lemma_apart_can_merge(ranges, a, b, i + 1, j, count + 1);
        }
    }
}

/// Two bundles of one class that have few live ranges, none of which reaches into one of the other
/// bundle, are merged: every live range of the two is then in the one, and none in the other.
pub proof fn law_apart_merged(g: GraphState, from: u32, to: u32, r: u32)
    requires
        from != to,
        from < g.in_bundle.len(),
        to < g.in_bundle.len(),
        g.in_bundle[from as int].len() + g.in_bundle[to as int].len() <= 200,
        g.vregs[g.ranges[g.in_bundle[from as int][0] as int].vreg.ix()].reg.class
            == g.vregs[g.ranges[g.in_bundle[to as int][0] as int].vreg.ix()].reg.class,
        forall|x: int, y: int|
            #![trigger g.in_bundle[from as int][x], g.in_bundle[to as int][y]]
            0 <= x < g.in_bundle[from as int].len() && 0 <= y < g.in_bundle[to as int].len()
                ==> g.ranges[g.in_bundle[from as int][x] as int].range.to.ix()
                <= g.ranges[g.in_bundle[to as int][y] as int].range.from.ix()
                || g.ranges[g.in_bundle[to as int][y] as int].range.to.ix()
                <= g.ranges[g.in_bundle[from as int][x] as int].range.from.ix(),
    ensures
        graph_merge(g, from, to).1,
        graph_merge(g, from, to).0.in_bundle[to as int].contains(r) <==> g.in_bundle[from as int].contains(
            r,
        ) || g.in_bundle[to as int].contains(r),
        graph_merge(g, from, to).0.in_bundle[from as int].len() == 0,
{
    let a = g.in_bundle[from as int];
    let b = g.in_bundle[to as int];
    lemma_apart_can_merge(g.ranges, a, b, 0, 0, 0);
    lemma_merge_members(retag(g.ranges, a, to), a, b, r);
}

} // verus!
