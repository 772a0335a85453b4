//! The live ranges of all registers, found in one scan over the blocks.
use crate::bitvec::BitVec;
use crate::cfg::{cfg_ok, CFGInfo, CfgModel};
use crate::code_range::{
    entries_disjoint, entries_insert, find_overlap, first_not_before, lemma_first_not_before,
    lemma_first_overlap, CodeRange, LiveRangeKey, RangeEntry,
};
use crate::data::{Def, LiveRange, PRegData, Use, VRegData};
use crate::dom::ssa_form;
use crate::flow::{
    block_flow, flows, flows_in, lemma_def_met, lemma_flow_done, lemma_flow_param, lemma_flow_start,
    lemma_flows_begun, lemma_flows_def, lemma_flows_same, lemma_flows_use, lemma_listed_trans,
    same_flow,
};
use crate::func::{
    block_ok, func_ok, inst_ok, inst_regs_ok, lemma_params_before, mach_ok, operand_ok,
    params_before, regs_ok, FuncModel, Function, MachModel, MachineEnv,
};
use crate::graph::{
    fresh_range, graph_add_def, graph_add_range, graph_add_use, graph_insert_use, graph_ok,
    graph_set_range, graph_set_vreg, lemma_set_range_ok, range_ok, vreg_ok, GraphState, LiveGraph,
    MAX_ENTRIES,
};
use crate::held::{
    defines, held, held_upto, lemma_marks_def, lemma_marks_live, lemma_marks_new, lemma_marks_range,
    lemma_marks_same, lemma_upto_live, marks, others_listed,
};
use crate::index::{Block, DefIndex, Inst, LiveRangeIndex, PRegIndex, VRegIndex};
use crate::live::{graph_add_live, vregs_kept};
use crate::order::{law_add_live_in_order, lemma_shrunk_vregs, only_shrunk, vregs_in_order};
use crate::reached::{
    blocks_scanned, defs_named, lemma_block_begun, lemma_block_scanned, lemma_defs_begun,
    lemma_defs_block, lemma_defs_inst, lemma_inst_scanned, lemma_no_def_yet, lemma_nothing_scanned,
    lemma_operand_scanned, lemma_sites_exist, scanned,
};
use crate::reg::{Operand, OperandKind, OperandPolicy, OperandPos, ProgPoint, RegAllocError};
use crate::setup::pass_start;
use crate::small::{small_from_elem, small_get, small_set, IndexVec};
use crate::spans::{
    edges_live, edges_live_in, lemma_edges_done, lemma_in_begun, lemma_in_inst, lemma_listed_covers,
    lemma_live_spans, lemma_params_step, lemma_spanned_step, lemma_spans_same, lemma_spans_then,
    lemma_spans_trans, lemma_spans_trimmed, lived, params_live, spanned, spans_stay, spans_stay_but,
    wanted,
};
use crate::uses::{
    lemma_added_range, lemma_live_uses, lemma_same_uses, lemma_trimmed, lemma_use_added, uses_exact,
    uses_fit,
};
use vstd::prelude::*;

verus! {

/// A value handed to a block parameter: the register, the end of which block, the start of which
/// block, the parameter.
pub type BlockparamOut = (VRegIndex, Block, Block, VRegIndex);

/// A block parameter with the start of its block and the end of a predecessor.
pub type BlockparamIn = (VRegIndex, Block, Block);

/// A register that is to be copied to another one at a point.
pub type Fixup = (ProgPoint, PRegIndex, PRegIndex);

/// What stays fixed: the function, the machine and the shape of the function.
pub struct Ctx {
    pub f: FuncModel,
    pub m: MachModel,
    pub cfg: CfgModel,
}

/// The function, the machine and the shape fit together.
pub open spec fn ctx_ok(c: Ctx) -> bool {
    &&& func_ok(c.f)
    &&& mach_ok(c.m)
    &&& regs_ok(c.f, c.m)
    &&& cfg_ok(c.f, c.cfg)
}

/// What the scan over the blocks builds up.
pub struct LivenessPass<'a, F: Function> {
    pub func: &'a F,
    pub env: &'a MachineEnv,
    pub cfginfo: &'a CFGInfo,
    pub g: LiveGraph,
    /// For each block, the registers that are live at its start.
    pub liveins: Vec<BitVec>,
    pub blockparam_outs: Vec<BlockparamOut>,
    pub blockparam_ins: Vec<BlockparamIn>,
    pub pregs: Vec<PRegData>,
    /// The instructions that overwrite registers.
    pub clobbers: Vec<Inst>,
    pub multi_fixed_reg_fixups: Vec<Fixup>,
    /// The registers that are live at the point of the scan.
    pub live: BitVec,
    /// For each register, its live range at the point of the scan.
    pub vreg_ranges: Vec<LiveRangeIndex>,
    pub num_ranges: usize,
}

/// The mathematical value of a `LivenessPass`.
#[verifier::ext_equal]
pub struct PassState {
    pub g: GraphState,
    pub liveins: Seq<Set<int>>,
    pub outs: Seq<BlockparamOut>,
    pub ins: Seq<BlockparamIn>,
    pub pregs: Seq<Seq<RangeEntry>>,
    pub clobbers: Seq<Inst>,
    pub fixups: Seq<Fixup>,
    pub live: Set<int>,
    pub vreg_ranges: Seq<LiveRangeIndex>,
    pub num_ranges: int,
}

/// The entries of a physical register are disjoint and refer to live ranges that exist.
pub open spec fn entries_ok(s: Seq<RangeEntry>, ranges: int) -> bool {
    &&& entries_disjoint(s)
    &&& forall|i: int| 0 <= i < s.len() ==> (#[trigger] s[i]).1.0 < ranges
}

/// The entries stand for live ranges of no virtual register.
pub open spec fn entries_free(ranges: Seq<LiveRange>, s: Seq<RangeEntry>) -> bool {
    forall|i: int| 0 <= i < s.len() ==> ranges[(#[trigger] s[i]).1.ix()].vreg.is_invalid()
}

/// All members are numbers of registers.
pub open spec fn set_below(s: Set<int>, n: int) -> bool {
    forall|v: int| #[trigger] s.contains(v) ==> 0 <= v < n
}

/// Is the register a parameter of the block?
pub open spec fn takes_param(f: FuncModel, b: Block, v: u32) -> bool {
    exists|k: int| 0 <= k < f.params[b.ix()].len() && (#[trigger] f.params[b.ix()][k]).vreg == v
}

/// The operand of the branch at the end of block `b` that is for parameter `j` of its successor
/// number `k`.
pub open spec fn branch_arg(f: FuncModel, b: Block, k: int, j: int) -> Operand {
    f.operands[f.insns[b.ix()].to.0 - 1][params_before(f, f.succs[b.ix()], k) + j]
}

/// Is parameter `j` of successor number `k` of block `from` the given one of block `to`?
pub open spec fn is_arg(f: FuncModel, from: Block, to: Block, param: u32, k: int, j: int) -> bool {
    &&& 0 <= k < f.succs[from.ix()].len()
    &&& f.succs[from.ix()][k] == to
    &&& 0 <= j < f.params[to.ix()].len()
    &&& f.params[to.ix()][j].vreg == param
}

/// Does the branch at the end of block `from` hand register `arg` to the parameter of block `to`?
pub open spec fn passes(f: FuncModel, from: Block, to: Block, arg: u32, param: u32) -> bool {
    exists|k: int, j: int|
        #[trigger] is_arg(f, from, to, param, k, j) && branch_arg(f, from, k, j).vreg.vreg == arg
}

/// The registers of the entry exist, the branch at the end of the first block hands the first one to
/// the second one, which is a parameter, and there is an edge between the blocks.
pub open spec fn out_ok(f: FuncModel, o: BlockparamOut) -> bool {
    &&& o.0.0 < f.num_vregs
    &&& o.1.0 < f.blocks
    &&& o.2.0 < f.blocks
    &&& takes_param(f, o.2, o.3.0)
    &&& o.3.0 < f.num_vregs
    &&& f.succs[o.1.ix()].contains(o.2)
    &&& passes(f, o.1, o.2, o.0.0, o.3.0)
}

/// The register of the entry exists and is a parameter of the first block, and the second block comes
/// before the first one.
pub open spec fn in_ok(f: FuncModel, o: BlockparamIn) -> bool {
    &&& o.0.0 < f.num_vregs
    &&& o.1.0 < f.blocks
    &&& o.2.0 < f.blocks
    &&& takes_param(f, o.1, o.0.0)
    &&& f.preds[o.1.ix()].contains(o.2)
}

/// The point and the registers of the entry exist, and the second register may hold values.
pub open spec fn fixup_ok(c: Ctx, x: Fixup) -> bool {
    &&& x.0.inst.0 < c.f.insts
    &&& x.1.0 < c.m.regs.len()
    &&& x.2.0 < c.m.regs.len()
    &&& may_hold(c, x.2.ix())
}

/// The live range that the scan is at belongs to the register.
pub open spec fn vreg_range_ok(g: GraphState, v: int, lr: LiveRangeIndex) -> bool {
    lr.is_valid() ==> lr.0 < g.ranges.len() && g.ranges[lr.ix()].vreg.0 == v
}

/// Is a physical register one that values may be kept in: one that a class offers, or one that an
/// operand demands?
#[verifier::opaque]
pub open spec fn may_hold(c: Ctx, p: int) -> bool {
    ||| exists|k: int, i: int|
        0 <= k < c.m.regs_by_class.len() && 0 <= i < c.m.regs_by_class[k].len() && (
        #[trigger] c.m.regs_by_class[k][i]).ix() == p
    ||| exists|i: int, k: int|
        0 <= i < c.f.insts && 0 <= k < c.f.operands[i].len() && ((
        #[trigger] c.f.operands[i][k]).policy matches OperandPolicy::FixedReg(r) && r.ix() == p)
}

/// The registers that a class offers may hold values.
pub proof fn lemma_offered(c: Ctx, k: int, i: int)
    requires
        0 <= k < c.m.regs_by_class.len(),
        0 <= i < c.m.regs_by_class[k].len(),
    ensures
        may_hold(c, c.m.regs_by_class[k][i].ix()),
{
    reveal(may_hold);
}

/// The registers that an operand demands may hold values.
pub proof fn lemma_demanded(c: Ctx, i: int, k: int)
    requires
        ctx_ok(c),
        0 <= i < c.f.insts,
        0 <= k < c.f.operands[i].len(),
    ensures
        operand_reg_ok(c, c.f.operands[i][k]),
{
    reveal(may_hold);
    assert(inst_regs_ok(c.f, c.m, i));
    let _ = c.f.operands[i][k];
}

/// A register that the operand demands is one of the machine that may hold values.
pub open spec fn operand_reg_ok(c: Ctx, op: Operand) -> bool {
    op.policy matches OperandPolicy::FixedReg(p) ==> p.ix() < c.m.regs.len() && p.encoded()
        && may_hold(c, p.ix())
}

/// The registers that the mentions demand are those of the machine that may hold values.
pub open spec fn mentions_ok(c: Ctx, g: GraphState) -> bool {
    &&& forall|u: int| 0 <= u < g.uses.len() ==> operand_reg_ok(c, (#[trigger] g.uses[u]).operand)
    &&& forall|d: int| 0 <= d < g.defs.len() ==> operand_reg_ok(c, (#[trigger] g.defs[d]).operand)
}

/// The parts of the scan fit together.
pub open spec fn pass_ok(c: Ctx, s: PassState) -> bool {
    &&& graph_ok(c.f, s.g)
    &&& vregs_in_order(s.g)
    &&& uses_fit(c.f, s.g)
    &&& mentions_ok(c, s.g)
    &&& defs_named(c.f, s.g.defs)
    &&& marks(c.f, s.g)
    &&& s.g.bundles.len() == 0
    &&& s.liveins.len() == c.f.blocks
    &&& forall|b: int| 0 <= b < s.liveins.len() ==> set_below(#[trigger] s.liveins[b], c.f.num_vregs as int)
    &&& set_below(s.live, c.f.num_vregs as int)
    &&& forall|i: int| 0 <= i < s.outs.len() ==> out_ok(c.f, #[trigger] s.outs[i])
    &&& forall|i: int| 0 <= i < s.ins.len() ==> in_ok(c.f, #[trigger] s.ins[i])
    &&& forall|i: int| 0 <= i < s.clobbers.len() ==> (#[trigger] s.clobbers[i]).0 < c.f.insts
    &&& forall|i: int| 0 <= i < s.fixups.len() ==> fixup_ok(c, #[trigger] s.fixups[i])
    &&& s.fixups.len() == 0 ==> uses_exact(c.f, s.g.uses)
    &&& s.pregs.len() == c.m.regs.len()
    &&& forall|p: int|
        0 <= p < s.pregs.len() ==> entries_ok(#[trigger] s.pregs[p], s.g.ranges.len() as int)
            && entries_free(s.g.ranges, s.pregs[p])
    &&& s.vreg_ranges.len() == c.f.num_vregs
    &&& forall|v: int| 0 <= v < s.vreg_ranges.len() ==> vreg_range_ok(s.g, v, #[trigger] s.vreg_ranges[v])
    &&& s.num_ranges <= s.g.ranges.len()
}

/// The sets of live ranges of the physical registers.
pub open spec fn preg_entries(pregs: Seq<PRegData>) -> Seq<Seq<RangeEntry>> {
    Seq::new(pregs.len(), |i: int| pregs[i].allocations@)
}

/// The sets of registers.
pub open spec fn livein_sets(liveins: Seq<BitVec>) -> Seq<Set<int>> {
    Seq::new(liveins.len(), |i: int| liveins[i]@)
}

impl<'a, F: Function> LivenessPass<'a, F> {
    /// The mathematical value.
    pub open spec fn view(&self) -> PassState {
        PassState {
            g: self.g@,
            liveins: livein_sets(self.liveins@),
            outs: self.blockparam_outs@,
            ins: self.blockparam_ins@,
            pregs: preg_entries(self.pregs@),
            clobbers: self.clobbers@,
            fixups: self.multi_fixed_reg_fixups@,
            live: self.live@,
            vreg_ranges: self.vreg_ranges@,
            num_ranges: self.num_ranges as int,
        }
    }

    /// What stays fixed.
    pub open spec fn ctx(&self) -> Ctx {
        Ctx { f: self.func.model(), m: self.env@, cfg: self.cfginfo@ }
    }

    /// The parts of the scan fit together.
    pub open spec fn wf(&self) -> bool {
        &&& self.g.wf()
        &&& self.g.func@ == self.func.model()
        &&& ctx_ok(self.ctx())
        &&& pass_ok(self.ctx(), self@)
        &&& forall|p: int| 0 <= p < self.pregs@.len() ==> (#[trigger] self.pregs@[p]).reg == self.env.regs@[p]
    }
}

/// Register `v` becomes live over `range`; the live range that covers it is returned too.
pub open spec fn pass_live(s: PassState, v: int, range: CodeRange) -> Result<
    (PassState, u32),
    RegAllocError,
> {
    match graph_add_live(s.g, v as u32, range, s.num_ranges) {
        Ok(a) => Ok((PassState { g: a.g, num_ranges: a.num_ranges, ..s }, a.lr)),
        Err(e) => Err(e),
    }
}

/// Physical register `p` is taken over `range`.
pub open spec fn pass_take_preg(s: PassState, range: CodeRange, p: int) -> Result<
    PassState,
    RegAllocError,
> {
    if s.g.ranges.len() >= MAX_ENTRIES {
        Err(RegAllocError::TooLarge)
    } else {
        let lr = LiveRangeIndex(s.g.ranges.len() as u32);
        Ok(
            PassState {
                g: graph_add_range(s.g, fresh_range(range)),
                pregs: s.pregs.update(p, entries_insert(s.pregs[p], LiveRangeKey::of(range), lr)),
                ..s
            },
        )
    }
}

pub proof fn lemma_entries_insert_ok(
    s: Seq<RangeEntry>,
    key: LiveRangeKey,
    lr: LiveRangeIndex,
    n: int,
)
    requires
        entries_ok(s, n),
        lr.0 < n,
        entries_disjoint(entries_insert(s, key, lr)),
    ensures
        entries_ok(entries_insert(s, key, lr), n),
        forall|ranges: Seq<LiveRange>|
            entries_free(ranges, s) && ranges[lr.ix()].vreg.is_invalid()
                ==> #[trigger] entries_free(ranges, entries_insert(s, key, lr)),
{
    lemma_first_overlap(s, key, 0);
    lemma_first_not_before(s, key, 0);
    let t = entries_insert(s, key, lr);
    let i = find_overlap(s, key);
    let p = first_not_before(s, key, 0);
    assert forall|k: int| 0 <= k < t.len() implies (#[trigger] t[k]).1.0 < n by {
        if i < s.len() {
            if k != i {
                assert(t[k] == s[k]);
            }
        } else if k < p {
            assert(t[k] == s[k]);
        } else if k > p {
            assert(t[k] == s[k - 1]);
        }
    }
    assert forall|ranges: Seq<LiveRange>|
        entries_free(ranges, s) && ranges[lr.ix()].vreg.is_invalid() implies #[trigger] entries_free(
        ranges,
        t,
    ) by {
        assert forall|k: int| 0 <= k < t.len() implies ranges[(
        #[trigger] t[k]).1.ix()].vreg.is_invalid() by {
            if i < s.len() {
                if k != i {
                    assert(t[k] == s[k]);
                }
            } else if k < p {
                assert(t[k] == s[k]);
            } else if k > p {
                assert(t[k] == s[k - 1]);
            }
        }
    }
}

/// More live ranges do no harm.
pub proof fn lemma_pass_grown(c: Ctx, s: PassState, t: PassState)
    requires
        pass_ok(c, s),
        t == (PassState { g: t.g, num_ranges: t.num_ranges, ..s }),
        graph_ok(c.f, t.g),
        vregs_in_order(t.g),
        uses_fit(c.f, t.g),
        s.fixups.len() == 0 ==> uses_exact(c.f, t.g.uses),
        marks(c.f, t.g),
        vregs_kept(s.g, t.g),
        t.num_ranges <= t.g.ranges.len(),
    ensures
        pass_ok(c, t),
{
    assert forall|p: int| 0 <= p < t.pregs.len() implies entries_ok(
        #[trigger] t.pregs[p],
        t.g.ranges.len() as int,
    ) && entries_free(t.g.ranges, t.pregs[p]) by {
        assert(entries_ok(s.pregs[p], s.g.ranges.len() as int));
        assert forall|k: int| 0 <= k < t.pregs[p].len() implies t.g.ranges[(
        #[trigger] t.pregs[p][k]).1.ix()].vreg.is_invalid() by {
            assert(s.g.ranges[s.pregs[p][k].1.ix()].vreg.is_invalid());
        }
    }
    assert forall|v: int| 0 <= v < t.vreg_ranges.len() implies vreg_range_ok(
        t.g,
        v,
        #[trigger] t.vreg_ranges[v],
    ) by {
        assert(vreg_range_ok(s.g, v, s.vreg_ranges[v]));
    }
}

impl<'a, F: Function> LivenessPass<'a, F> {
    /// Make a register live over a range.
    fn add_live(&mut self, v: usize, range: CodeRange) -> (r: Result<LiveRangeIndex, RegAllocError>)
        requires
            old(self).wf(),
            v < old(self).ctx().f.num_vregs,
            range.within(old(self).ctx().f.insts),
        ensures
            final(self).ctx() == old(self).ctx(),
            match pass_live(old(self)@, v as int, range) {
                Ok((s, lr)) => {
                    &&& r == Ok::<LiveRangeIndex, RegAllocError>(LiveRangeIndex(lr))
                    &&& final(self)@ == s
                    &&& final(self).wf()
                    &&& vreg_range_ok(s.g, v as int, LiveRangeIndex(lr))
                    &&& lr < s.g.ranges.len()
                    &&& vregs_kept(old(self)@.g, s.g)
                    &&& s.g.ranges[lr as int].range.from.ix() <= range.from.ix()
                    &&& range.to.ix() <= s.g.ranges[lr as int].range.to.ix()
                    &&& s.g.in_vreg[v as int].contains(lr)
                    &&& others_listed(old(self)@.g, s.g, v as u32)
                    &&& spans_stay(old(self)@.g, s.g)
                    &&& held(old(self).ctx().f, old(self)@.g) ==> held(old(self).ctx().f, s.g)
                },
                Err(e) => r == Err::<LiveRangeIndex, RegAllocError>(e) && e is TooLarge,
            },
    {
        let ghost s = self@;
        match self.g.add_liverange_to_vreg(VRegIndex::new(v), range, &mut self.num_ranges) {
            Ok(lr) => {
                proof {
                    law_add_live_in_order(self.ctx().f, s.g, v as u32, range, s.num_ranges);
                    lemma_live_uses(self.ctx().f, s.g, v as u32, range, s.num_ranges);
                    lemma_live_spans(self.ctx().f, s.g, v as u32, range, s.num_ranges);
                    lemma_marks_live(self.ctx().f, s.g, v as u32, range, s.num_ranges);
                    lemma_pass_grown(self.ctx(), s, self@);
                }
                Ok(lr)
            },
            Err(e) => Err(e),
        }
    }

    /// Take a physical register over a range.
    pub fn add_liverange_to_preg(&mut self, range: CodeRange, p: usize) -> (r: Result<
        (),
        RegAllocError,
    >)
        requires
            old(self).wf(),
            p < old(self).ctx().m.regs.len(),
            range.within(old(self).ctx().f.insts),
        ensures
            final(self).ctx() == old(self).ctx(),
            match pass_take_preg(old(self)@, range, p as int) {
                Ok(s) => {
                    &&& r is Ok
                    &&& final(self)@ == s
                    &&& final(self).wf()
                    &&& held(old(self).ctx().f, old(self)@.g) ==> held(old(self).ctx().f, s.g)
                },
                Err(e) => r == Err::<(), RegAllocError>(e) && e is TooLarge,
            },
    {
        let ghost s = self@;
        let lr = match self.g.create_liverange(range) {
            Ok(lr) => lr,
            Err(e) => {
                return Err(e);
            },
        };
        let ghost t = self@;
        proof {
            lemma_shrunk_vregs(s.g, t.g);
            lemma_added_range(self.ctx().f, s.g, fresh_range(range));
            lemma_marks_range(self.ctx().f, s.g, fresh_range(range));
            lemma_pass_grown(self.ctx(), s, t);
            assert(entries_ok(t.pregs[p as int], t.g.ranges.len() as int));
        }
        self.pregs[p].allocations.insert(LiveRangeKey::from_range(&range), lr);
        proof {
            lemma_entries_insert_ok(
                t.pregs[p as int],
                LiveRangeKey::of(range),
                lr,
                t.g.ranges.len() as int,
            );
            let u = self@;
            assert(u.pregs =~= t.pregs.update(
                p as int,
                entries_insert(t.pregs[p as int], LiveRangeKey::of(range), lr),
            ));
            assert(u =~= pass_take_preg(s, range, p as int)->Ok_0);
        }
        Ok(())
    }
}

/// The registers that are live at the start of one of the first `n` blocks.
pub open spec fn live_out(liveins: Seq<Set<int>>, succs: Seq<Block>, n: int) -> Set<int>
    decreases n,
{
    if n <= 0 {
        Set::empty()
    } else {
        live_out(liveins, succs, n - 1).union(liveins[succs[n - 1].ix()])
    }
}

/// Every live register from `v` on becomes live over `range`. Where `note` says so the live
/// ranges are noted as those that the scan is at.
pub open spec fn pass_live_all(s: PassState, range: CodeRange, note: bool, v: int, n: int) -> Result<
    PassState,
    RegAllocError,
>
    decreases n - v,
{
    if v >= n {
        Ok(s)
    } else if s.live.contains(v) {
        match pass_live(s, v, range) {
            Ok((t, lr)) => {
                let u = if note {
                    PassState {
                        vreg_ranges: t.vreg_ranges.update(v, LiveRangeIndex(lr)),
                        ..t
                    }
                } else {
                    t
                };
                pass_live_all(u, range, note, v + 1, n)
            },
            Err(e) => Err(e),
        }
    } else {
        pass_live_all(s, range, note, v + 1, n)
    }
}

/// The parameters of block `b` from position `i` on are entered as such.
pub open spec fn pass_param_data(f: FuncModel, s: PassState, b: Block, i: int) -> PassState
    decreases f.params[b.ix()].len() - i,
{
    if i < 0 || i >= f.params[b.ix()].len() {
        s
    } else {
        let p = f.params[b.ix()][i];
        let t = PassState {
            g: graph_set_vreg(
                s.g,
                p.ix(),
                VRegData { reg: p, blockparam: b, ..s.g.vregs[p.ix()] },
            ),
            ..s
        };
        pass_param_data(f, t, b, i + 1)
    }
}

/// What the last instruction of block `b` hands to the parameters of its first `k` successors.
pub open spec fn block_outs(f: FuncModel, b: Block, k: int) -> Seq<BlockparamOut>
    decreases k,
{
    if k <= 0 {
        Seq::empty()
    } else {
        let succ = f.succs[b.ix()][k - 1];
        let base = params_before(f, f.succs[b.ix()], k - 1);
        let ops = f.operands[f.insns[b.ix()].to.0 - 1];
        block_outs(f, b, k - 1) + Seq::new(
            f.params[succ.ix()].len(),
            |j: int|
                (
                    VRegIndex(ops[base + j].vreg.vreg),
                    b,
                    succ,
                    VRegIndex(f.params[succ.ix()][j].vreg),
                ),
        )
    }
}

/// The values that block `b` hands on, if it ends in a branch.
pub open spec fn pass_outs(f: FuncModel, s: PassState, b: Block) -> PassState {
    if f.branches[f.insns[b.ix()].to.0 - 1] {
        PassState { outs: s.outs + block_outs(f, b, f.succs[b.ix()].len() as int), ..s }
    } else {
        s
    }
}

/// The range of one instruction.
pub open spec fn inst_range(inst: Inst) -> CodeRange {
    CodeRange { from: ProgPoint::before(inst), to: ProgPoint::before(Inst((inst.0 + 1) as u32)) }
}

/// The registers that the instruction overwrites, from position `i` on, are taken over it.
pub open spec fn pass_clobbers(f: FuncModel, s: PassState, inst: Inst, i: int) -> Result<
    PassState,
    RegAllocError,
>
    decreases f.clobbers[inst.ix()].len() - i,
{
    if i < 0 || i >= f.clobbers[inst.ix()].len() {
        Ok(s)
    } else {
        match pass_take_preg(s, inst_range(inst), f.clobbers[inst.ix()][i].ix()) {
            Ok(t) => pass_clobbers(f, t, inst, i + 1),
            Err(e) => Err(e),
        }
    }
}

/// The input that the first reusing operand from position `i` on reuses.
pub open spec fn reused_input(ops: Seq<Operand>, i: int) -> Option<usize>
    decreases ops.len() - i,
{
    if i < 0 || i >= ops.len() {
        None
    } else {
        match ops[i].policy {
            OperandPolicy::Reuse(k) => Some(k),
            _ => reused_input(ops, i + 1),
        }
    }
}

/// Where an operand defines its register.
pub open spec fn def_pos(op: Operand, inst: Inst) -> ProgPoint {
    match op.pos {
        OperandPos::Before => ProgPoint::before(inst),
        OperandPos::Both => ProgPoint::before(inst),
        OperandPos::After => ProgPoint::after(inst),
    }
}

/// Where operand `i` uses its register: at the end of the block in a branch, and after the
/// instruction where another input is reused.
pub open spec fn use_pos(c: Ctx, b: Block, inst: Inst, reused: Option<usize>, i: int) -> ProgPoint {
    let op = c.f.operands[inst.ix()][i];
    if c.f.branches[inst.ix()] {
        c.cfg.block_exit[b.ix()]
    } else if reused is Some && reused->0 != i {
        ProgPoint::after(inst)
    } else if op.pos is Before {
        ProgPoint::before(inst)
    } else {
        ProgPoint::after(inst)
    }
}

/// The register of a definition at `pos` in block `b` has live range `lr`: the live range begins
/// at the definition if it began with the block.
pub open spec fn pass_def_range(
    c: Ctx,
    s: PassState,
    b: Block,
    op: Operand,
    pos: ProgPoint,
    d: DefIndex,
    lr: u32,
) -> Result<PassState, RegAllocError> {
    let r = s.g.ranges[lr as int];
    let trim = r.range.from == c.cfg.block_entry[b.ix()];
    if trim && pos.ix() >= r.range.to.ix() {
        Err(RegAllocError::SSA(op.vreg, pos.inst))
    } else {
        let t = LiveRange {
            range: CodeRange {
                from: if trim {
                    pos
                } else {
                    r.range.from
                },
                to: r.range.to,
            },
            def: d,
            ..r
        };
        Ok(
            PassState {
                g: graph_set_range(s.g, lr, t),
                live: s.live.remove(op.vreg.ix()),
                vreg_ranges: s.vreg_ranges.update(op.vreg.ix(), LiveRangeIndex(u32::MAX)),
                ..s
            },
        )
    }
}

/// Operand `i` defines its register.
pub open spec fn pass_def(c: Ctx, s: PassState, b: Block, inst: Inst, i: int) -> Result<
    PassState,
    RegAllocError,
> {
    let op = c.f.operands[inst.ix()][i];
    let pos = def_pos(op, inst);
    let v = op.vreg.ix();
    if s.g.defs.len() >= MAX_ENTRIES {
        Err(RegAllocError::TooLarge)
    } else {
        let d = DefIndex(s.g.defs.len() as u32);
        let g1 = graph_add_def(s.g, Def { operand: op, pos, slot: i as usize });
        let g2 = graph_set_vreg(g1, v, VRegData { reg: op.vreg, def: d, ..g1.vregs[v] });
        let t = PassState { g: g2, ..s };
        if s.vreg_ranges[v].is_valid() {
            pass_def_range(c, t, b, op, pos, d, s.vreg_ranges[v].0)
        } else {
            match pass_live(t, v, CodeRange { from: pos, to: pos.succ() }) {
                Ok((u, lr)) => pass_def_range(c, u, b, op, pos, d, lr),
                Err(e) => Err(e),
            }
        }
    }
}

/// Operand `i` uses its register.
pub open spec fn pass_use(
    c: Ctx,
    s: PassState,
    b: Block,
    inst: Inst,
    reused: Option<usize>,
    i: int,
) -> Result<PassState, RegAllocError> {
    let op = c.f.operands[inst.ix()][i];
    let pos = use_pos(c, b, inst, reused, i);
    let v = op.vreg.ix();
    if s.g.uses.len() >= MAX_ENTRIES {
        Err(RegAllocError::TooLarge)
    } else {
        match pass_live(s, v, CodeRange { from: c.cfg.block_entry[b.ix()], to: pos.succ() }) {
            Ok((t, lr)) => {
                let u = t.g.uses.len() as u32;
                let g1 = graph_add_use(t.g, Use { operand: op, pos, slot: i as usize });
                match graph_insert_use(g1, lr, u) {
                    Ok(g2) => Ok(
                        PassState {
                            g: g2,
                            live: t.live.insert(v),
                            vreg_ranges: t.vreg_ranges.update(v, LiveRangeIndex(lr)),
                            ..t
                        },
                    ),
                    Err(e) => Err(e),
                }
            },
            Err(e) => Err(e),
        }
    }
}

/// The operands of the instruction from position `i` on.
pub open spec fn pass_operands(
    c: Ctx,
    s: PassState,
    b: Block,
    inst: Inst,
    reused: Option<usize>,
    i: int,
) -> Result<PassState, RegAllocError>
    decreases c.f.operands[inst.ix()].len() - i,
{
    let ops = c.f.operands[inst.ix()];
    if i < 0 || i >= ops.len() {
        Ok(s)
    } else {
        let r = match ops[i].kind {
            OperandKind::Def => pass_def(c, s, b, inst, i),
            OperandKind::Use => pass_use(c, s, b, inst, reused, i),
        };
        match r {
            Ok(t) => pass_operands(c, t, b, inst, reused, i + 1),
            Err(e) => Err(e),
        }
    }
}

/// One instruction of block `b`.
pub open spec fn pass_inst(c: Ctx, s: PassState, b: Block, inst: Inst) -> Result<
    PassState,
    RegAllocError,
> {
    let t = if c.f.clobbers[inst.ix()].len() > 0 {
        PassState { clobbers: s.clobbers.push(inst), ..s }
    } else {
        s
    };
    match pass_clobbers(c.f, t, inst, 0) {
        Ok(u) => pass_operands(c, u, b, inst, reused_input(c.f.operands[inst.ix()], 0), 0),
        Err(e) => Err(e),
    }
}

/// The instructions of block `b` before number `end`, from the last one to the first one.
pub open spec fn pass_insts(c: Ctx, s: PassState, b: Block, end: int) -> Result<
    PassState,
    RegAllocError,
>
    decreases end - c.f.insns[b.ix()].from.0,
{
    if end <= c.f.insns[b.ix()].from.0 {
        Ok(s)
    } else {
        match pass_inst(c, s, b, Inst((end - 1) as u32)) {
            Ok(t) => pass_insts(c, t, b, end - 1),
            Err(e) => Err(e),
        }
    }
}

/// The parameters of block `b` from position `i` on are no longer live before it. One that is not
/// used gets a live range of one point.
pub open spec fn pass_params(c: Ctx, s: PassState, b: Block, i: int) -> Result<
    PassState,
    RegAllocError,
>
    decreases c.f.params[b.ix()].len() - i,
{
    let params = c.f.params[b.ix()];
    if i < 0 || i >= params.len() {
        Ok(s)
    } else {
        let v = params[i].ix();
        let start = c.cfg.block_entry[b.ix()];
        let r = if s.live.contains(v) {
            Ok(PassState { live: s.live.remove(v), ..s })
        } else {
            match pass_live(s, v, CodeRange { from: start, to: start.succ() }) {
                Ok((t, _)) => Ok(t),
                Err(e) => Err(e),
            }
        };
        match r {
            Ok(t) => {
                let preds = c.f.preds[b.ix()];
                let u = PassState {
                    ins: t.ins + Seq::new(
                        preds.len(),
                        |k: int| (VRegIndex(params[i].vreg), b, preds[k]),
                    ),
                    ..t
                };
                pass_params(c, u, b, i + 1)
            },
            Err(e) => Err(e),
        }
    }
}

/// The position of block `b` among the first `n` blocks of the order.
pub open spec fn order_position(blocks: Seq<Block>, b: Block, n: int) -> Option<int>
    decreases n,
{
    if n <= 0 {
        None
    } else if blocks[n - 1] == b {
        Some(n - 1)
    } else {
        order_position(blocks, b, n - 1)
    }
}

/// The least of `min` and the positions of the first `n` of these blocks.
pub open spec fn min_position(blocks: Seq<Block>, preds: Seq<Block>, n: int, min: int) -> int
    decreases n,
{
    if n <= 0 {
        min
    } else {
        let m = min_position(blocks, preds, n - 1, min);
        match order_position(blocks, preds[n - 1], blocks.len() as int) {
            Some(p) => if p < m {
                p
            } else {
                m
            },
            None => m,
        }
    }
}

/// The first position of the loop that ends at position `at`: the least one from which a block
/// at or after it is reached backwards.
pub open spec fn loop_start(c: Ctx, at: int, min: int) -> int
    decreases at + 1,
{
    if at < min || at < 0 {
        min
    } else {
        let preds = c.f.preds[c.cfg.postorder[at].ix()];
        loop_start(c, at - 1, min_position(c.cfg.postorder, preds, preds.len() as int, min))
    }
}

/// The first point of the blocks at positions `lo` to `hi` of the order.
pub open spec fn blocks_begin(cfg: CfgModel, lo: int, hi: int) -> ProgPoint
    decreases hi - lo,
{
    let p = cfg.block_entry[cfg.postorder[hi].ix()];
    if hi <= lo {
        p
    } else {
        let q = blocks_begin(cfg, lo, hi - 1);
        if p.ix() < q.ix() {
            p
        } else {
            q
        }
    }
}

/// The last point of the blocks at positions `lo` to `hi` of the order.
pub open spec fn blocks_end(cfg: CfgModel, lo: int, hi: int) -> ProgPoint
    decreases hi - lo,
{
    let p = cfg.block_exit[cfg.postorder[hi].ix()];
    if hi <= lo {
        p
    } else {
        let q = blocks_end(cfg, lo, hi - 1);
        if p.ix() > q.ix() {
            p
        } else {
            q
        }
    }
}

/// What is live is live at the start of the blocks at positions `lo` up to `hi` too.
pub open spec fn loop_liveins(
    blocks: Seq<Block>,
    liveins: Seq<Set<int>>,
    live: Set<int>,
    lo: int,
    hi: int,
) -> Seq<Set<int>>
    decreases hi - lo,
{
    if hi <= lo {
        liveins
    } else {
        let t = loop_liveins(blocks, liveins, live, lo, hi - 1);
        let b = blocks[hi - 1].ix();
        t.update(b, t[b].union(live))
    }
}

/// Does a loop end at position `at` of the order? A block before it, or the block itself, is reached
/// backwards.
pub open spec fn has_loop(c: Ctx, at: int) -> bool {
    let b = c.cfg.postorder[at];
    loop_start(c, at, at) < at || c.f.preds[b.ix()].contains(b)
}

/// If a loop ends at position `at` of the order, what is live is live over all of it.
pub open spec fn pass_loop(c: Ctx, s: PassState, at: int) -> Result<PassState, RegAllocError> {
    let min = loop_start(c, at, at);
    if has_loop(c, at) {
        let range = CodeRange {
            from: blocks_begin(c.cfg, min, at),
            to: blocks_end(c.cfg, min, at).succ(),
        };
        let t = PassState {
            liveins: loop_liveins(c.cfg.postorder, s.liveins, s.live, min, at + 1),
            ..s
        };
        pass_live_all(t, range, false, 0, c.f.num_vregs as int)
    } else {
        Ok(s)
    }
}

/// The block at position `at` of the order.
pub open spec fn pass_block(c: Ctx, s: PassState, at: int) -> Result<PassState, RegAllocError> {
    let b = c.cfg.postorder[at];
    let succs = c.f.succs[b.ix()];
    let s1 = PassState { live: live_out(s.liveins, succs, succs.len() as int), ..s };
    let range = CodeRange { from: c.cfg.block_entry[b.ix()], to: c.cfg.block_exit[b.ix()].succ() };
    match pass_live_all(s1, range, true, 0, c.f.num_vregs as int) {
        Ok(s2) => {
            let s3 = pass_outs(c.f, pass_param_data(c.f, s2, b, 0), b);
            match pass_insts(c, s3, b, c.f.insns[b.ix()].to.0 as int) {
                Ok(s4) => match pass_params(c, s4, b, 0) {
                    Ok(s5) => match pass_loop(c, s5, at) {
                        Ok(s6) => Ok(
                            PassState { liveins: s6.liveins.update(b.ix(), s6.live), ..s6 },
                        ),
                        Err(e) => Err(e),
                    },
                    Err(e) => Err(e),
                },
                Err(e) => Err(e),
            }
        },
        Err(e) => Err(e),
    }
}

/// The blocks from position `at` of the order on.
pub open spec fn pass_blocks(c: Ctx, s: PassState, at: int) -> Result<PassState, RegAllocError>
    decreases c.cfg.postorder.len() - at,
{
    if at < 0 || at >= c.cfg.postorder.len() {
        Ok(s)
    } else {
        match pass_block(c, s, at) {
            Ok(t) => pass_blocks(c, t, at + 1),
            Err(e) => Err(e),
        }
    }
}

pub proof fn lemma_live_out(liveins: Seq<Set<int>>, succs: Seq<Block>, n: int, bound: int)
    requires
        0 <= n <= succs.len(),
        forall|k: int| 0 <= k < succs.len() ==> (#[trigger] succs[k]).0 < liveins.len(),
        forall|b: int| 0 <= b < liveins.len() ==> set_below(#[trigger] liveins[b], bound),
    ensures
        set_below(live_out(liveins, succs, n), bound),
    decreases n,
{
    if n > 0 {
        lemma_live_out(liveins, succs, n - 1, bound);
        assert(set_below(liveins[succs[n - 1].ix()], bound));
    }
}

/// The live range is one of register `v` that covers the range.
pub open spec fn noted(g: GraphState, range: CodeRange, v: int, lr: LiveRangeIndex) -> bool {
    &&& g.in_vreg[v].contains(lr.0)
    &&& lr.0 < g.ranges.len()
    &&& g.ranges[lr.ix()].vreg.0 == v
    &&& g.ranges[lr.ix()].range.from.ix() <= range.from.ix()
    &&& range.to.ix() <= g.ranges[lr.ix()].range.to.ix()
}

impl<'a, F: Function> LivenessPass<'a, F> {
    /// Begin with what is live at the end of a block: what is live at the start of its
    /// successors.
    fn start_block(&mut self, block: Block)
        requires
            old(self).wf(),
            block.0 < old(self).ctx().f.blocks,
        ensures
            final(self).ctx() == old(self).ctx(),
            final(self).wf(),
            final(self)@ == (PassState {
                live: live_out(
                    old(self)@.liveins,
                    old(self).ctx().f.succs[block.ix()],
                    old(self).ctx().f.succs[block.ix()].len() as int,
                ),
                ..old(self)@
            }),
    {
        let ghost s = self@;
        let ghost c = self.ctx();
        assert(block_ok(c.f, block.ix()));
        let succs = self.func.block_succs(block);
        let mut live = BitVec::new();
        let mut k: usize = 0;
        while k < succs.len()
            invariant
                self@ == s,
                c == self.ctx(),
                ctx_ok(c),
                pass_ok(c, s),
                block_ok(c.f, block.ix()),
                succs@ == c.f.succs[block.ix()],
                k <= succs@.len(),
                live@ == live_out(s.liveins, succs@, k as int),
            decreases succs@.len() - k,
        {
            let succ = succs[k];
            assert(c.f.succs[block.ix()][k as int] == succ);
            assert(self.liveins@[succ.ix()]@ == s.liveins[succ.ix()]);
            live.or(&self.liveins[succ.index()]);
            k += 1;
        }
        proof {
            assert forall|k: int| 0 <= k < succs@.len() implies (#[trigger] succs@[k]).0
                < s.liveins.len() by {
                assert(c.f.succs[block.ix()][k] == succs@[k]);
            }
            lemma_live_out(s.liveins, succs@, succs@.len() as int, c.f.num_vregs as int);
        }
        self.live = live;
    }

    /// Make every live register live over a range.
    fn live_all(&mut self, range: CodeRange, note: bool) -> (r: Result<(), RegAllocError>)
        requires
            old(self).wf(),
            range.within(old(self).ctx().f.insts),
        ensures
            final(self).ctx() == old(self).ctx(),
            match pass_live_all(old(self)@, range, note, 0, old(self).ctx().f.num_vregs as int) {
                Ok(s) => {
                    &&& r is Ok
                    &&& final(self)@ == s
                    &&& final(self).wf()
                    &&& s.g.uses == old(self)@.g.uses
                    &&& s.g.defs == old(self)@.g.defs
                    &&& s.live == old(self)@.live
                    &&& s.liveins == old(self)@.liveins
                    &&& spans_stay(old(self)@.g, s.g)
                    &&& spanned(s.g, s.live, range, old(self).ctx().f.num_vregs as int)
                    &&& held(old(self).ctx().f, old(self)@.g) ==> held(old(self).ctx().f, s.g)
                    &&& !note ==> s.vreg_ranges == old(self)@.vreg_ranges
                    &&& note ==> forall|w: int|
                        0 <= w < s.vreg_ranges.len() ==> if s.live.contains(w) {
                            noted(s.g, range, w, #[trigger] s.vreg_ranges[w])
                        } else {
                            s.vreg_ranges[w] == old(self)@.vreg_ranges[w]
                        }
                },
                Err(e) => r == Err::<(), RegAllocError>(e) && e is TooLarge,
            },
    {
        let ghost s = self@;
        let ghost c = self.ctx();
        let n = self.func.num_vregs();
        let mut v: usize = 0;
        while v < n
            invariant
                self.wf(),
                self.ctx() == c,
                c == old(self).ctx(),
                s == old(self)@,
                n == c.f.num_vregs,
                v <= n,
                range.within(c.f.insts),
                self@.g.uses == s.g.uses,
                self@.g.defs == s.g.defs,
                self@.live == s.live,
                self@.liveins == s.liveins,
                held(c.f, s.g) ==> held(c.f, self@.g),
                spans_stay(s.g, self@.g),
                spanned(self@.g, s.live, range, v as int),
                !note ==> self@.vreg_ranges == s.vreg_ranges,
                forall|w: int|
                    0 <= w < self@.vreg_ranges.len() ==> if note && w < v && s.live.contains(w) {
                        noted(self@.g, range, w, #[trigger] self@.vreg_ranges[w])
                    } else {
                        self@.vreg_ranges[w] == s.vreg_ranges[w]
                    },
                pass_live_all(s, range, note, 0, n as int) == pass_live_all(
                    self@,
                    range,
                    note,
                    v as int,
                    n as int,
                ),
            decreases n - v,
        {
            if self.live.get(v) {
                let ghost t = self@;
                match self.add_live(v, range) {
                    Ok(lr) => {
                        proof {
                            lemma_spans_trans(s.g, t.g, self@.g);
                            lemma_spanned_step(t.g, self@.g, s.live, range, v as int, lr.0);
                            assert forall|x: int|
                                0 <= x < t.vreg_ranges.len() && note && x < v && s.live.contains(x) implies noted(
                                self@.g,
                                range,
                                x,
                                #[trigger] t.vreg_ranges[x],
                            ) by {
                                assert(noted(t.g, range, x, t.vreg_ranges[x]));
                                let r = t.vreg_ranges[x].ix();
                                assert(self@.g.ranges[r].vreg == t.g.ranges[r].vreg);
                                assert(self@.g.in_vreg[x] == t.g.in_vreg[x]);
                            }
                        }
                        if note {
                            let ghost u = self@;
                            self.vreg_ranges.set(v, lr);
                            proof {
                                let w = self@;
                                assert forall|x: int|
                                    0 <= x < w.vreg_ranges.len() implies if x < v + 1
                                    && s.live.contains(x) {
                                    noted(w.g, range, x, #[trigger] w.vreg_ranges[x])
                                } else {
                                    w.vreg_ranges[x] == s.vreg_ranges[x]
                                } by {
                                    if x != v {
                                        assert(t.vreg_ranges[x] == w.vreg_ranges[x]);
                                    }
                                }
                                assert forall|k: int|
                                    0 <= k < w.vreg_ranges.len() implies vreg_range_ok(
                                    w.g,
                                    k,
                                    #[trigger] w.vreg_ranges[k],
                                ) by {
                                    assert(vreg_range_ok(u.g, k, u.vreg_ranges[k]));
                                }
                            }
                        }
                    },
                    Err(e) => {
                        return Err(e);
                    },
                }
            }
            v += 1;
        }
        Ok(())
    }

    /// Enter the parameters of a block as such.
    fn param_data(&mut self, block: Block)
        requires
            old(self).wf(),
            block.0 < old(self).ctx().f.blocks,
        ensures
            final(self).ctx() == old(self).ctx(),
            final(self).wf(),
            final(self)@ == pass_param_data(old(self).ctx().f, old(self)@, block, 0),
            same_flow(old(self)@, final(self)@),
            held(old(self).ctx().f, old(self)@.g) ==> held(old(self).ctx().f, final(self)@.g),
    {
        let ghost s = self@;
        let ghost c = self.ctx();
        assert(block_ok(c.f, block.ix()));
        let params = self.func.block_params(block);
        let mut i: usize = 0;
        while i < params.len()
            invariant
                self.wf(),
                self.ctx() == c,
                block.0 < c.f.blocks,
                block_ok(c.f, block.ix()),
                params@ == c.f.params[block.ix()],
                i <= params@.len(),
                same_flow(s, self@),
                held(c.f, s.g) ==> held(c.f, self@.g),
                pass_param_data(c.f, s, block, 0) == pass_param_data(
                    c.f,
                    self@,
                    block,
                    i as int,
                ),
            decreases params@.len() - i,
        {
            let param = params[i];
            assert(c.f.params[block.ix()][i as int] == param);
            let ghost t = self@;
            proof {
                assert(vreg_ok(c.f, t.g, param.ix()));
            }
            let data = self.g.vregs[param.vreg()];
            self.g.set_vreg(
                VRegIndex::new(param.vreg()),
                VRegData { reg: param, blockparam: block, ..data },
            );
            proof {
                lemma_same_uses(c.f, t.g, self@.g);
                lemma_marks_same(c.f, t.g, self@.g);
                lemma_pass_same_ranges(c, t, self@);
            }
            i += 1;
        }
    }

    /// Note what a block that ends in a branch hands to the parameters of its successors.
    fn outs(&mut self, block: Block)
        requires
            old(self).wf(),
            block.0 < old(self).ctx().f.blocks,
        ensures
            final(self).ctx() == old(self).ctx(),
            final(self).wf(),
            final(self)@ == pass_outs(old(self).ctx().f, old(self)@, block),
    {
        let ghost s = self@;
        let ghost c = self.ctx();
        assert(block_ok(c.f, block.ix()));
        let last = self.func.block_insns(block).last();
        if !self.func.is_branch(last) {
            return ;
        }
        let operands = self.func.inst_operands(last);
        let succs = self.func.block_succs(block);
        let mut i: usize = 0;
        let mut k: usize = 0;
        assert(s.outs + block_outs(c.f, block, 0) =~= s.outs);
        while k < succs.len()
            invariant
                self.wf(),
                self.ctx() == c,
                block.0 < c.f.blocks,
                block_ok(c.f, block.ix()),
                succs@ == c.f.succs[block.ix()],
                last.0 == c.f.insns[block.ix()].to.0 - 1,
                c.f.branches[last.ix()],
                operands@ == c.f.operands[last.ix()],
                k <= succs@.len(),
                i == params_before(c.f, succs@, k as int),
                self@ == (PassState { outs: s.outs + block_outs(c.f, block, k as int), ..s }),
            decreases succs@.len() - k,
        {
            let succ = succs[k];
            assert(c.f.succs[block.ix()][k as int] == succ);
            assert(block_ok(c.f, succ.ix()));
            let params = self.func.block_params(succ);
            let ghost base = i as int;
            let ghost before = self@.outs;
            proof {
                lemma_params_before(c.f, succs@, k as int, succs@.len() as int);
                assert(inst_ok(c.f, last.ix()));
            }
            let mut j: usize = 0;
            let ghost more = Seq::new(
                params@.len(),
                |j: int|
                    (
                        VRegIndex(operands@[base + j].vreg.vreg),
                        block,
                        succ,
                        VRegIndex(params@[j].vreg),
                    ),
            );
            assert(before + more.take(0) =~= before);
            while j < params.len()
                invariant
                    self.wf(),
                    self.ctx() == c,
                    block.0 < c.f.blocks,
                    succ.0 < c.f.blocks,
                    c.f.succs[block.ix()].contains(succ),
                    block_ok(c.f, succ.ix()),
                    params@ == c.f.params[succ.ix()],
                    last.0 < c.f.insts,
                    last.0 == c.f.insns[block.ix()].to.0 - 1,
                    succs@ == c.f.succs[block.ix()],
                    k < succs@.len(),
                    succs@[k as int] == succ,
                    base == params_before(c.f, succs@, k as int),
                    inst_ok(c.f, last.ix()),
                    operands@ == c.f.operands[last.ix()],
                    j <= params@.len(),
                    i == base + j,
                    base >= 0,
                    base + params@.len() <= operands@.len(),
                    more == Seq::new(
                        params@.len(),
                        |j: int|
                            (
                                VRegIndex(operands@[base + j].vreg.vreg),
                                block,
                                succ,
                                VRegIndex(params@[j].vreg),
                            ),
                    ),
                    self@ == (PassState { outs: before + more.take(j as int), ..s }),
                decreases params@.len() - j,
            {
                assert(operand_ok(c.f, last.ix(), c.f.operands[last.ix()][i as int]));
                assert(c.f.params[succ.ix()][j as int].vreg < c.f.num_vregs);
                let from_vreg = VRegIndex::new(operands[i].vreg().vreg());
                let blockparam_vreg = VRegIndex::new(params[j].vreg());
                let ghost t = self@;
                self.blockparam_outs.push((from_vreg, block, succ, blockparam_vreg));
                proof {
                    assert(more.take(j + 1) =~= more.take(j as int).push(more[j as int]));
                    assert(self@.outs =~= before + more.take(j + 1));
                    assert(is_arg(c.f, block, succ, params@[j as int].vreg, k as int, j as int));
                    assert(branch_arg(c.f, block, k as int, j as int) == operands@[i as int]);
                    assert forall|x: int| 0 <= x < self@.outs.len() implies out_ok(
                        c.f,
                        #[trigger] self@.outs[x],
                    ) by {
                        if x < t.outs.len() {
                            assert(out_ok(c.f, t.outs[x]));
                        }
                    }
                    assert(self@ =~= PassState { outs: self@.outs, ..t });
                    assert(pass_ok(c, self@));
                }
                i += 1;
                j += 1;
            }
            proof {
                assert(more.take(params@.len() as int) =~= more);
                assert(before + more =~= s.outs + block_outs(c.f, block, k + 1));
            }
            k += 1;
        }
    }
}

/// The live ranges may keep their number and their registers while other tables change.
pub proof fn lemma_pass_same_ranges(c: Ctx, s: PassState, t: PassState)
    requires
        pass_ok(c, s),
        t == (PassState { g: t.g, ..s }),
        graph_ok(c.f, t.g),
        uses_fit(c.f, t.g),
        s.fixups.len() == 0 ==> uses_exact(c.f, t.g.uses),
        mentions_ok(c, t.g),
        defs_named(c.f, t.g.defs),
        marks(c.f, t.g),
        t.g.bundles.len() == 0,
        t.g.ranges.len() == s.g.ranges.len(),
        t.g.in_vreg == s.g.in_vreg,
        only_shrunk(s.g.ranges, t.g.ranges),
        forall|r: int|
            0 <= r < s.g.ranges.len() ==> (#[trigger] t.g.ranges[r]).vreg == s.g.ranges[r].vreg,
    ensures
        pass_ok(c, t),
{
    lemma_shrunk_vregs(s.g, t.g);
    assert forall|v: int| 0 <= v < t.vreg_ranges.len() implies vreg_range_ok(
        t.g,
        v,
        #[trigger] t.vreg_ranges[v],
    ) by {
        assert(vreg_range_ok(s.g, v, s.vreg_ranges[v]));
    }
    assert forall|p: int| 0 <= p < t.pregs.len() implies entries_ok(
        #[trigger] t.pregs[p],
        t.g.ranges.len() as int,
    ) && entries_free(t.g.ranges, t.pregs[p]) by {
        assert(entries_ok(s.pregs[p], s.g.ranges.len() as int));
        assert forall|k: int| 0 <= k < t.pregs[p].len() implies t.g.ranges[(
        #[trigger] t.pregs[p][k]).1.ix()].vreg.is_invalid() by {
            assert(s.g.ranges[s.pregs[p][k].1.ix()].vreg.is_invalid());
        }
    }
}

impl<'a, F: Function> LivenessPass<'a, F> {
    /// Take the registers that an instruction overwrites over it.
    fn take_clobbers(&mut self, inst: Inst) -> (r: Result<(), RegAllocError>)
        requires
            old(self).wf(),
            inst.0 < old(self).ctx().f.insts,
        ensures
            final(self).ctx() == old(self).ctx(),
            match pass_clobbers(old(self).ctx().f, old(self)@, inst, 0) {
                Ok(s) => {
                    &&& r is Ok
                    &&& final(self)@ == s
                    &&& final(self).wf()
                    &&& same_flow(old(self)@, s)
                    &&& held(old(self).ctx().f, old(self)@.g) ==> held(old(self).ctx().f, s.g)
                },
                Err(e) => r == Err::<(), RegAllocError>(e) && e is TooLarge,
            },
    {
        let ghost s = self@;
        let ghost c = self.ctx();
        assert(inst_regs_ok(c.f, c.m, inst.ix()));
        let clobbers = self.func.inst_clobbers(inst);
        let range = CodeRange {
            from: ProgPoint::before(inst),
            to: ProgPoint::before(inst.next()),
        };
        assert(range == inst_range(inst));
        let mut i: usize = 0;
        while i < clobbers.len()
            invariant
                self.wf(),
                self.ctx() == c,
                c == old(self).ctx(),
                s == old(self)@,
                inst.0 < c.f.insts,
                inst_regs_ok(c.f, c.m, inst.ix()),
                clobbers@ == c.f.clobbers[inst.ix()],
                range == inst_range(inst),
                i <= clobbers@.len(),
                same_flow(s, self@),
                held(c.f, s.g) ==> held(c.f, self@.g),
                pass_clobbers(c.f, s, inst, 0) == pass_clobbers(c.f, self@, inst, i as int),
            decreases clobbers@.len() - i,
        {
            let clobber = clobbers[i];
            assert(c.f.clobbers[inst.ix()][i as int] == clobber);
            match self.add_liverange_to_preg(range, clobber.index()) {
                Ok(()) => {},
                Err(e) => {
                    return Err(e);
                },
            }
            i += 1;
        }
        Ok(())
    }

    /// Let a definition begin or mark a live range.
    fn def_range(
        &mut self,
        block: Block,
        operand: Operand,
        pos: ProgPoint,
        def: DefIndex,
        lr: LiveRangeIndex,
    ) -> (r: Result<(), RegAllocError>)
        requires
            old(self).wf(),
            block.0 < old(self).ctx().f.blocks,
            lr.0 < old(self)@.g.ranges.len(),
            pos.inst.0 < old(self).ctx().f.insts,
            old(self).ctx().f.insns[block.ix()].has(pos.inst.ix()),
            operand.vreg.vreg < old(self).ctx().f.num_vregs,
            old(self)@.g.ranges[lr.ix()].vreg.0 == operand.vreg.vreg,
            def.ix() + 1 == old(self)@.g.defs.len(),
            old(self)@.g.defs[def.ix()].operand.vreg == operand.vreg,
            old(self)@.g.vregs[operand.vreg.ix()].def == def,
            def.is_valid(),
            held_upto(old(self).ctx().f, old(self)@.g, def.ix()),
            old(self)@.g.defs[def.ix()].pos == pos,
            ssa_form(old(self).ctx().f) ==> {
                &&& old(self)@.g.in_vreg[operand.vreg.ix()].contains(lr.0)
                &&& old(self)@.g.ranges[lr.ix()].range.has(pos)
            },
            operand.kind is Def,
            exists|k: int|
                0 <= k < old(self).ctx().f.operands[pos.inst.ix()].len() && #[trigger] old(
                    self,
                ).ctx().f.operands[pos.inst.ix()][k] == operand,
        ensures
            final(self).ctx() == old(self).ctx(),
            match pass_def_range(old(self).ctx(), old(self)@, block, operand, pos, def, lr.0) {
                Ok(s) => {
                    &&& r is Ok
                    &&& final(self)@ == s
                    &&& final(self).wf()
                    &&& held(old(self).ctx().f, s.g)
                    &&& spans_stay_but(
                        old(self)@.g,
                        s.g,
                        operand.vreg.ix(),
                        old(self).ctx().cfg.block_entry[block.ix()].ix(),
                        pos.ix(),
                    )
                },
                Err(e) => r == Err::<(), RegAllocError>(e) && !ssa_form(old(self).ctx().f),
            },
    {
        let ghost s = self@;
        let ghost c = self.ctx();
        assert(range_ok(c.f, s.g, lr.ix()));
        let mut data = self.g.ranges[lr.index()];
        if data.range.from == self.cfginfo.block_entry[block.index()] {
            if pos >= data.range.to {
                return Err(RegAllocError::SSA(operand.vreg(), pos.inst));
            }
            data.range.from = pos;
        }
        data.def = def;
        proof {
            lemma_set_range_ok(c.f, s.g, lr.0, data);
            let k = choose|k: int|
                0 <= k < c.f.operands[pos.inst.ix()].len()
                    && #[trigger] c.f.operands[pos.inst.ix()][k] == operand;
            lemma_trimmed(c.f, s.g, block.ix(), pos.inst.ix(), k, pos, lr.0, data);
            lemma_marks_def(c.f, s.g, lr.0, data, def.ix());
            lemma_spans_trimmed(c.f, s.g, lr.0, data);
        }
        self.g.ranges.set(lr.index(), data);
        let ghost t = self@;
        assert(t.g == graph_set_range(s.g, lr.0, data));
        self.live.set(operand.vreg().vreg(), false);
        self.vreg_ranges.set(operand.vreg().vreg(), LiveRangeIndex::invalid());
        proof {
            lemma_pass_same_ranges(c, s, t);
            let u = self@;
            assert forall|k: int| 0 <= k < u.vreg_ranges.len() implies vreg_range_ok(
                u.g,
                k,
                #[trigger] u.vreg_ranges[k],
            ) by {
                assert(vreg_range_ok(t.g, k, t.vreg_ranges[k]));
            }
        }
        Ok(())
    }

    /// Note a definition of a register.
    fn note_def(&mut self, operand: Operand, pos: ProgPoint, slot: usize) -> (def: DefIndex)
        requires
            old(self).wf(),
            old(self)@.g.defs.len() < MAX_ENTRIES,
            pos.inst.0 < old(self).ctx().f.insts,
            slot < old(self).ctx().f.operands[pos.inst.ix()].len(),
            old(self).ctx().f.operands[pos.inst.ix()][slot as int] == operand,
            pos == def_pos(operand, pos.inst),
            operand.kind is Def,
            operand.vreg.vreg < old(self).ctx().f.num_vregs,
            operand_reg_ok(old(self).ctx(), operand),
            ssa_form(old(self).ctx().f) ==> forall|d: int|
                0 <= d < old(self)@.g.defs.len() ==> (
                #[trigger] old(self)@.g.defs[d]).operand.vreg.vreg != operand.vreg.vreg,
        ensures
            final(self).ctx() == old(self).ctx(),
            final(self).wf(),
            def.0 == old(self)@.g.defs.len(),
            ({
                let v = operand.vreg.ix();
                let g = graph_add_def(old(self)@.g, Def { operand, pos, slot });
                final(self)@ == (PassState {
                    g: graph_set_vreg(g, v, VRegData { reg: operand.vreg, def, ..g.vregs[v] }),
                    ..old(self)@
                })
            }),
            held(old(self).ctx().f, old(self)@.g) ==> held_upto(
                old(self).ctx().f,
                final(self)@.g,
                old(self)@.g.defs.len() as int,
            ),
    {
        let ghost s = self@;
        let ghost c = self.ctx();
        let v = operand.vreg().vreg();
        assert(vreg_ok(c.f, s.g, v as int));
        let def = self.g.add_def(Def { operand, pos, slot });
        assert forall|d: int| 0 <= d < self.g@.defs.len() implies operand_reg_ok(
            c,
            (#[trigger] self.g@.defs[d]).operand,
        ) by {
            if d < s.g.defs.len() {
                assert(operand_reg_ok(c, s.g.defs[d].operand));
            }
        }
        let data = self.g.vregs[v];
        self.g.set_vreg(VRegIndex::new(v), VRegData { reg: operand.vreg(), def, ..data });
        proof {
            lemma_same_uses(c.f, s.g, self@.g);
            lemma_marks_new(c.f, s.g, self@.g, v as u32, Def { operand, pos, slot });
            lemma_pass_same_ranges(c, s, self@);
        }
        def
    }

    /// The live range that a definition begins or marks: the one that the scan is at, or a new one
    /// over the definition alone.
    fn range_of_def(&mut self, v: usize, pos: ProgPoint, Ghost(n): Ghost<int>) -> (r: Result<
        LiveRangeIndex,
        RegAllocError,
    >)
        requires
            old(self).wf(),
            v < old(self).ctx().f.num_vregs,
            pos.inst.0 < old(self).ctx().f.insts,
            held_upto(old(self).ctx().f, old(self)@.g, n),
            n <= old(self)@.g.defs.len(),
        ensures
            final(self).ctx() == old(self).ctx(),
            if old(self)@.vreg_ranges[v as int].is_valid() {
                &&& r == Ok::<LiveRangeIndex, RegAllocError>(old(self)@.vreg_ranges[v as int])
                &&& final(self)@ == old(self)@
            } else {
                match pass_live(old(self)@, v as int, CodeRange { from: pos, to: pos.succ() }) {
                    Ok((s, lr)) => {
                        &&& r == Ok::<LiveRangeIndex, RegAllocError>(LiveRangeIndex(lr))
                        &&& final(self)@ == s
                        &&& s.g.in_vreg[v as int].contains(lr)
                        &&& s.g.ranges[lr as int].range.has(pos)
                    },
                    Err(e) => r == Err::<LiveRangeIndex, RegAllocError>(e) && e is TooLarge,
                }
            },
            r is Ok ==> {
                &&& final(self).wf()
                &&& r->Ok_0.0 < final(self)@.g.ranges.len()
                &&& final(self)@.g.ranges[r->Ok_0.ix()].vreg.0 == v
                &&& held_upto(old(self).ctx().f, final(self)@.g, n)
                &&& others_listed(old(self)@.g, final(self)@.g, v as u32)
                &&& vregs_kept(old(self)@.g, final(self)@.g)
                &&& spans_stay(old(self)@.g, final(self)@.g)
            },
    {
        let ghost t = self@;
        let ghost c = self.ctx();
        assert(vreg_range_ok(t.g, v as int, t.vreg_ranges[v as int]));
        let lr = self.vreg_ranges[v];
        if !lr.is_invalid() {
            return Ok(lr);
        }
        let range = CodeRange { from: pos, to: pos.next() };
        match self.add_live(v, range) {
            Ok(lr) => {
                proof {
                    lemma_upto_live(c.f, t.g, v as u32, range, t.num_ranges, n);
                }
                Ok(lr)
            },
            Err(e) => Err(e),
        }
    }

    /// Enter a definition.
    fn process_def(&mut self, block: Block, inst: Inst, i: usize, Ghost(at): Ghost<int>) -> (r:
        Result<(), RegAllocError>)
        requires
            old(self).wf(),
            0 <= at < old(self).ctx().cfg.postorder.len(),
            old(self).ctx().cfg.postorder[at] == block,
            flows_in(old(self).ctx(), old(self)@, at, inst.ix() + 1, i as int),
            block.0 < old(self).ctx().f.blocks,
            inst.0 < old(self).ctx().f.insts,
            old(self).ctx().f.insns[block.ix()].has(inst.ix()),
            i < old(self).ctx().f.operands[inst.ix()].len(),
            old(self).ctx().f.operands[inst.ix()][i as int].kind is Def,
        ensures
            final(self).ctx() == old(self).ctx(),
            match pass_def(old(self).ctx(), old(self)@, block, inst, i as int) {
                Ok(s) => {
                    &&& r is Ok
                    &&& final(self)@ == s
                    &&& final(self).wf()
                    &&& s.g.uses == old(self)@.g.uses
                    &&& flows_in(old(self).ctx(), s, at, inst.ix() + 1, i + 1)
                },
                Err(e) => {
                    &&& r == Err::<(), RegAllocError>(e)
                    &&& e is SSA ==> !ssa_form(old(self).ctx().f)
                },
            },
    {
        let ghost s = self@;
        let ghost c = self.ctx();
        assert(inst_ok(c.f, inst.ix()));
        assert(operand_ok(c.f, inst.ix(), c.f.operands[inst.ix()][i as int]));
        assert(inst_regs_ok(c.f, c.m, inst.ix()));
        proof {
            lemma_demanded(c, inst.ix(), i as int);
        }
        let operand = self.func.inst_operands(inst)[i];
        let pos = match operand.pos() {
            OperandPos::Before | OperandPos::Both => ProgPoint::before(inst),
            OperandPos::After => ProgPoint::after(inst),
        };
        assert(pos == def_pos(operand, inst));
        if self.g.defs.len() >= MAX_ENTRIES as usize {
            return Err(RegAllocError::TooLarge);
        }
        let v = operand.vreg().vreg();
        proof {
            assert(vreg_range_ok(s.g, v as int, s.vreg_ranges[v as int]));
            lemma_no_def_yet(c, s.g.defs, at, inst.ix(), i as int);
        }
        let def = self.note_def(operand, pos, i);
        let ghost t = self@;
        let ghost n = s.g.defs.len() as int;
        let lr = match self.range_of_def(v, pos, Ghost(n)) {
            Ok(lr) => lr,
            Err(e) => {
                return Err(e);
            },
        };
        let ghost u = self@;
        proof {
            if ssa_form(c.f) && s.vreg_ranges[v as int].is_valid() {
                lemma_def_met(c, s, at, inst.ix(), i as int);
                assert(Inst(inst.ix() as u32) == inst);
            }
        }
        match self.def_range(block, operand, pos, def, lr) {
            Ok(()) => {},
            Err(e) => {
                return Err(e);
            },
        }
        proof {
            let w = self@;
            assert(w.g.in_vreg == u.g.in_vreg);
            assert(w.g.defs.take(n) =~= s.g.defs);
            assert(others_listed(s.g, u.g, v as u32));
            assert(others_listed(u.g, w.g, v as u32));
            lemma_listed_trans(s.g, u.g, w.g, v as u32);
            lemma_spans_same(c.f, s.g, t.g);
            lemma_spans_trans(s.g, t.g, u.g);
            lemma_spans_then(
                s.g,
                u.g,
                w.g,
                v as int,
                c.cfg.block_entry[block.ix()].ix(),
                pos.ix(),
            );
            assert(block_ok(c.f, block.ix()));
            lemma_flows_def(c, s, w, at, inst.ix(), i as int, pos.ix());
        }
        Ok(())
    }

    /// Enter a use.
    fn process_use(
        &mut self,
        block: Block,
        inst: Inst,
        reused: Option<usize>,
        i: usize,
        Ghost(at): Ghost<int>,
    ) -> (r: Result<(), RegAllocError>)
        requires
            old(self).wf(),
            0 <= at < old(self).ctx().cfg.postorder.len(),
            old(self).ctx().cfg.postorder[at] == block,
            flows_in(old(self).ctx(), old(self)@, at, inst.ix() + 1, i as int),
            block.0 < old(self).ctx().f.blocks,
            inst.0 < old(self).ctx().f.insts,
            old(self).ctx().f.insns[block.ix()].has(inst.ix()),
            i < old(self).ctx().f.operands[inst.ix()].len(),
            old(self).ctx().f.operands[inst.ix()][i as int].kind is Use,
            reused == reused_input(old(self).ctx().f.operands[inst.ix()], 0),
            old(self).ctx().f.branches[inst.ix()] ==> inst.0 == old(
                self,
            ).ctx().f.insns[block.ix()].to.0 - 1,
        ensures
            final(self).ctx() == old(self).ctx(),
            match pass_use(old(self).ctx(), old(self)@, block, inst, reused, i as int) {
                Ok(s) => {
                    &&& r is Ok
                    &&& final(self)@ == s
                    &&& final(self).wf()
                    &&& s.g.uses.len() == old(self)@.g.uses.len() + 1
                    &&& s.g.uses.take(old(self)@.g.uses.len() as int) == old(self)@.g.uses
                    &&& s.g.uses.last().pos.inst == inst
                    &&& s.g.uses.last().slot == i
                    &&& flows_in(old(self).ctx(), s, at, inst.ix() + 1, i + 1)
                },
                Err(e) => r == Err::<(), RegAllocError>(e) && e is TooLarge,
            },
    {
        let ghost s = self@;
        let ghost c = self.ctx();
        assert(inst_ok(c.f, inst.ix()));
        assert(block_ok(c.f, block.ix()));
        assert(operand_ok(c.f, inst.ix(), c.f.operands[inst.ix()][i as int]));
        assert(inst_regs_ok(c.f, c.m, inst.ix()));
        proof {
            lemma_demanded(c, inst.ix(), i as int);
        }
        let operand = self.func.inst_operands(inst)[i];
        let mut pos = match operand.pos() {
            OperandPos::Before => ProgPoint::before(inst),
            OperandPos::Both | OperandPos::After => ProgPoint::after(inst),
        };
        match reused {
            Some(k) => {
                if k != i {
                    pos = ProgPoint::after(inst);
                }
            },
            None => {},
        }
        if self.func.is_branch(inst) {
            pos = self.cfginfo.block_exit[block.index()];
        }
        assert(pos == use_pos(c, block, inst, reused, i as int));
        if self.g.uses.len() >= MAX_ENTRIES as usize {
            return Err(RegAllocError::TooLarge);
        }
        let v = operand.vreg().vreg();
        let range = CodeRange {
            from: self.cfginfo.block_entry[block.index()],
            to: pos.next(),
        };
        let lr = match self.add_live(v, range) {
            Ok(lr) => lr,
            Err(e) => {
                return Err(e);
            },
        };
        let ghost t = self@;
        let u = self.g.add_use(Use { operand, pos, slot: i });
        let ghost g1 = self.g@;
        assert forall|k: int| 0 <= k < g1.uses.len() implies operand_reg_ok(
            c,
            (#[trigger] g1.uses[k]).operand,
        ) by {
            if k < t.g.uses.len() {
                assert(operand_reg_ok(c, t.g.uses[k].operand));
            }
        }
        match self.g.insert_use_into_liverange_and_update_stats(lr, u) {
            Ok(()) => {},
            Err(e) => {
                return Err(e);
            },
        }
        self.live.set(v, true);
        self.vreg_ranges.set(v, lr);
        proof {
            let w = self@;
            lemma_use_added(c.f, t.g, lr.0, Use { operand, pos, slot: i });
            assert(w.g.uses == s.g.uses.push(Use { operand, pos, slot: i }));
            assert(w.g.uses.take(s.g.uses.len() as int) =~= s.g.uses);
            lemma_marks_same(c.f, t.g, w.g);
            lemma_pass_same_ranges(c, t, PassState { g: w.g, ..t });
            assert(others_listed(t.g, w.g, v as u32));
            lemma_listed_trans(s.g, t.g, w.g, v as u32);
            lemma_spans_same(c.f, t.g, w.g);
            lemma_spans_trans(s.g, t.g, w.g);
            lemma_flows_use(c, s, w, at, inst.ix(), i as int, lr);
            assert forall|k: int| 0 <= k < w.vreg_ranges.len() implies vreg_range_ok(
                w.g,
                k,
                #[trigger] w.vreg_ranges[k],
            ) by {
                assert(vreg_range_ok(t.g, k, t.vreg_ranges[k]));
            }
        }
        Ok(())
    }
}

impl<'a, F: Function> LivenessPass<'a, F> {
    /// The input that an operand of the instruction reuses, if there is one.
    fn find_reused_input(&self, inst: Inst) -> (r: Option<usize>)
        requires
            self.wf(),
            inst.0 < self.ctx().f.insts,
        ensures
            r == reused_input(self.ctx().f.operands[inst.ix()], 0),
    {
        let operands = self.func.inst_operands(inst);
        let mut i: usize = 0;
        while i < operands.len()
            invariant
                operands@ == self.ctx().f.operands[inst.ix()],
                i <= operands@.len(),
                reused_input(operands@, 0) == reused_input(operands@, i as int),
            decreases operands@.len() - i,
        {
            match operands[i].policy() {
                OperandPolicy::Reuse(k) => {
                    return Some(k);
                },
                _ => {},
            }
            i += 1;
        }
        None
    }

    /// Enter the operands and clobbers of an instruction.
    fn process_inst(&mut self, block: Block, inst: Inst, Ghost(at): Ghost<int>) -> (r: Result<
        (),
        RegAllocError,
    >)
        requires
            old(self).wf(),
            0 <= at < old(self).ctx().cfg.postorder.len(),
            old(self).ctx().cfg.postorder[at] == block,
            block.0 < old(self).ctx().f.blocks,
            inst.0 < old(self).ctx().f.insts,
            old(self).ctx().f.insns[block.ix()].has(inst.ix()),
            scanned(old(self).ctx(), old(self)@.g.uses, at, inst.ix() + 1, 0),
            flows_in(old(self).ctx(), old(self)@, at, inst.ix() + 1, 0),
        ensures
            final(self).ctx() == old(self).ctx(),
            match pass_inst(old(self).ctx(), old(self)@, block, inst) {
                Ok(s) => {
                    &&& r is Ok
                    &&& final(self)@ == s
                    &&& final(self).wf()
                    &&& scanned(old(self).ctx(), s.g.uses, at, inst.ix(), 0)
                    &&& flows_in(old(self).ctx(), s, at, inst.ix(), 0)
                },
                Err(e) => {
                    &&& r == Err::<(), RegAllocError>(e)
                    &&& e is SSA ==> !ssa_form(old(self).ctx().f)
                },
            },
    {
        let ghost s0 = self@;
        let ghost c = self.ctx();
        assert(block_ok(c.f, block.ix()));
        if self.func.inst_clobbers(inst).len() > 0 {
            self.clobbers.push(inst);
            proof {
                assert forall|i: int| 0 <= i < self@.clobbers.len() implies (
                #[trigger] self@.clobbers[i]).0 < c.f.insts by {
                    if i < s0.clobbers.len() {
                        assert(s0.clobbers[i].0 < c.f.insts);
                    }
                }
                assert(self@ =~= PassState { clobbers: s0.clobbers.push(inst), ..s0 });
                assert(pass_ok(c, self@));
            }
        }
        match self.take_clobbers(inst) {
            Ok(()) => {},
            Err(e) => {
                return Err(e);
            },
        }
        proof {
            lemma_flows_same(c, s0, self@, at, inst.ix() + 1, 0);
        }
        let reused = self.find_reused_input(inst);
        let n = self.func.inst_operands(inst).len();
        let ghost s = self@;
        let mut i: usize = 0;
        while i < n
            invariant
                self.wf(),
                self.ctx() == c,
                c == old(self).ctx(),
                block.0 < c.f.blocks,
                inst.0 < c.f.insts,
                c.f.insns[block.ix()].has(inst.ix()),
                block_ok(c.f, block.ix()),
                n == c.f.operands[inst.ix()].len(),
                reused == reused_input(c.f.operands[inst.ix()], 0),
                i <= n,
                0 <= at < c.cfg.postorder.len(),
                c.cfg.postorder[at] == block,
                scanned(c, self@.g.uses, at, inst.ix() + 1, i as int),
                flows_in(c, self@, at, inst.ix() + 1, i as int),
                pass_inst(c, old(self)@, block, inst) == pass_operands(c, s, block, inst, reused, 0),
                pass_operands(c, s, block, inst, reused, 0) == pass_operands(
                    c,
                    self@,
                    block,
                    inst,
                    reused,
                    i as int,
                ),
            decreases n - i,
        {
            let ghost before = self@.g.uses;
            let operand = self.func.inst_operands(inst)[i];
            let r = match operand.kind() {
                OperandKind::Def => self.process_def(block, inst, i, Ghost(at)),
                OperandKind::Use => self.process_use(block, inst, reused, i, Ghost(at)),
            };
            match r {
                Ok(()) => {},
                Err(e) => {
                    return Err(e);
                },
            }
            proof {
                lemma_operand_scanned(c, before, self@.g.uses, at, inst.ix(), i as int);
            }
            i += 1;
        }
        proof {
            lemma_sites_exist(c.f, self@.g);
            lemma_inst_scanned(c, self@.g.uses, at, inst.ix());
            lemma_defs_inst(c, self@.g.defs, at, inst.ix(), n as int);
            lemma_in_inst(c, self@, at, inst.ix(), n as int);
        }
        Ok(())
    }

    /// Enter the instructions of a block, from the last one to the first one.
    fn process_insts(&mut self, block: Block, Ghost(at): Ghost<int>) -> (r: Result<
        (),
        RegAllocError,
    >)
        requires
            old(self).wf(),
            0 <= at < old(self).ctx().cfg.postorder.len(),
            old(self).ctx().cfg.postorder[at] == block,
            block.0 < old(self).ctx().f.blocks,
            blocks_scanned(old(self).ctx(), old(self)@.g.uses, at),
            flows_in(old(self).ctx(), old(self)@, at, 0x1_0000_0000, 0),
        ensures
            final(self).ctx() == old(self).ctx(),
            match pass_insts(
                old(self).ctx(),
                old(self)@,
                block,
                old(self).ctx().f.insns[block.ix()].to.0 as int,
            ) {
                Ok(s) => {
                    &&& r is Ok
                    &&& final(self)@ == s
                    &&& final(self).wf()
                    &&& blocks_scanned(old(self).ctx(), s.g.uses, at + 1)
                    &&& flows_in(
                        old(self).ctx(),
                        s,
                        at,
                        old(self).ctx().f.insns[block.ix()].from.0 as int,
                        0,
                    )
                },
                Err(e) => {
                    &&& r == Err::<(), RegAllocError>(e)
                    &&& e is SSA ==> !ssa_form(old(self).ctx().f)
                },
            },
    {
        let ghost s = self@;
        let ghost c = self.ctx();
        assert(block_ok(c.f, block.ix()));
        let insns = self.func.block_insns(block);
        let mut end: u32 = insns.to.0;
        proof {
            lemma_sites_exist(c.f, s.g);
            lemma_block_begun(c, s.g.uses, at);
            lemma_defs_begun(c, s.g.defs, at, insns.to.0 as int);
            lemma_in_begun(c, s, at, 0x1_0000_0000);
        }
        while end > insns.from.0
            invariant
                0 <= at < c.cfg.postorder.len(),
                c.cfg.postorder[at] == block,
                scanned(c, self@.g.uses, at, end as int, 0),
                flows_in(c, self@, at, end as int, 0),
                self.wf(),
                self.ctx() == c,
                c == old(self).ctx(),
                s == old(self)@,
                block.0 < c.f.blocks,
                block_ok(c.f, block.ix()),
                insns == c.f.insns[block.ix()],
                insns.from.0 <= end <= insns.to.0,
                pass_insts(c, s, block, insns.to.0 as int) == pass_insts(
                    c,
                    self@,
                    block,
                    end as int,
                ),
            decreases end,
        {
            match self.process_inst(block, Inst(end - 1), Ghost(at)) {
                Ok(()) => {},
                Err(e) => {
                    return Err(e);
                },
            }
            end -= 1;
        }
        proof {
            lemma_sites_exist(c.f, self@.g);
            lemma_block_scanned(c, self@.g.uses, at);
        }
        Ok(())
    }

    /// Enter the parameters of a block at its start.
    fn process_params(&mut self, block: Block, Ghost(at): Ghost<int>) -> (r: Result<
        (),
        RegAllocError,
    >)
        requires
            old(self).wf(),
            0 <= at < old(self).ctx().cfg.postorder.len(),
            old(self).ctx().cfg.postorder[at] == block,
            block.0 < old(self).ctx().f.blocks,
            ssa_form(old(self).ctx().f) ==> block_flow(
                old(self).ctx(),
                old(self)@.live,
                old(self)@.liveins,
                old(self)@.vreg_ranges,
                at,
            ),
            edges_live_in(
                old(self).ctx(),
                old(self)@,
                at,
                old(self).ctx().f.insns[block.ix()].from.0 as int,
                0,
            ),
        ensures
            final(self).ctx() == old(self).ctx(),
            match pass_params(old(self).ctx(), old(self)@, block, 0) {
                Ok(s) => {
                    &&& r is Ok
                    &&& final(self)@ == s
                    &&& final(self).wf()
                    &&& s.g.uses == old(self)@.g.uses
                    &&& s.g.defs == old(self)@.g.defs
                    &&& ssa_form(old(self).ctx().f) ==> block_flow(
                        old(self).ctx(),
                        s.live,
                        s.liveins,
                        s.vreg_ranges,
                        at,
                    )
                    &&& held(old(self).ctx().f, old(self)@.g) ==> held(old(self).ctx().f, s.g)
                    &&& edges_live_in(
                        old(self).ctx(),
                        s,
                        at,
                        old(self).ctx().f.insns[block.ix()].from.0 as int,
                        0,
                    )
                    &&& params_live(
                        old(self).ctx(),
                        s.g,
                        block,
                        old(self).ctx().f.params[block.ix()].len() as int,
                    )
                },
                Err(e) => r == Err::<(), RegAllocError>(e) && e is TooLarge,
            },
    {
        let ghost s = self@;
        let ghost c = self.ctx();
        let ghost first = c.f.insns[block.ix()].from.0 as int;
        assert(block_ok(c.f, block.ix()));
        let params = self.func.block_params(block);
        let preds = self.func.block_preds(block);
        let mut i: usize = 0;
        while i < params.len()
            invariant
                self.wf(),
                self.ctx() == c,
                c == old(self).ctx(),
                s == old(self)@,
                block.0 < c.f.blocks,
                block_ok(c.f, block.ix()),
                params@ == c.f.params[block.ix()],
                preds@ == c.f.preds[block.ix()],
                i <= params@.len(),
                self@.g.uses == s.g.uses,
                self@.g.defs == s.g.defs,
                0 <= at < c.cfg.postorder.len(),
                c.cfg.postorder[at] == block,
                ssa_form(c.f) ==> block_flow(c, self@.live, self@.liveins, self@.vreg_ranges, at),
                held(c.f, s.g) ==> held(c.f, self@.g),
                first == c.f.insns[block.ix()].from.0,
                edges_live_in(c, self@, at, first, 0),
                params_live(c, self@.g, block, i as int),
                pass_params(c, s, block, 0) == pass_params(c, self@, block, i as int),
            decreases params@.len() - i,
        {
            let ghost t0 = self@;
            assert(c.f.params[block.ix()][i as int].vreg < c.f.num_vregs);
            let v = params[i].vreg();
            if self.live.get(v) {
                self.live.set(v, false);
                assert(self@ =~= PassState { live: t0.live.remove(v as int), ..t0 });
                assert(pass_ok(c, self@));
                proof {
                    if ssa_form(c.f) {
                        lemma_flow_param(c, t0.live, t0.liveins, t0.vreg_ranges, at, i as int);
                    }
                }
            } else {
                let start = self.cfginfo.block_entry[block.index()];
                let range = CodeRange { from: start, to: start.next() };
                match self.add_live(v, range) {
                    Ok(lr) => {
                        proof {
                            lemma_listed_covers(self@.g, v as int, lr.0, start.ix());
                        }
                    },
                    Err(e) => {
                        return Err(e);
                    },
                }
            }
            let vreg_idx = VRegIndex::new(v);
            let ghost t = self@;
            let ghost more = Seq::new(
                preds@.len(),
                |k: int| (VRegIndex(params@[i as int].vreg), block, preds@[k]),
            );
            assert(t.ins + more.take(0) =~= t.ins);
            let mut k: usize = 0;
            while k < preds.len()
                invariant
                    self.wf(),
                    self.ctx() == c,
                    block.0 < c.f.blocks,
                    block_ok(c.f, block.ix()),
                    preds@ == c.f.preds[block.ix()],
                    vreg_idx.0 < c.f.num_vregs,
                    takes_param(c.f, block, vreg_idx.0),
                    more.len() == preds@.len(),
                    forall|j: int| 0 <= j < more.len() ==> #[trigger] more[j] == (vreg_idx, block, preds@[j]),
                    k <= preds@.len(),
                    self@ == (PassState { ins: t.ins + more.take(k as int), ..t }),
                decreases preds@.len() - k,
            {
                let ghost u = self@;
                assert(c.f.preds[block.ix()][k as int].0 < c.f.blocks);
                self.blockparam_ins.push((vreg_idx, block, preds[k]));
                proof {
                    assert(more.take(k + 1) =~= more.take(k as int).push(more[k as int]));
                    assert(self@.ins =~= t.ins + more.take(k + 1));
                    assert forall|x: int| 0 <= x < self@.ins.len() implies in_ok(
                        c.f,
                        #[trigger] self@.ins[x],
                    ) by {
                        if x < u.ins.len() {
                            assert(in_ok(c.f, u.ins[x]));
                        }
                    }
                    assert(self@ =~= PassState { ins: self@.ins, ..u });
                    assert(pass_ok(c, self@));
                }
                k += 1;
            }
            proof {
                assert(more.take(preds@.len() as int) =~= more);
                lemma_params_step(c, t0, self@, at, first, i as int);
            }
            i += 1;
        }
        Ok(())
    }

    /// The position of each block in the order.
    fn order_positions(&self) -> (r: IndexVec)
        requires
            self.wf(),
        ensures
            r@.len() == self.ctx().f.blocks,
            forall|b: int|
                0 <= b < r@.len() ==> position_entry(self.ctx().cfg.postorder, Block(b as u32), #[trigger] r@[b]),
    {
        let ghost c = self.ctx();
        let mut r = small_from_elem(u32::MAX, self.func.blocks());
        let n = self.cfginfo.postorder.len();
        proof {
            lemma_order_short(c);
        }
        let mut i: usize = 0;
        while i < n
            invariant
                self.wf(),
                self.ctx() == c,
                n == c.cfg.postorder.len(),
                n <= c.f.blocks,
                i <= n,
                r@.len() == c.f.blocks,
                forall|b: int|
                    0 <= b < r@.len() ==> (match order_position(
                        c.cfg.postorder,
                        Block(b as u32),
                        i as int,
                    ) {
                        Some(p) => #[trigger] r@[b] == p,
                        None => r@[b] == u32::MAX,
                    }),
            decreases n - i,
        {
            let block = self.cfginfo.postorder[i];
            assert(c.cfg.postorder[i as int].0 < c.f.blocks);
            let ghost before = r@;
            small_set(&mut r, block.index(), i as u32);
            proof {
                assert forall|b: int| 0 <= b < r@.len() implies (match order_position(
                    c.cfg.postorder,
                    Block(b as u32),
                    i + 1,
                ) {
                    Some(p) => #[trigger] r@[b] == p,
                    None => r@[b] == u32::MAX,
                }) by {
                    assert(before[b] == before[b]);
                    if b == block.ix() {
                        assert(Block(b as u32) == block);
                    }
                }
            }
            i += 1;
        }
        proof {
            assert forall|b: int| 0 <= b < r@.len() implies position_entry(
                c.cfg.postorder,
                Block(b as u32),
                #[trigger] r@[b],
            ) by {
                lemma_order_position(c.cfg.postorder, Block(b as u32), n as int);
            }
        }
        r
    }

    /// The first position of the loop that ends at position `at` of the order.
    fn find_loop_start(&self, positions: &IndexVec, at: usize) -> (min: usize)
        requires
            self.wf(),
            at < self.ctx().cfg.postorder.len(),
            positions@.len() == self.ctx().f.blocks,
            forall|b: int|
                0 <= b < positions@.len() ==> position_entry(
                    self.ctx().cfg.postorder,
                    Block(b as u32),
                    #[trigger] positions@[b],
                ),
        ensures
            min == loop_start(self.ctx(), at as int, at as int),
            min <= at,
    {
        let ghost c = self.ctx();
        let mut min_pred = at;
        let mut scan = at;
        let mut done = false;
        while !done && scan >= min_pred
            invariant
                self.wf(),
                self.ctx() == c,
                at < c.cfg.postorder.len(),
                positions@.len() == c.f.blocks,
                forall|b: int|
                    0 <= b < positions@.len() ==> position_entry(
                        c.cfg.postorder,
                        Block(b as u32),
                        #[trigger] positions@[b],
                    ),
                scan <= at,
                min_pred <= at,
                done ==> loop_start(c, at as int, at as int) == min_pred,
                !done ==> loop_start(c, at as int, at as int) == loop_start(
                    c,
                    scan as int,
                    min_pred as int,
                ),
            decreases scan + (if done {
                0int
            } else {
                1int
            }),
        {
            let block = self.cfginfo.postorder[scan];
            assert(c.cfg.postorder[scan as int].0 < c.f.blocks);
            assert(block_ok(c.f, block.ix()));
            let preds = self.func.block_preds(block);
            let ghost min0 = min_pred as int;
            let mut k: usize = 0;
            while k < preds.len()
                invariant
                    self.wf(),
                    self.ctx() == c,
                    at < c.cfg.postorder.len(),
                    positions@.len() == c.f.blocks,
                    forall|b: int|
                        0 <= b < positions@.len() ==> position_entry(
                            c.cfg.postorder,
                            Block(b as u32),
                            #[trigger] positions@[b],
                        ),
                    block_ok(c.f, block.ix()),
                    preds@ == c.f.preds[block.ix()],
                    k <= preds@.len(),
                    min_pred <= at,
                    min_pred == min_position(c.cfg.postorder, preds@, k as int, min0),
                decreases preds@.len() - k,
            {
                let pred = preds[k];
                assert(c.f.preds[block.ix()][k as int].0 < c.f.blocks);
                let p: u32 = small_get(positions, pred.index());
                assert(position_entry(c.cfg.postorder, pred, positions@[pred.ix()]));
                if p != u32::MAX && (p as usize) < min_pred {
                    min_pred = p as usize;
                }
                k += 1;
            }
            if scan == 0 {
                done = true;
                assert(loop_start(c, -1, min_pred as int) == min_pred);
            } else {
                scan -= 1;
            }
        }
        min_pred
    }
}

/// The entry for block `b` in a table of positions: its position in the order, and the all-ones
/// number if it has none.
pub open spec fn position_entry(blocks: Seq<Block>, b: Block, p: u32) -> bool {
    match order_position(blocks, b, blocks.len() as int) {
        Some(q) => p == q && p != u32::MAX,
        None => p == u32::MAX,
    }
}

proof fn lemma_order_position(blocks: Seq<Block>, b: Block, n: int)
    ensures
        match order_position(blocks, b, n) {
            Some(p) => 0 <= p < n,
            None => true,
        },
    decreases n,
{
    if n > 0 && blocks[n - 1] != b {
        lemma_order_position(blocks, b, n - 1);
    }
}

/// Distinct numbers below `n` are at most `n`.
proof fn lemma_distinct_below(s: Seq<Block>, n: nat)
    requires
        s.no_duplicates(),
        forall|i: int| 0 <= i < s.len() ==> (#[trigger] s[i]).0 < n,
    ensures
        s.len() <= n,
    decreases n,
{
    if n == 0 {
        if s.len() > 0 {
            assert(s[0].0 < n);
        }
    } else {
        let last = Block((n - 1) as u32);
        if exists|i: int| 0 <= i < s.len() && (#[trigger] s[i]).0 == n - 1 {
            let i = choose|i: int| 0 <= i < s.len() && (#[trigger] s[i]).0 == n - 1;
            let t = s.remove(i);
            assert forall|j: int| 0 <= j < t.len() implies (#[trigger] t[j]).0 < n - 1 by {
                let j0 = if j < i {
                    j
                } else {
                    j + 1
                };
                assert(t[j] == s[j0]);
                assert(s[j0] != s[i]);
            }
            assert(t.no_duplicates()) by {
                assert forall|j: int, k: int|
                    0 <= j < t.len() && 0 <= k < t.len() && j != k implies t[j] != t[k] by {
                    let j0 = if j < i {
                        j
                    } else {
                        j + 1
                    };
                    let k0 = if k < i {
                        k
                    } else {
                        k + 1
                    };
                    assert(t[j] == s[j0] && t[k] == s[k0]);
                }
            }
            lemma_distinct_below(t, (n - 1) as nat);
        } else {
            assert forall|j: int| 0 <= j < s.len() implies (#[trigger] s[j]).0 < n - 1 by {
                assert(s[j].0 != n - 1);
            }
            lemma_distinct_below(s, (n - 1) as nat);
        }
    }
}

/// The order holds each block once at most.
pub proof fn lemma_order_short(c: Ctx)
    requires
        ctx_ok(c),
    ensures
        c.cfg.postorder.len() <= c.f.blocks,
{
    lemma_distinct_below(c.cfg.postorder, c.f.blocks);
}

pub proof fn lemma_loop_liveins(
    f: FuncModel,
    blocks: Seq<Block>,
    liveins: Seq<Set<int>>,
    live: Set<int>,
    lo: int,
    hi: int,
)
    requires
        liveins.len() == f.blocks,
        0 <= lo,
        hi <= blocks.len(),
        forall|i: int| 0 <= i < blocks.len() ==> (#[trigger] blocks[i]).0 < f.blocks,
        forall|b: int| 0 <= b < liveins.len() ==> set_below(#[trigger] liveins[b], f.num_vregs as int),
        set_below(live, f.num_vregs as int),
    ensures
        loop_liveins(blocks, liveins, live, lo, hi).len() == f.blocks,
        forall|b: int|
            0 <= b < f.blocks ==> set_below(
                #[trigger] loop_liveins(blocks, liveins, live, lo, hi)[b],
                f.num_vregs as int,
            ),
    decreases hi - lo,
{
    if hi > lo {
        lemma_loop_liveins(f, blocks, liveins, live, lo, hi - 1);
        let t = loop_liveins(blocks, liveins, live, lo, hi - 1);
        let b = blocks[hi - 1].ix();
        assert(set_below(t[b], f.num_vregs as int));
        assert(set_below(t[b].union(live), f.num_vregs as int));
    }
}

impl<'a, F: Function> LivenessPass<'a, F> {
    /// Is a block reached from itself?
    fn is_own_pred(&self, block: Block) -> (r: bool)
        requires
            self.wf(),
            block.0 < self.ctx().f.blocks,
        ensures
            r == self.ctx().f.preds[block.ix()].contains(block),
    {
        let preds = self.func.block_preds(block);
        let mut k: usize = 0;
        while k < preds.len()
            invariant
                preds@ == self.ctx().f.preds[block.ix()],
                k <= preds@.len(),
                forall|j: int| 0 <= j < k ==> #[trigger] preds@[j] != block,
            decreases preds@.len() - k,
        {
            if preds[k] == block {
                assert(preds@[k as int] == block);
                return true;
            }
            k += 1;
        }
        false
    }

    /// If a loop ends at a position of the order, make what is live live over all of it.
    fn process_loop(&mut self, positions: &IndexVec, at: usize) -> (r: Result<(), RegAllocError>)
        requires
            old(self).wf(),
            at < old(self).ctx().cfg.postorder.len(),
            positions@.len() == old(self).ctx().f.blocks,
            forall|b: int|
                0 <= b < positions@.len() ==> position_entry(
                    old(self).ctx().cfg.postorder,
                    Block(b as u32),
                    #[trigger] positions@[b],
                ),
        ensures
            final(self).ctx() == old(self).ctx(),
            match pass_loop(old(self).ctx(), old(self)@, at as int) {
                Ok(s) => {
                    &&& r is Ok
                    &&& final(self)@ == s
                    &&& final(self).wf()
                    &&& s.g.uses == old(self)@.g.uses
                    &&& s.g.defs == old(self)@.g.defs
                    &&& s.live == old(self)@.live
                    &&& s.vreg_ranges == old(self)@.vreg_ranges
                    &&& s.liveins == (if has_loop(old(self).ctx(), at as int) {
                        loop_liveins(
                            old(self).ctx().cfg.postorder,
                            old(self)@.liveins,
                            old(self)@.live,
                            loop_start(old(self).ctx(), at as int, at as int),
                            at + 1,
                        )
                    } else {
                        old(self)@.liveins
                    })
                    &&& held(old(self).ctx().f, old(self)@.g) ==> held(old(self).ctx().f, s.g)
                    &&& spans_stay(old(self)@.g, s.g)
                    &&& has_loop(old(self).ctx(), at as int) ==> spanned(
                        s.g,
                        s.live,
                        (CodeRange {
                            from: blocks_begin(
                                old(self).ctx().cfg,
                                loop_start(old(self).ctx(), at as int, at as int),
                                at as int,
                            ),
                            to: blocks_end(
                                old(self).ctx().cfg,
                                loop_start(old(self).ctx(), at as int, at as int),
                                at as int,
                            ).succ(),
                        }),
                        old(self).ctx().f.num_vregs as int,
                    )
                },
                Err(e) => r == Err::<(), RegAllocError>(e) && e is TooLarge,
            },
    {
        let ghost s = self@;
        let ghost c = self.ctx();
        let min_pred = self.find_loop_start(positions, at);
        if min_pred >= at && !self.is_own_pred(self.cfginfo.postorder[at]) {
            return Ok(());
        }
        let first = self.cfginfo.postorder[min_pred];
        assert(c.cfg.postorder[min_pred as int].0 < c.f.blocks);
        assert(block_ok(c.f, first.ix()));
        let mut loop_begin = self.cfginfo.block_entry[first.index()];
        let mut loop_end = self.cfginfo.block_exit[first.index()];
        let mut k = min_pred;
        while k < at
            invariant
                self.wf(),
                self.ctx() == c,
                self@ == s,
                min_pred <= k <= at,
                at < c.cfg.postorder.len(),
                loop_begin == blocks_begin(c.cfg, min_pred as int, k as int),
                loop_end == blocks_end(c.cfg, min_pred as int, k as int),
                loop_begin.ix() < loop_end.ix(),
                loop_begin.inst.0 < c.f.insts,
                loop_end.inst.0 < c.f.insts,
                loop_end.ix() > 0,
            decreases at - k,
        {
            k += 1;
            let block = self.cfginfo.postorder[k];
            assert(c.cfg.postorder[k as int].0 < c.f.blocks);
            assert(block_ok(c.f, block.ix()));
            let entry = self.cfginfo.block_entry[block.index()];
            let exit = self.cfginfo.block_exit[block.index()];
            if entry < loop_begin {
                loop_begin = entry;
            }
            if exit > loop_end {
                loop_end = exit;
            }
        }
        let loop_range = CodeRange { from: loop_begin, to: loop_end.next() };
        proof {
            lemma_order_short(c);
        }
        let mut k = min_pred;
        while k <= at
            invariant
                self.wf(),
                self.ctx() == c,
                c.cfg.postorder.len() <= c.f.blocks,
                min_pred <= k <= at + 1,
                at < c.cfg.postorder.len(),
                self@ == (PassState {
                    liveins: loop_liveins(
                        c.cfg.postorder,
                        s.liveins,
                        s.live,
                        min_pred as int,
                        k as int,
                    ),
                    ..s
                }),
                pass_ok(c, s),
            decreases at + 1 - k,
        {
            let ghost t = self@;
            let block = self.cfginfo.postorder[k];
            assert(c.cfg.postorder[k as int].0 < c.f.blocks);
            self.liveins[block.index()].or(&self.live);
            proof {
                lemma_loop_liveins(
                    c.f,
                    c.cfg.postorder,
                    s.liveins,
                    s.live,
                    min_pred as int,
                    k + 1,
                );
                assert(self@.liveins =~= t.liveins.update(
                    block.ix(),
                    t.liveins[block.ix()].union(s.live),
                ));
                assert(self@.liveins == loop_liveins(
                    c.cfg.postorder,
                    s.liveins,
                    s.live,
                    min_pred as int,
                    k + 1,
                ));
                assert(pass_ok(c, self@));
            }
            k += 1;
        }
        self.live_all(loop_range, false)
    }

    /// Enter a block.
    fn process_block(&mut self, positions: &IndexVec, at: usize) -> (r: Result<(), RegAllocError>)
        requires
            old(self).wf(),
            at < old(self).ctx().cfg.postorder.len(),
            blocks_scanned(old(self).ctx(), old(self)@.g.uses, at as int),
            flows(old(self).ctx(), old(self)@, at as int),
            positions@.len() == old(self).ctx().f.blocks,
            forall|b: int|
                0 <= b < positions@.len() ==> position_entry(
                    old(self).ctx().cfg.postorder,
                    Block(b as u32),
                    #[trigger] positions@[b],
                ),
        ensures
            final(self).ctx() == old(self).ctx(),
            match pass_block(old(self).ctx(), old(self)@, at as int) {
                Ok(s) => {
                    &&& r is Ok
                    &&& final(self)@ == s
                    &&& final(self).wf()
                    &&& blocks_scanned(old(self).ctx(), s.g.uses, at + 1)
                    &&& flows(old(self).ctx(), s, at + 1)
                },
                Err(e) => {
                    &&& r == Err::<(), RegAllocError>(e)
                    &&& e is SSA ==> !ssa_form(old(self).ctx().f)
                },
            },
    {
        let ghost c = self.ctx();
        let ghost s0 = self@;
        let block = self.cfginfo.postorder[at];
        assert(c.cfg.postorder[at as int].0 < c.f.blocks);
        assert(block_ok(c.f, block.ix()));
        self.start_block(block);
        let range = CodeRange {
            from: self.cfginfo.block_entry[block.index()],
            to: self.cfginfo.block_exit[block.index()].next(),
        };
        match self.live_all(range, true) {
            Ok(()) => {},
            Err(e) => {
                return Err(e);
            },
        }
        let ghost s2 = self@;
        self.param_data(block);
        self.outs(block);
        proof {
            lemma_flows_begun(c, s0, s2, self@, at as int);
        }
        match self.process_insts(block, Ghost(at as int)) {
            Ok(()) => {},
            Err(e) => {
                return Err(e);
            },
        }
        proof {
            lemma_defs_block(c, self@.g.defs, at as int, c.f.insns[block.ix()].from.0 as int);
        }
        match self.process_params(block, Ghost(at as int)) {
            Ok(()) => {},
            Err(e) => {
                return Err(e);
            },
        }
        let ghost s5 = self@;
        match self.process_loop(positions, at) {
            Ok(()) => {},
            Err(e) => {
                return Err(e);
            },
        }
        let ghost s = self@;
        let mut live = BitVec::new();
        live.or(&self.live);
        assert(live@ =~= s.live);
        self.liveins.set(block.index(), live);
        proof {
            assert(self@.liveins =~= s.liveins.update(block.ix(), s.live));
            assert(pass_ok(c, self@));
            lemma_edges_done(c, s5, self@, at as int, c.f.insns[block.ix()].from.0 as int);
            if ssa_form(c.f) {
                lemma_flow_done(
                    c,
                    s5.live,
                    s5.liveins,
                    s5.vreg_ranges,
                    at as int,
                    self@.liveins,
                );
            }
        }
        Ok(())
    }

    /// Enter all blocks that can be reached.
    pub fn process_blocks(&mut self) -> (r: Result<(), RegAllocError>)
        requires
            old(self).wf(),
            old(self)@ == pass_start(old(self).ctx()),
        ensures
            final(self).ctx() == old(self).ctx(),
            match pass_blocks(old(self).ctx(), old(self)@, 0) {
                Ok(s) => {
                    &&& r is Ok
                    &&& final(self)@ == s
                    &&& final(self).wf()
                    &&& blocks_scanned(
                        old(self).ctx(),
                        s.g.uses,
                        old(self).ctx().cfg.postorder.len() as int,
                    )
                    &&& flows(
                        old(self).ctx(),
                        s,
                        old(self).ctx().cfg.postorder.len() as int,
                    )
                },
                Err(e) => {
                    &&& r == Err::<(), RegAllocError>(e)
                    &&& e is SSA ==> !ssa_form(old(self).ctx().f)
                },
            },
    {
        let ghost s = self@;
        let ghost c = self.ctx();
        let positions = self.order_positions();
        proof {
            lemma_nothing_scanned(c, s.g.uses);
            lemma_flow_start(c, s.liveins, s.vreg_ranges);
            reveal(held);
            reveal(edges_live);
            reveal(wanted);
            reveal(lived);
        }
        let n = self.cfginfo.postorder.len();
        let mut at: usize = 0;
        while at < n
            invariant
                self.wf(),
                self.ctx() == c,
                c == old(self).ctx(),
                s == old(self)@,
                n == c.cfg.postorder.len(),
                at <= n,
                positions@.len() == c.f.blocks,
                forall|b: int|
                    0 <= b < positions@.len() ==> position_entry(
                        c.cfg.postorder,
                        Block(b as u32),
                        #[trigger] positions@[b],
                    ),
                blocks_scanned(c, self@.g.uses, at as int),
                flows(c, self@, at as int),
                pass_blocks(c, s, 0) == pass_blocks(c, self@, at as int),
            decreases n - at,
        {
            match self.process_block(&positions, at) {
                Ok(()) => {},
                Err(e) => {
                    return Err(e);
                },
            }
            at += 1;
        }
        Ok(())
    }
}

} // verus!
