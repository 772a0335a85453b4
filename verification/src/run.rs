//! The allocator as a whole.
use crate::apply::{apply_all, apply_in_ok, apply_ok, ApplyPass, ApplyState};
use crate::assign::{
    alloc_enqueue_all, alloc_ok, hint_ok, preg_ok, same_lists, taken_ok, AllocPass, AllocState,
};
use crate::bitvec::BitVec;
use crate::cfg::{cfg_of, law_cfg_unique, CFGInfo};
use crate::data::Stats;
use crate::dom::ssa_form;
use crate::func::{func_ok, mach_ok, operands_before, regs_ok, FuncModel, Function, MachineEnv};
use crate::graph::{graph_ok, GraphState, LiveGraph};
use crate::held::{held, marks};
use crate::hot::{hot_code, HotState};
use crate::lists::ListFamily;
use crate::liveness::{
    ctx_ok, entries_free, entries_ok, fixup_ok, in_ok, livein_sets, out_ok, pass_ok, BlockparamIn,
    BlockparamOut, Ctx, Fixup, LivenessPass, PassState,
};
use crate::locate::{apply_input, frame_done, lemma_frame_ready, search_done, slots_start};
use crate::meets::{lemma_operands_sound, operands_sound};
use crate::merge::{graph_merge_all, law_merge_only_bundles, only_bundled};
use crate::order::lemma_shrunk_vregs;
use crate::parts::{filled, in_some, lemma_same_extent_trans, lemma_same_lists_extent, same_extent};
use crate::place::{
    aside_free, frees_kept, holds, is_kept_free, lemma_frees_same, lemma_frees_trans, ordered,
    owned, placed,
};
use crate::process::alloc_process_all;
use crate::queue::PrioQueue;
use crate::reached::{blocks_scanned, defs_named, defs_scanned};
use crate::reg::{Allocation, Edit, EditModel, ProgPoint, RegAllocError};
use crate::reserved::fixups_exist;
use crate::resolve::{
    edits_all, edits_moves, edits_params, placed_values, EditPass, PlacedEdit, PlacedModel,
};
use crate::served::served;
use crate::settle::settled;
use crate::setup::{create_allocs, pass_all, pass_start};
use crate::sort::{law_stable_sort, stable_sort, HasKey};
use crate::spans::edges_live;
use crate::spill::{slot_allocate, slot_values, slots_sized, spill_all, SlotPass, SlotState};
use crate::uses::uses_fit;
use vstd::prelude::*;

verus! {

/// What the allocator found.
#[derive(Debug)]
pub struct Output {
    /// The number of spill slots of the stack frame.
    pub num_spillslots: usize,
    /// The changes to the code, in program order.
    pub edits: Vec<(ProgPoint, Edit)>,
    /// The locations of the operands, instruction by instruction.
    pub allocs: Vec<Allocation>,
    /// For each instruction, the place of its first operand in `allocs`.
    pub inst_alloc_offsets: Vec<u32>,
    /// What the allocator counted.
    pub stats: Stats,
}

/// The mathematical value of an `Output`.
#[verifier::ext_equal]
pub struct OutputModel {
    pub num_spillslots: nat,
    pub edits: Seq<(ProgPoint, EditModel)>,
    pub allocs: Seq<Allocation>,
    pub inst_alloc_offsets: Seq<u32>,
    pub stats: Stats,
}

impl View for Output {
    type V = OutputModel;

    open spec fn view(&self) -> OutputModel {
        OutputModel {
            num_spillslots: self.num_spillslots as nat,
            edits: edit_values(self.edits@),
            allocs: self.allocs@,
            inst_alloc_offsets: self.inst_alloc_offsets@,
            stats: self.stats,
        }
    }
}

/// The values of the edits.
pub open spec fn edit_values(edits: Seq<(ProgPoint, Edit)>) -> Seq<(ProgPoint, EditModel)> {
    Seq::new(edits.len(), |i: int| (edits[i].0, edits[i].1@))
}

/// The search before any bundle is queued.
pub open spec fn alloc_start(u: PassState, h: HotState, g: GraphState) -> AllocState {
    AllocState {
        g,
        pregs: u.pregs,
        queue: Seq::empty(),
        hot: h.hot,
        clobbers: u.clobbers,
        spillsets: Seq::empty(),
        spilled: Seq::empty(),
        stats: Stats {
            initial_liverange_count: u.g.ranges.len() as usize,
            blockparam_ins_count: u.ins.len() as usize,
            blockparam_outs_count: u.outs.len() as usize,
            ..Stats::zero()
        },
    }
}

/// Every step before the search: liveness, hot code, bundles and the queue.
pub open spec fn prepared(c: Ctx) -> Result<(PassState, AllocState), RegAllocError> {
    match pass_all(c, pass_start(c)) {
        Ok(u) => match hot_code(c.f, c.cfg, u.g) {
            Ok(h) => match graph_merge_all(c.f, h.g, u.outs) {
                Ok(g) => match alloc_enqueue_all(c, alloc_start(u, h, g), 0) {
                    Ok(s) => Ok(
                        (
                            u,
                            AllocState {
                                stats: Stats {
                                    merged_bundle_count: s.queue.len() as usize,
                                    ..s.stats
                                },
                                ..s
                            },
                        ),
                    ),
                    Err(e) => Err(e),
                },
                Err(e) => Err(e),
            },
            Err(e) => Err(e),
        },
        Err(e) => Err(e),
    }
}

/// The search: the queue, then the bundles that were spilled.
pub open spec fn searched(c: Ctx, s: AllocState) -> Result<AllocState, RegAllocError> {
    match alloc_process_all(c, s, 0) {
        Ok(t) => Ok(
            spill_all(
                c,
                AllocState {
                    stats: Stats {
                        final_liverange_count: t.g.ranges.len() as usize,
                        final_bundle_count: t.g.bundles.len() as usize,
                        spill_bundle_count: t.spilled.len() as usize,
                        ..t.stats
                    },
                    ..t
                },
                0,
            ),
        ),
        Err(e) => Err(e),
    }
}

/// No operand has a location, and there are no moves.
pub open spec fn apply_start(f: FuncModel) -> ApplyState {
    ApplyState {
        allocs: Seq::new(
            operands_before(f.operands, f.insts as int) as nat,
            |i: int| Allocation::Nowhere,
        ),
        params: Seq::empty(),
        moves: Seq::empty(),
        halves: Seq::empty(),
        reuse: Seq::empty(),
        in_idx: 0,
        out_idx: 0,
    }
}

/// The edits with their points.
pub open spec fn edit_points(edits: Seq<PlacedModel>) -> Seq<(ProgPoint, EditModel)> {
    Seq::new(edits.len(), |i: int| (ProgPoint::at(edits[i].pos as int), edits[i].edit))
}

/// The search and the stack frame, for bundles that are queued.
pub open spec fn located_from(c: Ctx, s: AllocState) -> Result<
    (AllocState, SlotState),
    RegAllocError,
> {
    match searched(c, s) {
        Ok(a) => match slot_allocate(a.g, slots_start(a), c.f.named_by_last) {
            Ok(t) => Ok((a, t)),
            Err(e) => Err(e),
        },
        Err(e) => Err(e),
    }
}

/// The scan over the blocks, the search and the stack frame.
pub open spec fn located(c: Ctx) -> Result<(PassState, AllocState, SlotState), RegAllocError> {
    match prepared(c) {
        Ok((u, s)) => match located_from(c, s) {
            Ok((a, t)) => Ok((u, a, t)),
            Err(e) => Err(e),
        },
        Err(e) => Err(e),
    }
}

/// The locations of the operands and the moves, where they can be found.
pub open spec fn applied(c: Ctx, u: PassState, a: AllocState, t: SlotState) -> ApplyState {
    apply_all(apply_input(c, u, a, t), apply_start(c.f), u.fixups)->Ok_0
}

/// What comes out once everything has its location.
pub open spec fn finished(c: Ctx, u: PassState, a: AllocState, t: SlotState) -> Result<
    OutputModel,
    RegAllocError,
> {
    match apply_all(apply_input(c, u, a, t), apply_start(c.f), u.fixups) {
        Ok(x) => match edits_all(c, a.g.vregs, x.moves, x.params) {
            Ok(edits) => Ok(
                OutputModel {
                    num_spillslots: t.num_spillslots as nat,
                    edits: edit_points(edits),
                    allocs: x.allocs,
                    inst_alloc_offsets: Seq::new(
                        c.f.insts,
                        |i: int| operands_before(c.f.operands, i) as u32,
                    ),
                    stats: Stats {
                        halfmoves_count: x.halves.len() as usize,
                        blockparam_allocs_count: x.params.len() as usize,
                        edits_count: edits.len() as usize,
                        ..a.stats
                    },
                },
            ),
            Err(e) => Err(e),
        },
        Err(e) => Err(e),
    }
}

/// The tables of the scan fit together, and the copies that it notes are for instructions and
/// registers that exist.
#[verifier::opaque]
pub open spec fn scan_tables(c: Ctx, u: PassState) -> bool {
    graph_ok(c.f, u.g) && fixups_exist(c, u.fixups)
}

/// The scan has come to every operand that can be reached, once. Where registers are defined first
/// its uses lie in live ranges of their registers, and in a function in static single assignment
/// form its definitions do. Registers are live where control enters and leaves the blocks between
/// which they are handed on. Uses have what they demand, or copies of it.
pub open spec fn scan_sound(c: Ctx, u: PassState) -> bool {
    &&& scan_tables(c, u)
    &&& uses_fit(c.f, u.g)
    &&& defs_named(c.f, u.g.defs)
    &&& held(c.f, u.g)
    &&& marks(c.f, u.g)
    &&& edges_live(c, u, c.cfg.postorder.len() as int)
    &&& served(c.f, u.g, u.fixups)
    &&& blocks_scanned(c, u.g.uses, c.cfg.postorder.len() as int)
    &&& defs_scanned(c, u.g.defs, c.cfg.postorder.len() as int, 0x1_0000_0000, 0)
}

/// The places that the scan over the blocks keeps free in registers stay so.
#[verifier::opaque]
pub open spec fn frees_from(u: PassState, a: AllocState) -> bool {
    forall|p: int, k: int|
        0 <= p < u.pregs.len() && 0 <= k < u.pregs[p].len() ==> is_kept_free(
            a,
            p,
            #[trigger] u.pregs[p][k],
        )
}

proof fn lemma_frees_from(u: PassState, a: AllocState, b: AllocState)
    requires
        frees_from(u, a),
        frees_kept(a, b),
        a.pregs.len() == u.pregs.len(),
    ensures
        frees_from(u, b),
{
    reveal(frees_from);
    reveal(frees_kept);
    assert forall|p: int, k: int| 0 <= p < u.pregs.len() && 0 <= k < u.pregs[p].len() implies is_kept_free(
        b,
        p,
        #[trigger] u.pregs[p][k],
    ) by {
        assert(is_kept_free(a, p, u.pregs[p][k]));
    }
}

/// The search begins with what the scan over the blocks keeps free.
proof fn lemma_start_frees(c: Ctx, u: PassState, h: HotState, g: GraphState, s: AllocState)
    requires
        pass_ok(c, u),
        crate::hot::only_ranges_added(u.g, h.g),
        only_bundled(h.g, g),
        same_lists(g, s.g),
        s.pregs == u.pregs,
    ensures
        frees_from(u, s),
{
    reveal(frees_from);
    assert forall|p: int, k: int| 0 <= p < u.pregs.len() && 0 <= k < u.pregs[p].len() implies is_kept_free(
        s,
        p,
        #[trigger] u.pregs[p][k],
    ) by {
        let e = u.pregs[p][k];
        assert(entries_ok(u.pregs[p], u.g.ranges.len() as int));
        assert(entries_free(u.g.ranges, u.pregs[p]));
        assert(u.g.ranges[u.pregs[p][k].1.ix()].vreg.is_invalid());
        assert(h.g.ranges[e.1.ix()] == u.g.ranges[e.1.ix()]);
        assert(g.ranges[e.1.ix()].vreg == h.g.ranges[e.1.ix()].vreg);
        assert(s.pregs[p][k] == e);
    }
}

/// The search and the stack frame are done, every register is live where the scan over the blocks
/// found it, and every live range of a register is in a bundle.
pub open spec fn locations_sound(c: Ctx) -> bool {
    let (u, a, t) = located(c)->Ok_0;
    &&& search_done(c, a)
    &&& frame_done(c.f, a, t)
    &&& slots_sized(t)
    &&& scan_sound(c, u)
    &&& same_extent(u.g, a.g)
    &&& frees_from(u, a)
    &&& filled(a.g)
    &&& apply_in_ok(apply_input(c, u, a, t))
    &&& apply_ok(c.f, applied(c, u, a, t))
}

/// What the allocator finds.
pub open spec fn allocated(c: Ctx) -> Result<OutputModel, RegAllocError> {
    match located(c) {
        Ok((u, a, t)) => finished(c, u, a, t),
        Err(e) => Err(e),
    }
}

/// The search with what is needed after it.
pub struct Env<'a, F: Function> {
    pub cfginfo: &'a CFGInfo,
    pub search: AllocPass<'a, F>,
    pub liveins: Vec<BitVec>,
    pub blockparam_outs: Vec<BlockparamOut>,
    pub blockparam_ins: Vec<BlockparamIn>,
    pub multi_fixed_reg_fixups: Vec<Fixup>,
    /// What the scan over the blocks found.
    pub scan: Ghost<PassState>,
}

impl<'a, F: Function> Env<'a, F> {
    /// What stays fixed.
    pub open spec fn ctx(&self) -> Ctx {
        self.search.ctx()
    }

    /// The parts fit together.
    pub open spec fn wf(&self) -> bool {
        let c = self.ctx();
        &&& self.search.wf()
        &&& self.ctx().cfg == self.cfginfo@
        &&& self.stems_from(self.scan@)
        &&& self.liveins@.len() == c.f.blocks
        &&& forall|i: int|
            0 <= i < self.blockparam_outs@.len() ==> out_ok(c.f, #[trigger] self.blockparam_outs@[i])
        &&& forall|i: int|
            0 <= i < self.blockparam_ins@.len() ==> in_ok(c.f, #[trigger] self.blockparam_ins@[i])
        &&& forall|i: int|
            0 <= i < self.multi_fixed_reg_fixups@.len() ==> fixup_ok(
                c,
                #[trigger] self.multi_fixed_reg_fixups@[i],
            )
    }

    /// The bundles wait for the search, and every register is live where the scan found it.
    pub open spec fn ready(&self) -> bool {
        &&& scan_sound(self.ctx(), self.scan@)
        &&& filled(self.search@.g)
        &&& same_extent(self.scan@.g, self.search@.g)
        &&& frees_from(self.scan@, self.search@)
        &&& self.scan@.pregs.len() == self.ctx().m.regs.len()
        &&& aside_free(self.search@, 0)
        &&& settled(self.ctx(), self.search@, 0, Set::empty())
    }

    /// The parts that stem from the scan over the blocks.
    pub open spec fn stems_from(&self, u: PassState) -> bool {
        &&& livein_sets(self.liveins@) == u.liveins
        &&& self.blockparam_outs@ == u.outs
        &&& self.blockparam_ins@ == u.ins
        &&& self.multi_fixed_reg_fixups@ == u.fixups
    }
}

proof fn lemma_start_ok(c: Ctx, u: PassState, h: HotState, g: GraphState)
    requires
        pass_ok(c, u),
        crate::hot::only_ranges_added(u.g, h.g),
        entries_ok(h.hot, h.g.ranges.len() as int),
        only_bundled(h.g, g),
        crate::graph::graph_ok(c.f, g),
        crate::bundles::bundled(g),
    ensures
        alloc_ok(c, alloc_start(u, h, g)),
{
    let s = alloc_start(u, h, g);
    assert forall|p: int| 0 <= p < s.pregs.len() implies preg_ok(s.g, 0, #[trigger] s.pregs[p]) by {
        assert(entries_ok(u.pregs[p], u.g.ranges.len() as int));
        assert(entries_free(u.g.ranges, u.pregs[p]));
        assert forall|i: int| 0 <= i < s.pregs[p].len() implies taken_ok(
            s.g,
            0,
            (#[trigger] s.pregs[p][i]).1,
        ) by {
            let r = u.pregs[p][i].1.ix();
            assert(u.g.ranges[r].vreg.is_invalid());
            assert(h.g.ranges[r] == u.g.ranges[r]);
            assert(g.ranges[r].vreg == h.g.ranges[r].vreg);
        }
    }
    assert forall|b: int| 0 <= b < s.g.bundles.len() implies hint_ok(
        c,
        (#[trigger] s.g.bundles[b]).allocation.as_reg(),
    ) by {
        assert(s.g.bundles[b] == crate::bundles::fresh_bundle());
    }
    assert(placed(c, s.g, s.pregs)) by {
        assert forall|b: int, i: int|
            0 <= b < s.g.in_bundle.len() && 0 <= i < s.g.in_bundle[b].len() implies holds(
            s.g,
            s.pregs,
            b,
            #[trigger] s.g.in_bundle[b][i],
        ) by {
            assert(s.g.bundles[b] == crate::bundles::fresh_bundle());
        }
        assert forall|p: int, i: int| 0 <= p < s.pregs.len() && 0 <= i < s.pregs[p].len() implies owned(
            c,
            s.g,
            p,
            #[trigger] s.pregs[p][i],
        ) by {
            let r = u.pregs[p][i].1.ix();
            assert(entries_ok(u.pregs[p], u.g.ranges.len() as int));
            assert(u.g.ranges[r].vreg.is_invalid());
            assert(h.g.ranges[r] == u.g.ranges[r]);
            assert(g.ranges[r].vreg == h.g.ranges[r].vreg);
        }
    }
    assert(ordered(s.g, 0)) by {
        assert forall|b: int| 0 <= b < s.g.bundles.len() implies (
        #[trigger] s.g.bundles[b]).spillset.is_invalid() by {
            assert(s.g.bundles[b] == crate::bundles::fresh_bundle());
        }
    }
}

/// Before the search every register is live where the scan found it, and in a bundle.
proof fn lemma_start_extent(f: FuncModel, u: PassState, h: HotState, g: GraphState, s: GraphState)
    requires
        crate::graph::graph_ok(f, u.g),
        crate::hot::only_ranges_added(u.g, h.g),
        only_bundled(h.g, g),
        crate::graph::graph_ok(f, g),
        crate::bundles::bundled(g),
        same_lists(g, s),
    ensures
        same_extent(u.g, s),
        filled(s),
{
    assert forall|v: int, i: int| 0 <= v < s.in_vreg.len() && 0 <= i < s.in_vreg[v].len() implies in_some(
        s.in_bundle,
        #[trigger] s.in_vreg[v][i],
    ) by {
        let r = g.in_vreg[v][i];
        assert(crate::bundles::in_its_bundle(g, r));
        let b = g.ranges[r as int].bundle.ix();
        let k = choose|k: int| 0 <= k < g.in_bundle[b].len() && g.in_bundle[b][k] == r;
        assert(s.in_bundle[b][k] == r);
    }
    assert forall|r: int| 0 <= r < u.g.ranges.len() implies {
        &&& (#[trigger] s.ranges[r]).range == u.g.ranges[r].range
        &&& s.ranges[r].def == u.g.ranges[r].def
        &&& s.in_range[r] == u.g.in_range[r]
    } by {
        assert(h.g.ranges[r] == u.g.ranges[r]);
        assert(g.ranges[r].range == h.g.ranges[r].range);
    }
    assert forall|r: int| u.g.ranges.len() <= r < s.ranges.len() implies !(
    #[trigger] s.ranges[r]).def.is_valid() by {
        assert(h.g.in_range[r].len() == 0);
        assert(g.ranges[r].def == h.g.ranges[r].def);
    }
    lemma_same_lists_extent(u.g, s);
}

impl<'a, F: Function> Env<'a, F> {
    /// Do every step before the search.
    #[verifier::rlimit(40)]
    pub fn init(func: &'a F, env: &'a MachineEnv, cfginfo: &'a CFGInfo) -> (r: Result<
        Self,
        RegAllocError,
    >)
        requires
            ctx_ok((Ctx { f: func.model(), m: env@, cfg: cfginfo@ })),
        ensures
            match prepared(Ctx { f: func.model(), m: env@, cfg: cfginfo@ }) {
                Ok((u, s)) => {
                    &&& r matches Ok(e)
                    &&& e.ctx() == (Ctx { f: func.model(), m: env@, cfg: cfginfo@ })
                    &&& e.search@ == s
                    &&& e.scan@ == u
                    &&& e.wf()
                    &&& e.ready()
                },
                Err(e) => r matches Err(x) && x == e,
            },
            ssa_form(func.model()) ==> !(r matches Err(e) && e is SSA),
    {
        let ghost c = Ctx { f: func.model(), m: env@, cfg: cfginfo@ };
        let pass = LivenessPass::new(func, env, cfginfo);
        let mut pass = match pass.compute_liveness() {
            Ok(pass) => pass,
            Err(e) => {
                return Err(e);
            },
        };
        let ghost u = pass@;
        let mut stats = Stats::default();
        stats.initial_liverange_count = pass.g.ranges.len();
        stats.blockparam_ins_count = pass.blockparam_ins.len();
        stats.blockparam_outs_count = pass.blockparam_outs.len();
        let hot_code = match pass.g.compute_hot_code(func, cfginfo) {
            Ok(hot_code) => hot_code,
            Err(e) => {
                return Err(e);
            },
        };
        let ghost h = HotState { g: pass.g@, hot: hot_code@ };
        proof {
            lemma_shrunk_vregs(u.g, h.g);
        }
        match pass.g.merge_vreg_bundles(func, &pass.blockparam_outs) {
            Ok(()) => {},
            Err(e) => {
                return Err(e);
            },
        }
        proof {
            law_merge_only_bundles(c.f, h.g, u.outs);
            lemma_start_ok(c, u, h, pass.g@);
        }
        let ghost joined = pass.g@;
        let mut search = AllocPass {
            func,
            env,
            g: pass.g,
            pregs: pass.pregs,
            allocation_queue: PrioQueue::new(),
            hot_code,
            clobbers: pass.clobbers,
            spillsets: Vec::new(),
            spilled_bundles: Vec::new(),
            stats,
            shape: Ghost(c),
        };
        proof {
            assert(search@ =~= alloc_start(u, h, search@.g));
            assert forall|b: int| 0 <= b < search@.g.bundles.len() implies (
            #[trigger] search@.g.bundles[b]).allocation == Allocation::Nowhere by {
                assert(search@.g.bundles[b] == crate::bundles::fresh_bundle());
            }
        }
        match search.queue_bundles() {
            Ok(()) => {},
            Err(e) => {
                return Err(e);
            },
        }
        assert(prepared(c) == Ok::<(PassState, AllocState), RegAllocError>((u, search@)));
        proof {
            lemma_start_extent(c.f, u, h, joined, search@.g);
            lemma_start_frees(c, u, h, joined, search@);
            reveal(scan_tables);
        }
        Ok(
            Env {
                cfginfo,
                search,
                liveins: pass.liveins,
                blockparam_outs: pass.blockparam_outs,
                blockparam_ins: pass.blockparam_ins,
                multi_fixed_reg_fixups: pass.multi_fixed_reg_fixups,
                scan: Ghost(u),
            },
        )
    }

    /// Search for locations.
    pub fn search(&mut self) -> (r: Result<(), RegAllocError>)
        requires
            old(self).wf(),
            old(self).ready(),
        ensures
            final(self).ctx() == old(self).ctx(),
            final(self).scan == old(self).scan,
            match searched(old(self).ctx(), old(self).search@) {
                Ok(s) => {
                    &&& r is Ok
                    &&& final(self).search@ == s
                    &&& final(self).wf()
                    &&& search_done(old(self).ctx(), s)
                    &&& same_extent(old(self).search@.g, s.g)
                    &&& frees_kept(old(self).search@, s)
                },
                Err(e) => r == Err::<(), RegAllocError>(e) && e !is SSA,
            },
    {
        let ghost s = self.search@;
        let ghost g = self.search@.g;
        match self.search.process_bundles() {
            Ok(()) => {},
            Err(e) => {
                return Err(e);
            },
        }
        let ghost t = self.search@;
        let ghost h = self.search@.g;
        self.search.try_allocating_regs_for_spilled_bundles();
        proof {
            lemma_same_lists_extent(h, self.search@.g);
            lemma_same_extent_trans(g, h, self.search@.g);
            let p = alloc_process_all(self.ctx(), s, 0)->Ok_0;
            lemma_frees_same(p, t);
            lemma_frees_trans(s, p, t);
            lemma_frees_trans(s, t, self.search@);
        }
        Ok(())
    }

    /// Give spilled bundles their slots.
    pub fn give_slots(self) -> (r: Result<Placed<'a, F>, RegAllocError>)
        requires
            self.wf(),
            search_done(self.ctx(), self.search@),
        ensures
            match slot_allocate(self.search@.g, slots_start(self.search@), self.ctx().f.named_by_last) {
                Ok(t) => {
                    &&& r matches Ok(p)
                    &&& p.wf()
                    &&& p.ctx() == self.ctx()
                    &&& p.scan == self.scan
                    &&& p.found@ == self.search@
                    &&& p.slots@ == t
                    &&& frame_done(self.ctx().f, self.search@, t)
                    &&& slots_sized(t)
                },
                Err(e) => r matches Err(x) && x == e && e !is SSA,
            },
    {
        let ghost c = self.ctx();
        let ghost a = self.search@;
        let search = self.search;
        let func = search.func;
        let g = search.g;
        let mut slots = SlotPass {
            spillsets: search.spillsets,
            spillslots: Vec::new(),
            slots_by_size: ListFamily::new(),
            num_spillslots: 0,
        };
        proof {
            assert(slot_values(slots.spillslots@) =~= Seq::empty());
            assert(slots@ =~= slots_start(a));
            lemma_frame_ready(c, a);
            assert(slots_sized(slots@)) by {
                reveal(slots_sized);
                assert forall|i: int| 0 <= i < a.spillsets.len() implies (
                #[trigger] a.spillsets[i]).slot.is_invalid() by {
                    assert(hint_ok(c, a.spillsets[i].reg_hint));
                }
            }
        }
        match slots.allocate_spillslots(&g, func.multi_spillslot_named_by_last_slot()) {
            Ok(()) => {},
            Err(e) => {
                return Err(e);
            },
        }
        Ok(
            Placed {
                func,
                env: search.env,
                cfginfo: self.cfginfo,
                g,
                slots,
                liveins: self.liveins,
                blockparam_outs: self.blockparam_outs,
                blockparam_ins: self.blockparam_ins,
                multi_fixed_reg_fixups: self.multi_fixed_reg_fixups,
                stats: search.stats,
                shape: Ghost(c),
                scan: self.scan,
                found: Ghost(a),
            },
        )
    }
}

/// The live ranges with their locations, and what is needed to bring values to them.
pub struct Placed<'a, F: Function> {
    pub func: &'a F,
    pub env: &'a MachineEnv,
    pub cfginfo: &'a CFGInfo,
    pub g: LiveGraph,
    pub slots: SlotPass,
    pub liveins: Vec<BitVec>,
    pub blockparam_outs: Vec<BlockparamOut>,
    pub blockparam_ins: Vec<BlockparamIn>,
    pub multi_fixed_reg_fixups: Vec<Fixup>,
    pub stats: Stats,
    pub shape: Ghost<Ctx>,
    pub scan: Ghost<PassState>,
    pub found: Ghost<AllocState>,
}

impl<'a, F: Function> Placed<'a, F> {
    /// What stays fixed.
    pub open spec fn ctx(&self) -> Ctx {
        self.shape@
    }

    /// The parts fit together.
    pub open spec fn wf(&self) -> bool {
        let c = self.ctx();
        &&& ctx_ok(c)
        &&& c == (Ctx { f: self.func.model(), m: self.env@, cfg: self.cfginfo@ })
        &&& self.g.wf()
        &&& self.g.func@ == c.f
        &&& self.g@ == self.found@.g
        &&& self.stats == self.found@.stats
        &&& search_done(c, self.found@)
        &&& livein_sets(self.liveins@) == self.scan@.liveins
        &&& self.blockparam_outs@ == self.scan@.outs
        &&& self.blockparam_ins@ == self.scan@.ins
        &&& self.multi_fixed_reg_fixups@ == self.scan@.fixups
        &&& self.liveins@.len() == c.f.blocks
        &&& forall|i: int|
            0 <= i < self.blockparam_outs@.len() ==> out_ok(c.f, #[trigger] self.blockparam_outs@[i])
        &&& forall|i: int|
            0 <= i < self.blockparam_ins@.len() ==> in_ok(c.f, #[trigger] self.blockparam_ins@[i])
        &&& forall|i: int|
            0 <= i < self.multi_fixed_reg_fixups@.len() ==> fixup_ok(
                c,
                #[trigger] self.multi_fixed_reg_fixups@[i],
            )
    }

    /// Give operands their locations, and insert the moves.
    pub fn finish(self) -> (r: Result<Output, RegAllocError>)
        requires
            self.wf(),
        ensures
            match finished(self.ctx(), self.scan@, self.found@, self.slots@) {
                Ok(s) => {
                    &&& r matches Ok(o)
                    &&& o@ == s
                    &&& apply_in_ok(
                        apply_input(self.ctx(), self.scan@, self.found@, self.slots@),
                    )
                    &&& apply_ok(
                        self.ctx().f,
                        applied(self.ctx(), self.scan@, self.found@, self.slots@),
                    )
                },
                Err(e) => r == Err::<Output, RegAllocError>(e) && e !is SSA,
            },
    {
        let ghost c = self.ctx();
        let ghost u = self.scan@;
        let ghost a = self.found@;
        let func = self.func;
        let env = self.env;
        let cfginfo = self.cfginfo;
        let mut stats = self.stats;
        let g = &self.g;
        let slots = &self.slots;
        let (allocs, inst_alloc_offsets) = create_allocs(func);
        let mut pass = ApplyPass {
            func,
            env,
            cfginfo,
            g,
            slots,
            liveins: &self.liveins,
            blockparam_outs: &self.blockparam_outs,
            blockparam_ins: &self.blockparam_ins,
            inst_alloc_offsets: &inst_alloc_offsets,
            allocs,
            blockparam_allocs: Vec::new(),
            inserted_moves: Vec::new(),
            half_moves: Vec::new(),
            reuse_input_insts: Vec::new(),
            blockparam_in_idx: 0,
            blockparam_out_idx: 0,
        };
        proof {
            assert(pass@ =~= apply_start(c.f));
            assert(pass.input() == apply_input(c, u, a, slots@));
            crate::func::lemma_operands_before(c.f.operands, 0, c.f.insts as int);
        }
        stats.halfmoves_count = match pass.apply_allocations_and_insert_moves(
            &self.multi_fixed_reg_fixups,
        ) {
            Ok(count) => count,
            Err(e) => {
                return Err(e);
            },
        };
        let allocs = pass.allocs;
        stats.blockparam_allocs_count = pass.blockparam_allocs.len();
        let edit_pass = EditPass { func, env, cfginfo, vregs: &g.vregs, edits: Vec::new() };
        let placed_edits = match edit_pass.resolve_inserted_moves(
            pass.inserted_moves,
            pass.blockparam_allocs,
        ) {
            Ok(edits) => edits,
            Err(e) => {
                return Err(e);
            },
        };
        stats.edits_count = placed_edits.len();
        let edits = with_points(placed_edits);
        Ok(
            Output {
                num_spillslots: slots.num_spillslots as usize,
                edits,
                allocs,
                inst_alloc_offsets,
                stats,
            },
        )
    }
}

impl<'a, F: Function> Env<'a, F> {
    /// Search for locations and apply them.
    pub fn run(self) -> (r: Result<Output, RegAllocError>)
        requires
            self.wf(),
            self.ready(),
        ensures
            match located_from(self.ctx(), self.search@) {
                Ok((a, t)) => match finished(self.ctx(), self.scan@, a, t) {
                    Ok(s) => {
                        &&& r matches Ok(o)
                        &&& o@ == s
                        &&& search_done(self.ctx(), a)
                        &&& frame_done(self.ctx().f, a, t)
                        &&& slots_sized(t)
                        &&& same_extent(self.scan@.g, a.g)
                        &&& frees_from(self.scan@, a)
                        &&& filled(a.g)
                        &&& apply_in_ok(apply_input(self.ctx(), self.scan@, a, t))
                        &&& apply_ok(self.ctx().f, applied(self.ctx(), self.scan@, a, t))
                    },
                    Err(e) => r == Err::<Output, RegAllocError>(e) && e !is SSA,
                },
                Err(e) => r == Err::<Output, RegAllocError>(e) && e !is SSA,
            },
    {
        let mut env = self;
        match env.search() {
            Ok(()) => {},
            Err(e) => {
                return Err(e);
            },
        }
        proof {
            lemma_same_extent_trans(self.scan@.g, self.search@.g, env.search@.g);
            lemma_frees_from(self.scan@, self.search@, env.search@);
        }
        match env.give_slots() {
            Ok(placed) => placed.finish(),
            Err(e) => Err(e),
        }
    }
}

/// The edits with their points.
fn with_points(placed_edits: Vec<PlacedEdit>) -> (r: Vec<(ProgPoint, Edit)>)
    ensures
        edit_values(r@) == edit_points(placed_values(placed_edits@)),
{
    let ghost all = placed_edits@;
    let mut rest = placed_edits;
    let mut reversed: Vec<(ProgPoint, Edit)> = Vec::new();
    while rest.len() > 0
        invariant
            rest@.len() + reversed@.len() == all.len(),
            rest@ == all.subrange(0, rest@.len() as int),
            forall|i: int|
                0 <= i < reversed@.len() ==> (#[trigger] reversed@[i]).0 == ProgPoint::at(
                    all[all.len() - 1 - i].pos as int,
                ) && reversed@[i].1 == all[all.len() - 1 - i].edit,
        decreases rest@.len(),
    {
        let e = rest.pop().unwrap();
        assert(rest@ =~= all.subrange(0, rest@.len() as int));
        reversed.push((ProgPoint::from_index(e.pos), e.edit));
    }
    let mut r: Vec<(ProgPoint, Edit)> = Vec::new();
    while reversed.len() > 0
        invariant
            r@.len() + reversed@.len() == all.len(),
            forall|i: int|
                0 <= i < reversed@.len() ==> (#[trigger] reversed@[i]).0 == ProgPoint::at(
                    all[all.len() - 1 - i].pos as int,
                ) && reversed@[i].1 == all[all.len() - 1 - i].edit,
            forall|i: int|
                0 <= i < r@.len() ==> (#[trigger] r@[i]).0 == ProgPoint::at(all[i].pos as int)
                    && r@[i].1 == all[i].edit,
        decreases reversed@.len(),
    {
        let e = reversed.pop().unwrap();
        r.push(e);
    }
    assert(edit_values(r@) =~= edit_points(placed_values(all)));
    r
}

/// Functions are taken to be in static single assignment form as they are.
fn validate_ssa<F: Function>(_func: &F, _cfginfo: &CFGInfo) -> (r: Result<(), RegAllocError>)
    ensures
        r is Ok,
{
    Ok(())
}

/// Allocate registers for a function. A function in static single assignment form is not refused
/// as not being in it.
pub fn run<F: Function>(func: &F, mach_env: &MachineEnv) -> (r: Result<Output, RegAllocError>)
    requires
        func_ok(func.model()),
        mach_ok(mach_env@),
        regs_ok(func.model(), mach_env@),
    ensures
        ({
            let c = Ctx { f: func.model(), m: mach_env@, cfg: cfg_of(func.model()) };
            match allocated(c) {
                Ok(s) => {
                    &&& r matches Ok(o)
                    &&& o@ == s
                    &&& locations_sound(c)
                    &&& operands_sound(c)
                },
                Err(e) => {
                    &&& r == Err::<Output, RegAllocError>(e)
                    &&& e is SSA ==> !ssa_form(func.model())
                },
            }
        }),
{
    let cfginfo = CFGInfo::new(func);
    match validate_ssa(func, &cfginfo) {
        Ok(()) => {},
        Err(e) => {
            return Err(e);
        },
    }
    proof {
        law_cfg_unique(func.model(), cfginfo@);
    }
    let r = match Env::init(func, mach_env, &cfginfo) {
        Ok(env) => env.run(),
        Err(e) => Err(e),
    };
    proof {
        let c = Ctx { f: func.model(), m: mach_env@, cfg: cfginfo@ };
        if allocated(c) is Ok {
            lemma_operands_sound(c);
        }
    }
    r
}

/// The edits come out in program order.
pub proof fn law_edits_in_order(c: Ctx)
    ensures
        allocated(c) matches Ok(o) ==> forall|i: int, j: int|
            #![trigger o.edits[i], o.edits[j]]
            0 <= i < j < o.edits.len() ==> o.edits[i].0.ix() <= o.edits[j].0.ix(),
{
    if let Ok((u, a, t)) = located(c) {
        if let Ok(x) = apply_all(apply_input(c, u, a, t), apply_start(c.f), u.fixups) {
            if let Ok(edits) = edits_all(c, a.g.vregs, x.moves, x.params) {
                let all = edits_params(
                    c,
                    a.g.vregs,
                    stable_sort(x.params),
                    0,
                    edits_moves(c, stable_sort(x.moves), 0, Seq::empty())->Ok_0,
                )->Ok_0;
                law_stable_sort(all);
                assert forall|i: int, j: int|
                    #![trigger edits[i], edits[j]]
                    0 <= i < j < edits.len() implies edits[i].pos <= edits[j].pos by {
                    assert(edits[i].key() <= edits[j].key());
                }
            }
        }
    }
}

/// The number of edits that is noted is that of the edits.
pub proof fn law_edits_counted(c: Ctx)
    ensures
        allocated(c) matches Ok(o) ==> o.edits.len() <= usize::MAX ==> o.stats.edits_count
            == o.edits.len(),
{
}

} // verus!
