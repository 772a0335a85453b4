//! The tables before anything is known of the function, and the liveness of the whole function.
use crate::bitvec::BitVec;
use crate::cfg::CFGInfo;
use crate::code_range::LiveRangeSet;
use crate::data::{PRegData, VRegData};
use crate::dom::ssa_form;
use crate::fixup::pass_fix_all;
use crate::func::{func_ok, lemma_operands_before, operands_before, Function, MachineEnv};
use crate::graph::{graph_ok, vreg_ok, GraphState, LiveGraph};
use crate::handed::lemma_blocks_notes;
use crate::held::{held, marks};
use crate::index::{Block, DefIndex, Inst, LiveRangeIndex};
use crate::lists::{lists_ok, ListFamily};
use crate::liveness::{
    ctx_ok, entries_free, entries_ok, in_ok, livein_sets, out_ok, pass_blocks, pass_ok,
    preg_entries, set_below, vreg_range_ok, Ctx, LivenessPass, PassState,
};
use crate::reached::{blocks_scanned, defs_scanned, lemma_sites_scanned};
use crate::reg::{Allocation, RegAllocError, RegClass, VReg};
use crate::served::{lemma_all_served, served};
use crate::sort::{lemma_sorted_member, sort_by_key, stable_sort};
use crate::spans::{edges_live, lemma_edges_same};
use vstd::prelude::*;

verus! {

/// A register of which nothing is known yet.
pub open spec fn fresh_vreg(v: int) -> VRegData {
    VRegData {
        reg: VReg { vreg: v as u32, class: RegClass::Int },
        def: DefIndex(u32::MAX),
        blockparam: Block(u32::MAX),
    }
}

/// The tables with `n` registers and nothing else.
pub open spec fn graph_start(n: nat) -> GraphState {
    GraphState {
        ranges: Seq::empty(),
        uses: Seq::empty(),
        defs: Seq::empty(),
        vregs: Seq::new(n, |v: int| fresh_vreg(v)),
        bundles: Seq::empty(),
        in_vreg: Seq::new(n, |v: int| Seq::empty()),
        in_bundle: Seq::empty(),
        in_range: Seq::empty(),
    }
}

/// The scan before its first block.
pub open spec fn pass_start(c: Ctx) -> PassState {
    PassState {
        g: graph_start(c.f.num_vregs),
        liveins: Seq::new(c.f.blocks, |b: int| Set::empty()),
        outs: Seq::empty(),
        ins: Seq::empty(),
        pregs: Seq::new(c.m.regs.len(), |p: int| Seq::empty()),
        clobbers: Seq::empty(),
        fixups: Seq::empty(),
        live: Set::empty(),
        vreg_ranges: Seq::new(c.f.num_vregs, |v: int| LiveRangeIndex(u32::MAX)),
        num_ranges: 0,
    }
}

/// The liveness of the whole function: the scan over the blocks, the choice among several fixed
/// registers, and the sorted lists.
pub open spec fn pass_all(c: Ctx, s: PassState) -> Result<PassState, RegAllocError> {
    match pass_blocks(c, s, 0) {
        Ok(t) => match pass_fix_all(t, 0, c.f.num_vregs as int) {
            Ok(u) => Ok(
                PassState {
                    clobbers: stable_sort(u.clobbers),
                    ins: stable_sort(u.ins),
                    outs: stable_sort(u.outs),
                    ..u
                },
            ),
            Err(e) => Err(e),
        },
        Err(e) => Err(e),
    }
}

impl LiveGraph {
    /// The tables with the registers of the function and nothing else.
    pub fn new<F: Function>(func: &F) -> (r: Self)
        requires
            func_ok(func.model()),
        ensures
            r.wf(),
            r.func@ == func.model(),
            r@ == graph_start(func.model().num_vregs),
    {
        let n = func.num_vregs();
        let mut vregs: Vec<VRegData> = Vec::new();
        let mut in_vreg = ListFamily::new();
        let mut v: usize = 0;
        while v < n
            invariant
                v <= n,
                n < u32::MAX,
                in_vreg.wf(),
                in_vreg.nodes() == 0,
                vregs@ == Seq::new(v as nat, |i: int| fresh_vreg(i)),
                in_vreg@ == Seq::new(v as nat, |i: int| Seq::<u32>::empty()),
            decreases n - v,
        {
            vregs.push(
                VRegData {
                    reg: VReg::new(v, RegClass::Int),
                    def: DefIndex::invalid(),
                    blockparam: Block::invalid(),
                },
            );
            in_vreg.add_list();
            v += 1;
            assert(vregs@ =~= Seq::new(v as nat, |i: int| fresh_vreg(i)));
            assert(in_vreg@ =~= Seq::new(v as nat, |i: int| Seq::<u32>::empty()));
        }
        let r = LiveGraph {
            ranges: Vec::new(),
            uses: Vec::new(),
            defs: Vec::new(),
            vregs,
            bundles: Vec::new(),
            in_vreg,
            in_bundle: ListFamily::new(),
            in_range: ListFamily::new(),
            func: Ghost(func.model()),
        };
        proof {
            assert(r@ =~= graph_start(n as nat));
            assert(lists_ok(r@.in_vreg, 0) && lists_ok(r@.in_bundle, 0) && lists_ok(r@.in_range, 0))
                by {
                reveal(lists_ok);
            }
            assert forall|v: int| 0 <= v < r@.vregs.len() implies #[trigger] vreg_ok(
                func.model(),
                r@,
                v,
            ) by {
                assert(r@.vregs[v] == fresh_vreg(v));
            }
            assert(graph_ok(func.model(), r@));
        }
        r
    }
}

/// All operands without a location, and for each instruction the place of its first operand.
pub fn create_allocs<F: Function>(func: &F) -> (r: (Vec<Allocation>, Vec<u32>))
    requires
        func_ok(func.model()),
    ensures
        r.0@ == Seq::new(
            operands_before(func.model().operands, func.model().insts as int) as nat,
            |i: int| Allocation::Nowhere,
        ),
        r.1@ == Seq::new(
            func.model().insts,
            |i: int| operands_before(func.model().operands, i) as u32,
        ),
        forall|i: int|
            0 <= i < r.1@.len() ==> #[trigger] r.1@[i] == operands_before(
                func.model().operands,
                i,
            ),
{
    let ghost ops = func.model().operands;
    let n = func.insts();
    let mut allocs: Vec<Allocation> = Vec::new();
    let mut offsets: Vec<u32> = Vec::new();
    let mut inst: usize = 0;
    while inst < n
        invariant
            inst <= n,
            func_ok(func.model()),
            ops == func.model().operands,
            n == ops.len(),
            n == func.model().insts,
            allocs@ == Seq::new(
                operands_before(ops, inst as int) as nat,
                |i: int| Allocation::Nowhere,
            ),
            operands_before(ops, inst as int) >= 0,
            offsets@ == Seq::new(inst as nat, |i: int| operands_before(ops, i) as u32),
            forall|i: int| 0 <= i < offsets@.len() ==> #[trigger] offsets@[i] == operands_before(ops, i),
        decreases n - inst,
    {
        proof {
            lemma_operands_before(ops, inst as int, n as int);
        }
        offsets.push(allocs.len() as u32);
        let count = func.inst_operands(Inst::new(inst)).len();
        let mut k: usize = 0;
        while k < count
            invariant
                k <= count,
                operands_before(ops, inst as int) >= 0,
                allocs@ == Seq::new(
                    (operands_before(ops, inst as int) + k) as nat,
                    |i: int| Allocation::Nowhere,
                ),
            decreases count - k,
        {
            allocs.push(Allocation::none());
            k += 1;
            assert(allocs@ =~= Seq::new(
                (operands_before(ops, inst as int) + k) as nat,
                |i: int| Allocation::Nowhere,
            ));
        }
        inst += 1;
        assert(offsets@ =~= Seq::new(inst as nat, |i: int| operands_before(ops, i) as u32));
    }
    (allocs, offsets)
}

impl<'a, F: Function> LivenessPass<'a, F> {
    /// The scan before its first block.
    pub fn new(func: &'a F, env: &'a MachineEnv, cfginfo: &'a CFGInfo) -> (r: Self)
        requires
            ctx_ok((Ctx { f: func.model(), m: env@, cfg: cfginfo@ })),
        ensures
            r.ctx() == (Ctx { f: func.model(), m: env@, cfg: cfginfo@ }),
            r@ == pass_start(r.ctx()),
            r.wf(),
    {
        let ghost c = Ctx { f: func.model(), m: env@, cfg: cfginfo@ };
        let mut pregs: Vec<PRegData> = Vec::new();
        let mut p: usize = 0;
        while p < env.regs.len()
            invariant
                p <= env.regs@.len(),
                pregs@.len() == p,
                forall|i: int|
                    0 <= i < p ==> (#[trigger] pregs@[i]).reg == env.regs@[i] && pregs@[i].allocations@
                        == Seq::<crate::code_range::RangeEntry>::empty(),
            decreases env.regs@.len() - p,
        {
            pregs.push(PRegData { reg: env.regs[p], allocations: LiveRangeSet::new() });
            p += 1;
        }
        let blocks = func.blocks();
        let mut liveins: Vec<BitVec> = Vec::new();
        let mut b: usize = 0;
        while b < blocks
            invariant
                b <= blocks,
                liveins@.len() == b,
                forall|i: int| 0 <= i < b ==> (#[trigger] liveins@[i])@ == Set::<int>::empty(),
            decreases blocks - b,
        {
            liveins.push(BitVec::new());
            b += 1;
        }
        let n = func.num_vregs();
        let mut vreg_ranges: Vec<LiveRangeIndex> = Vec::new();
        let mut v: usize = 0;
        while v < n
            invariant
                v <= n,
                vreg_ranges@ == Seq::new(v as nat, |i: int| LiveRangeIndex(u32::MAX)),
            decreases n - v,
        {
            vreg_ranges.push(LiveRangeIndex::invalid());
            v += 1;
            assert(vreg_ranges@ =~= Seq::new(v as nat, |i: int| LiveRangeIndex(u32::MAX)));
        }
        let r = LivenessPass {
            func,
            env,
            cfginfo,
            g: LiveGraph::new(func),
            liveins,
            blockparam_outs: Vec::new(),
            blockparam_ins: Vec::new(),
            pregs,
            clobbers: Vec::new(),
            multi_fixed_reg_fixups: Vec::new(),
            live: BitVec::new(),
            vreg_ranges,
            num_ranges: 0,
        };
        proof {
            assert(preg_entries(r.pregs@) =~= pass_start(c).pregs);
            assert(livein_sets(r.liveins@) =~= pass_start(c).liveins);
            assert(r@ =~= pass_start(c));
            assert forall|v: int| 0 <= v < r@.vreg_ranges.len() implies vreg_range_ok(
                r@.g,
                v,
                #[trigger] r@.vreg_ranges[v],
            ) by {
                assert(r@.vreg_ranges[v] == LiveRangeIndex(u32::MAX));
            }
            assert forall|p: int| 0 <= p < r@.pregs.len() implies entries_ok(
                #[trigger] r@.pregs[p],
                0,
            ) && entries_free(r@.g.ranges, r@.pregs[p]) by {
                assert(r@.pregs[p].len() == 0);
            }
            assert forall|b: int| 0 <= b < r@.liveins.len() implies set_below(
                #[trigger] r@.liveins[b],
                c.f.num_vregs as int,
            ) by {
                assert(r@.liveins[b] == Set::<int>::empty());
            }
            reveal(marks);
            assert(pass_ok(c, r@));
        }
        r
    }

    /// Find the live ranges of all registers. A function in static single assignment form is not
    /// refused as not being in it.
    pub fn compute_liveness(self) -> (r: Result<Self, RegAllocError>)
        requires
            self.wf(),
            self@ == pass_start(self.ctx()),
        ensures
            match pass_all(self.ctx(), self@) {
                Ok(s) => {
                    &&& r matches Ok(p)
                    &&& p@ == s
                    &&& p.wf()
                    &&& p.ctx() == self.ctx()
                    &&& blocks_scanned(p.ctx(), s.g.uses, p.ctx().cfg.postorder.len() as int)
                    &&& held(p.ctx().f, s.g)
                    &&& edges_live(p.ctx(), s, p.ctx().cfg.postorder.len() as int)
                    &&& served(p.ctx().f, s.g, s.fixups)
                    &&& defs_scanned(
                        p.ctx(),
                        s.g.defs,
                        p.ctx().cfg.postorder.len() as int,
                        0x1_0000_0000,
                        0,
                    )
                },
                Err(e) => {
                    &&& r matches Err(x)
                    &&& x == e
                    &&& e is SSA ==> !ssa_form(self.ctx().f)
                },
            },
    {
        let mut pass = self;
        match pass.process_blocks() {
            Ok(()) => {},
            Err(e) => {
                return Err(e);
            },
        }
        let ghost first = pass@;
        let ghost found = pass@.g.uses;
        match pass.fix_all() {
            Ok(()) => {},
            Err(e) => {
                return Err(e);
            },
        }
        let ghost c = pass.ctx();
        let ghost u = pass@;
        pass.clobbers = sort_by_key(pass.clobbers);
        pass.blockparam_ins = sort_by_key(pass.blockparam_ins);
        pass.blockparam_outs = sort_by_key(pass.blockparam_outs);
        proof {
            lemma_sites_scanned(
                c,
                found,
                u.g.uses,
                c.cfg.postorder.len() as int,
                0x1_0000_0000,
                0,
            );
            assert(pass@ =~= PassState {
                clobbers: stable_sort(u.clobbers),
                ins: stable_sort(u.ins),
                outs: stable_sort(u.outs),
                ..u
            });
            lemma_blocks_notes(c, pass_start(c), 0);
            lemma_all_served(c.f, first);
            lemma_edges_same(c, first, pass@, c.cfg.postorder.len() as int);
            assert forall|i: int| 0 <= i < pass@.clobbers.len() implies (
            #[trigger] pass@.clobbers[i]).0 < c.f.insts by {
                lemma_sorted_member(u.clobbers, i);
            }
            assert forall|i: int| 0 <= i < pass@.ins.len() implies in_ok(
                c.f,
                #[trigger] pass@.ins[i],
            ) by {
                lemma_sorted_member(u.ins, i);
            }
            assert forall|i: int| 0 <= i < pass@.outs.len() implies out_ok(
                c.f,
                #[trigger] pass@.outs[i],
            ) by {
                lemma_sorted_member(u.outs, i);
            }
            assert(pass_ok(c, pass@));
        }
        Ok(pass)
    }
}

} // verus!
