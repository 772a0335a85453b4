//! Locations of operands, and the moves between them.
use crate::assign::{spillset_states, SpillSetState};
use crate::bitvec::BitVec;
use crate::cfg::{blockparam_ok, CFGInfo};
use crate::code_range::CodeRange;
use crate::data::{InsertMovePrio, InsertedMove};
use crate::func::{
    block_ok, inst_ok, lemma_operands_before, operand_ok, operands_before, FuncModel, Function,
    MachineEnv,
};
use crate::graph::{graph_ok, mention_ok, range_ok, vreg_ok, GraphState, LiveGraph};
use crate::halfmove::{
    half_move_key, key_fits, key_value, law_key_roundtrip, HalfMove, HalfMoveKind,
};
use crate::index::{Block, Inst, LiveRangeIndex, VRegIndex};
use crate::lists::{lemma_below, node_at, NIL};
use crate::liveness::{
    ctx_ok, fixup_ok, in_ok, livein_sets, out_ok, BlockparamIn, BlockparamOut, Ctx, Fixup,
};
use crate::reg::{Allocation, InstPosition, OperandPolicy, ProgPoint, RegAllocError};
use crate::sort::{lemma_sorted_member, sort_by_key, stable_sort};
use crate::spill::{slot_values, SlotData, SlotPass};
use vstd::prelude::*;

verus! {

/// Where a block parameter lives on entry of its block: the block, the position of the parameter,
/// its register, the location.
pub type BlockparamAlloc = (Block, u32, VRegIndex, Allocation);

/// What is read: the tables, the slots, what is live where, and the block parameters.
pub struct ApplyIn {
    pub c: Ctx,
    pub g: GraphState,
    pub spillsets: Seq<SpillSetState>,
    pub slots: Seq<SlotData>,
    pub liveins: Seq<Set<int>>,
    pub outs: Seq<BlockparamOut>,
    pub ins: Seq<BlockparamIn>,
}

/// What is built up.
#[verifier::ext_equal]
pub struct ApplyState {
    pub allocs: Seq<Allocation>,
    pub params: Seq<BlockparamAlloc>,
    pub moves: Seq<InsertedMove>,
    pub halves: Seq<HalfMove>,
    pub reuse: Seq<Inst>,
    pub in_idx: int,
    pub out_idx: int,
}

/// Assigns locations to operands and collects the moves between them.
pub struct ApplyPass<'a, F: Function> {
    pub func: &'a F,
    pub env: &'a MachineEnv,
    pub cfginfo: &'a CFGInfo,
    pub g: &'a LiveGraph,
    pub slots: &'a SlotPass,
    pub liveins: &'a Vec<BitVec>,
    pub blockparam_outs: &'a Vec<BlockparamOut>,
    pub blockparam_ins: &'a Vec<BlockparamIn>,
    pub inst_alloc_offsets: &'a Vec<u32>,
    pub allocs: Vec<Allocation>,
    pub blockparam_allocs: Vec<BlockparamAlloc>,
    pub inserted_moves: Vec<InsertedMove>,
    pub half_moves: Vec<HalfMove>,
    pub reuse_input_insts: Vec<Inst>,
    pub blockparam_in_idx: usize,
    pub blockparam_out_idx: usize,
}

/// What is read fits together.
pub open spec fn apply_in_ok(x: ApplyIn) -> bool {
    &&& ctx_ok(x.c)
    &&& graph_ok(x.c.f, x.g)
    &&& x.liveins.len() == x.c.f.blocks
    &&& forall|i: int| 0 <= i < x.outs.len() ==> out_ok(x.c.f, #[trigger] x.outs[i])
    &&& forall|i: int| 0 <= i < x.ins.len() ==> in_ok(x.c.f, #[trigger] x.ins[i])
}

/// The half-move is on an edge between blocks that exist.
pub open spec fn half_ok(f: FuncModel, h: HalfMove) -> bool {
    h.from_ix() < f.blocks && h.to_ix() < f.blocks
}

/// What is built up fits the function.
pub open spec fn apply_ok(f: FuncModel, s: ApplyState) -> bool {
    &&& s.allocs.len() == operands_before(f.operands, f.insts as int)
    &&& forall|i: int| 0 <= i < s.halves.len() ==> half_ok(f, #[trigger] s.halves[i])
    &&& forall|i: int| 0 <= i < s.reuse.len() ==> (#[trigger] s.reuse[i]).0 < f.insts
    &&& forall|i: int| 0 <= i < s.params.len() ==> param_ok(f, #[trigger] s.params[i])
    &&& forall|i: int| 0 <= i < s.moves.len() ==> (#[trigger] s.moves[i]).pos.inst.0 < f.insts
    &&& s.in_idx >= 0
    &&& s.out_idx >= 0
}

/// The block and the register of the entry exist.
pub open spec fn param_ok(f: FuncModel, p: BlockparamAlloc) -> bool {
    p.0.0 < f.blocks && p.2.0 < f.num_vregs
}

impl<'a, F: Function> ApplyPass<'a, F> {
    /// What is read.
    pub open spec fn input(&self) -> ApplyIn {
        ApplyIn {
            c: Ctx { f: self.func.model(), m: self.env@, cfg: self.cfginfo@ },
            g: self.g@,
            spillsets: spillset_states(self.slots.spillsets@),
            slots: slot_values(self.slots.spillslots@),
            liveins: livein_sets(self.liveins@),
            outs: self.blockparam_outs@,
            ins: self.blockparam_ins@,
        }
    }

    /// What is built up.
    pub open spec fn view(&self) -> ApplyState {
        ApplyState {
            allocs: self.allocs@,
            params: self.blockparam_allocs@,
            moves: self.inserted_moves@,
            halves: self.half_moves@,
            reuse: self.reuse_input_insts@,
            in_idx: self.blockparam_in_idx as int,
            out_idx: self.blockparam_out_idx as int,
        }
    }

    /// The parts fit together.
    pub open spec fn wf(&self) -> bool {
        &&& apply_in_ok(self.input())
        &&& apply_ok(self.func.model(), self@)
        &&& self.g.wf()
        &&& self.g.func@ == self.func.model()
        &&& self.inst_alloc_offsets@.len() == self.func.model().insts
        &&& forall|i: int|
            0 <= i < self.inst_alloc_offsets@.len() ==> #[trigger] self.inst_alloc_offsets@[i]
                == operands_before(self.func.model().operands, i)
    }
}

/// The location of live range `r`: that of its bundle, or the slot of its spill set.
pub open spec fn range_alloc(x: ApplyIn, r: u32) -> Option<Allocation> {
    let b = x.g.ranges[r as int].bundle;
    let set = x.g.bundles[b.ix()].spillset;
    let slot = x.spillsets[set.ix()].slot;
    if b.0 >= x.g.bundles.len() {
        None
    } else if x.g.bundles[b.ix()].allocation != Allocation::Nowhere {
        Some(x.g.bundles[b.ix()].allocation)
    } else if set.0 >= x.spillsets.len() || slot.0 >= x.slots.len() || x.slots[slot.ix()].alloc
        == Allocation::Nowhere {
        None
    } else {
        Some(x.slots[slot.ix()].alloc)
    }
}

/// The place of an operand among all operands.
pub open spec fn operand_place(f: FuncModel, inst: Inst, slot: int) -> int {
    operands_before(f.operands, inst.ix()) + slot
}

/// An operand gets its location.
pub open spec fn apply_set_alloc(f: FuncModel, s: ApplyState, inst: Inst, slot: int, alloc: Allocation) -> ApplyState {
    ApplyState { allocs: s.allocs.update(operand_place(f, inst, slot), alloc), ..s }
}

/// A half-move is noted.
pub open spec fn apply_half(
    s: ApplyState,
    from: Block,
    to: Block,
    v: u32,
    kind: HalfMoveKind,
    alloc: Allocation,
) -> Result<ApplyState, RegAllocError> {
    if key_fits(from.0, to.0, v) {
        Ok(
            ApplyState {
                halves: s.halves.push(
                    HalfMove {
                        key: key_value(from.ix(), to.ix(), v as int, kind) as u64,
                        alloc,
                    },
                ),
                ..s
            },
        )
    } else {
        Err(RegAllocError::TooLarge)
    }
}

/// A move is noted.
pub open spec fn apply_move(
    s: ApplyState,
    pos: ProgPoint,
    prio: InsertMovePrio,
    from_alloc: Allocation,
    to_alloc: Allocation,
) -> ApplyState {
    ApplyState { moves: s.moves.push(InsertedMove { pos, prio, from_alloc, to_alloc }), ..s }
}

/// Is the point the first one of its block?
pub open spec fn start_of_block(c: Ctx, pos: ProgPoint) -> bool {
    pos == c.cfg.block_entry[c.cfg.insn_block[pos.inst.ix()].ix()]
}

/// Does live range `r` begin where the definition of its register is?
pub open spec fn begins_with_def(g: GraphState, r: u32) -> bool {
    let lr = g.ranges[r as int];
    lr.def.is_valid() && g.defs[lr.def.ix()].pos == lr.range.from
}

/// Where a live range follows another one of its register without a gap, within a block and not
/// at a definition, the value is moved over if the locations differ.
pub open spec fn apply_abutting(
    x: ApplyIn,
    s: ApplyState,
    prev: Option<(u32, Allocation)>,
    r: u32,
    alloc: Allocation,
) -> Result<ApplyState, RegAllocError> {
    let range = x.g.ranges[r as int].range;
    match prev {
        Some((q, prev_alloc)) => if x.g.ranges[q as int].range.to == range.from && !start_of_block(
            x.c,
            range.from,
        ) && !begins_with_def(x.g, r) && prev_alloc != alloc {
            if range.from.pos is Before {
                Ok(apply_move(s, range.from, InsertMovePrio::Regular, prev_alloc, alloc))
            } else {
                Err(RegAllocError::SplitInst(range.from))
            }
        } else {
            Ok(s)
        },
        None => Ok(s),
    }
}

/// The successors of block `b` from position `k` on that the range does not reach and at whose
/// start register `v` is live: the location is the source of a move on the edge.
pub open spec fn apply_succs(
    x: ApplyIn,
    s: ApplyState,
    v: u32,
    range: CodeRange,
    alloc: Allocation,
    b: Block,
    k: int,
) -> Result<ApplyState, RegAllocError>
    decreases x.c.f.succs[b.ix()].len() - k,
{
    let succs = x.c.f.succs[b.ix()];
    if k < 0 || k >= succs.len() {
        Ok(s)
    } else {
        let succ = succs[k];
        if !range.has(x.c.cfg.block_entry[succ.ix()]) && x.liveins[succ.ix()].contains(v as int) {
            match apply_half(s, b, succ, v, HalfMoveKind::Source, alloc) {
                Ok(t) => apply_succs(x, t, v, range, alloc, b, k + 1),
                Err(e) => Err(e),
            }
        } else {
            apply_succs(x, s, v, range, alloc, b, k + 1)
        }
    }
}

/// Is the first pair of numbers less than the second one?
pub open spec fn pair_lt(a0: u32, a1: u32, b0: u32, b1: u32) -> bool {
    a0 < b0 || (a0 == b0 && a1 < b1)
}

/// The values that are handed to block parameters, up to those of register `v` at the end of block
/// `b`: the location is the source of a move for those of `v` and `b`.
pub open spec fn apply_outs(x: ApplyIn, s: ApplyState, v: u32, alloc: Allocation, b: Block) -> Result<
    ApplyState,
    RegAllocError,
>
    decreases x.outs.len() - s.out_idx,
{
    if s.out_idx < 0 || s.out_idx >= x.outs.len() {
        Ok(s)
    } else {
        let o = x.outs[s.out_idx];
        if pair_lt(v, b.0, o.0.0, o.1.0) {
            Ok(s)
        } else if o.0.0 == v && o.1 == b {
            match apply_half(s, o.1, o.2, o.3.0, HalfMoveKind::Source, alloc) {
                Ok(t) => apply_outs(
                    x,
                    ApplyState { out_idx: s.out_idx + 1, ..t },
                    v,
                    alloc,
                    b,
                ),
                Err(e) => Err(e),
            }
        } else {
            apply_outs(x, ApplyState { out_idx: s.out_idx + 1, ..s }, v, alloc, b)
        }
    }
}

/// The blocks from `b` on whose ends the range covers.
pub open spec fn apply_sources(
    x: ApplyIn,
    s: ApplyState,
    v: u32,
    range: CodeRange,
    alloc: Allocation,
    b: int,
) -> Result<ApplyState, RegAllocError>
    decreases x.c.f.blocks - b,
{
    if b < 0 || b >= x.c.f.blocks || range.to.ix() < x.c.cfg.block_exit[b].ix() + 1 {
        Ok(s)
    } else {
        let block = Block(b as u32);
        match apply_succs(x, s, v, range, alloc, block, 0) {
            Ok(t) => match apply_outs(x, t, v, alloc, block) {
                Ok(u) => apply_sources(x, u, v, range, alloc, b + 1),
                Err(e) => Err(e),
            },
            Err(e) => Err(e),
        }
    }
}

/// The block parameters, up to register `v` at the start of block `b`: the location is the
/// destination of a move on every edge into the block if `v` is a parameter of it.
pub open spec fn apply_ins(x: ApplyIn, s: ApplyState, v: u32, alloc: Allocation, b: Block) -> Result<
    ApplyState,
    RegAllocError,
>
    decreases x.ins.len() - s.in_idx,
{
    if s.in_idx < 0 || s.in_idx >= x.ins.len() {
        Ok(s)
    } else {
        let o = x.ins[s.in_idx];
        if pair_lt(v, b.0, o.0.0, o.1.0) {
            Ok(s)
        } else if o.0.0 == v && o.1 == b {
            match apply_half(s, o.2, o.1, o.0.0, HalfMoveKind::Dest, alloc) {
                Ok(t) => apply_ins(x, ApplyState { in_idx: s.in_idx + 1, ..t }, v, alloc, b),
                Err(e) => Err(e),
            }
        } else {
            apply_ins(x, ApplyState { in_idx: s.in_idx + 1, ..s }, v, alloc, b)
        }
    }
}

/// The predecessors of block `b` from position `k` on whose ends the range does not cover: the
/// location is the destination of a move on the edge.
pub open spec fn apply_preds(
    x: ApplyIn,
    s: ApplyState,
    v: u32,
    range: CodeRange,
    alloc: Allocation,
    b: Block,
    k: int,
) -> Result<ApplyState, RegAllocError>
    decreases x.c.f.preds[b.ix()].len() - k,
{
    let preds = x.c.f.preds[b.ix()];
    if k < 0 || k >= preds.len() {
        Ok(s)
    } else {
        let pred = preds[k];
        if range.has(x.c.cfg.block_exit[pred.ix()]) {
            apply_preds(x, s, v, range, alloc, b, k + 1)
        } else {
            match apply_half(s, pred, b, v, HalfMoveKind::Dest, alloc) {
                Ok(t) => apply_preds(x, t, v, range, alloc, b, k + 1),
                Err(e) => Err(e),
            }
        }
    }
}

/// The blocks from `b` on whose starts the range covers.
pub open spec fn apply_dests(
    x: ApplyIn,
    s: ApplyState,
    v: u32,
    range: CodeRange,
    alloc: Allocation,
    defining: Block,
    b: int,
) -> Result<ApplyState, RegAllocError>
    decreases x.c.f.blocks - b,
{
    if b < 0 || b >= x.c.f.blocks || x.c.cfg.block_entry[b].ix() >= range.to.ix() {
        Ok(s)
    } else {
        let block = Block(b as u32);
        match apply_ins(x, s, v, alloc, block) {
            Ok(t) => {
                let r = if block == defining || !x.liveins[b].contains(v as int) {
                    Ok(t)
                } else {
                    apply_preds(x, t, v, range, alloc, block, 0)
                };
                match r {
                    Ok(u) => apply_dests(x, u, v, range, alloc, defining, b + 1),
                    Err(e) => Err(e),
                }
            },
            Err(e) => Err(e),
        }
    }
}

/// The first block whose start is in the range or after its beginning.
pub open spec fn first_start(c: Ctx, range: CodeRange) -> int {
    let b = c.cfg.insn_block[range.from.inst.ix()].ix();
    if c.cfg.block_entry[b].ix() < range.from.ix() {
        b + 1
    } else {
        b
    }
}

/// Where a block parameter lives on entry of its block, if that is in the range.
pub open spec fn apply_param(x: ApplyIn, s: ApplyState, v: u32, range: CodeRange, alloc: Allocation) -> ApplyState {
    let (b, i) = x.c.cfg.vreg_def_blockparam[v as int];
    if b.is_valid() && range.has(x.c.cfg.block_entry[b.ix()]) {
        ApplyState { params: s.params.push((b, i, VRegIndex(v), alloc)), ..s }
    } else {
        s
    }
}

/// The uses from position `j` of the list on get the location.
pub open spec fn apply_uses(x: ApplyIn, s: ApplyState, list: Seq<u32>, j: int, alloc: Allocation) -> ApplyState
    decreases list.len() - j,
{
    if j < 0 || j >= list.len() {
        s
    } else {
        let u = x.g.uses[list[j] as int];
        apply_uses(
            x,
            apply_set_alloc(x.c.f, s, u.pos.inst, u.slot as int, alloc),
            list,
            j + 1,
            alloc,
        )
    }
}

/// The mentions of live range `r` get the location.
pub open spec fn apply_mentions(x: ApplyIn, s: ApplyState, r: u32, alloc: Allocation) -> ApplyState {
    let d = x.g.ranges[r as int].def;
    let def = x.g.defs[d.ix()];
    let t = if d.is_valid() {
        let u = apply_set_alloc(x.c.f, s, def.pos.inst, def.slot as int, alloc);
        if def.operand.policy is Reuse {
            ApplyState { reuse: u.reuse.push(def.pos.inst), ..u }
        } else {
            u
        }
    } else {
        s
    };
    apply_uses(x, t, x.g.in_range[r as int], 0, alloc)
}

/// Live range `r` of register `v`, after live range `prev` with its location.
pub open spec fn apply_range(
    x: ApplyIn,
    s: ApplyState,
    v: u32,
    defining: Block,
    prev: Option<(u32, Allocation)>,
    r: u32,
    alloc: Allocation,
) -> Result<ApplyState, RegAllocError> {
    let range = x.g.ranges[r as int].range;
    match apply_abutting(x, s, prev, r, alloc) {
        Ok(s1) => match apply_sources(
            x,
            s1,
            v,
            range,
            alloc,
            x.c.cfg.insn_block[range.from.inst.ix()].ix(),
        ) {
            Ok(s2) => match apply_dests(
                x,
                s2,
                v,
                range,
                alloc,
                defining,
                first_start(x.c, range),
            ) {
                Ok(s3) => Ok(apply_mentions(x, apply_param(x, s3, v, range, alloc), r, alloc)),
                Err(e) => Err(e),
            },
            Err(e) => Err(e),
        },
        Err(e) => Err(e),
    }
}

/// The live ranges of register `v` from position `i` on.
pub open spec fn apply_list(
    x: ApplyIn,
    s: ApplyState,
    v: u32,
    defining: Block,
    prev: Option<(u32, Allocation)>,
    i: int,
) -> Result<ApplyState, RegAllocError>
    decreases x.g.in_vreg[v as int].len() - i,
{
    let list = x.g.in_vreg[v as int];
    if i < 0 || i >= list.len() {
        Ok(s)
    } else {
        match range_alloc(x, list[i]) {
            Some(alloc) => match apply_range(x, s, v, defining, prev, list[i], alloc) {
                Ok(t) => apply_list(x, t, v, defining, Some((list[i], alloc)), i + 1),
                Err(e) => Err(e),
            },
            None => Err(RegAllocError::NoAllocation(LiveRangeIndex(list[i]))),
        }
    }
}

/// The block in which register `v` is defined, if there is one.
pub open spec fn defining_block(x: ApplyIn, v: int) -> Block {
    let d = x.g.vregs[v].def;
    if d.is_valid() {
        x.c.cfg.insn_block[x.g.defs[d.ix()].pos.inst.ix()]
    } else {
        x.g.vregs[v].blockparam
    }
}

/// The registers from `v` on.
pub open spec fn apply_vregs(x: ApplyIn, s: ApplyState, v: int) -> Result<ApplyState, RegAllocError>
    decreases x.c.f.num_vregs - v,
{
    if v < 0 || v >= x.c.f.num_vregs {
        Ok(s)
    } else {
        match apply_list(x, s, v as u32, defining_block(x, v), None, 0) {
            Ok(t) => apply_vregs(x, t, v + 1),
            Err(e) => Err(e),
        }
    }
}

/// Where moves on the edge between two blocks are placed: at the end of the first one if it has no
/// other way out, at the start of the second one if it has no other way in.
pub open spec fn edge_place(f: FuncModel, from: int, to: int) -> Option<(ProgPoint, InsertMovePrio)> {
    let last = Inst((f.insns[from].to.0 - 1) as u32);
    let outs = f.succs[from].len() + if f.rets[last.ix()] {
        1int
    } else {
        0int
    };
    let ins = f.preds[to].len() + if f.entry.ix() == to {
        1int
    } else {
        0int
    };
    if ins > 1 && outs <= 1 {
        Some((ProgPoint::after(last), InsertMovePrio::OutEdgeMoves))
    } else if ins <= 1 {
        Some((ProgPoint::before(f.insns[to].from), InsertMovePrio::InEdgeMoves))
    } else {
        None
    }
}

/// The first position from `i` on that holds a source.
pub open spec fn next_source(halves: Seq<HalfMove>, i: int) -> int
    decreases halves.len() - i,
{
    if i < 0 || i >= halves.len() || halves[i].is_source() {
        i
    } else {
        next_source(halves, i + 1)
    }
}

/// The first position from `i` on whose key is another one.
pub open spec fn other_key(halves: Seq<HalfMove>, key: u64, i: int) -> int
    decreases halves.len() - i,
{
    if i < 0 || i >= halves.len() || halves[i].key != key {
        i
    } else {
        other_key(halves, key, i + 1)
    }
}

/// Moves from one location to the destinations at positions `i` to `n`.
pub open spec fn apply_moves_to(
    s: ApplyState,
    halves: Seq<HalfMove>,
    src: Allocation,
    place: (ProgPoint, InsertMovePrio),
    i: int,
    n: int,
) -> ApplyState
    decreases n - i,
{
    if i >= n {
        s
    } else {
        apply_moves_to(
            apply_move(s, place.0, place.1, src, halves[i].alloc),
            halves,
            src,
            place,
            i + 1,
            n,
        )
    }
}

/// The half-moves from position `i` on are put together: the first source of an edge and register
/// with every destination of the same edge and register.
pub open spec fn apply_pairs(f: FuncModel, s: ApplyState, halves: Seq<HalfMove>, i: int) -> Result<
    ApplyState,
    RegAllocError,
>
    decreases halves.len() - i,
{
    let k = next_source(halves, i);
    if i < 0 || k < i || k >= halves.len() {
        Ok(s)
    } else {
        let src = halves[k];
        let first = other_key(halves, src.key, k + 1);
        let last = other_key(halves, src.key | 1, first);
        match edge_place(f, src.from_ix(), src.to_ix()) {
            Some(place) => {
                let t = apply_moves_to(s, halves, src.alloc, place, first, last);
                if k < last <= halves.len() {
                    apply_pairs(f, t, halves, last)
                } else {
                    Ok(t)
                }
            },
            None => Err(
                RegAllocError::CritEdge(
                    Block(src.from_ix() as u32),
                    Block(src.to_ix() as u32),
                ),
            ),
        }
    }
}

/// The copies that meet further fixed-register demands, from position `i` on.
pub open spec fn apply_fixups(c: Ctx, s: ApplyState, fixups: Seq<Fixup>, i: int) -> ApplyState
    decreases fixups.len() - i,
{
    if i < 0 || i >= fixups.len() {
        s
    } else {
        let x = fixups[i];
        apply_fixups(
            c,
            apply_move(
                s,
                x.0,
                InsertMovePrio::MultiFixedReg,
                Allocation::Reg(c.m.regs[x.1.ix()]),
                Allocation::Reg(c.m.regs[x.2.ix()]),
            ),
            fixups,
            i + 1,
        )
    }
}

/// The outputs of the instruction from operand `i` on that reuse an input: the input is copied to
/// the location of the output before the instruction, and read there.
pub open spec fn apply_reuse_operands(f: FuncModel, s: ApplyState, inst: Inst, i: int) -> ApplyState
    decreases f.operands[inst.ix()].len() - i,
{
    let ops = f.operands[inst.ix()];
    if i < 0 || i >= ops.len() {
        s
    } else {
        match ops[i].policy {
            OperandPolicy::Reuse(k) => {
                let a = s.allocs[operand_place(f, inst, k as int)];
                let b = s.allocs[operand_place(f, inst, i)];
                if a != b {
                    let t = apply_move(
                        s,
                        ProgPoint::before(inst),
                        InsertMovePrio::ReusedInput,
                        a,
                        b,
                    );
                    apply_reuse_operands(
                        f,
                        apply_set_alloc(f, t, inst, k as int, b),
                        inst,
                        i + 1,
                    )
                } else {
                    apply_reuse_operands(f, s, inst, i + 1)
                }
            },
            _ => apply_reuse_operands(f, s, inst, i + 1),
        }
    }
}

/// The instructions with outputs that reuse inputs, from position `i` on.
pub open spec fn apply_reuse(f: FuncModel, s: ApplyState, insts: Seq<Inst>, i: int) -> ApplyState
    decreases insts.len() - i,
{
    if i < 0 || i >= insts.len() {
        s
    } else {
        apply_reuse(f, apply_reuse_operands(f, s, insts[i], 0), insts, i + 1)
    }
}

/// Operands get their locations, and the moves between locations are noted.
pub open spec fn apply_all(x: ApplyIn, s: ApplyState, fixups: Seq<Fixup>) -> Result<
    ApplyState,
    RegAllocError,
> {
    match apply_vregs(x, s, 0) {
        Ok(s1) => match apply_pairs(x.c.f, s1, stable_sort(s1.halves), 0) {
            Ok(s2) => {
                let s3 = apply_fixups(x.c, s2, fixups, 0);
                Ok(apply_reuse(x.c.f, s3, s1.reuse, 0))
            },
            Err(e) => Err(e),
        },
        Err(e) => Err(e),
    }
}

/// The live range before, with its location.
pub open spec fn prev_of(prev: Option<(LiveRangeIndex, Allocation)>) -> Option<(u32, Allocation)> {
    match prev {
        Some((q, a)) => Some((q.0, a)),
        None => None,
    }
}

proof fn lemma_moves_to_keep(
    s: ApplyState,
    halves: Seq<HalfMove>,
    src: Allocation,
    place: (ProgPoint, InsertMovePrio),
    i: int,
    n: int,
)
    ensures
        ({
            let t = apply_moves_to(s, halves, src, place, i, n);
            t == (ApplyState { moves: t.moves, ..s })
        }),
    decreases n - i,
{
    if i < n {
        lemma_moves_to_keep(
            apply_move(s, place.0, place.1, src, halves[i].alloc),
            halves,
            src,
            place,
            i + 1,
            n,
        );
    }
}

pub proof fn lemma_pairs_keep(f: FuncModel, s: ApplyState, halves: Seq<HalfMove>, i: int)
    ensures
        apply_pairs(f, s, halves, i) matches Ok(t) ==> t == (ApplyState { moves: t.moves, ..s }),
    decreases halves.len() - i,
{
    let k = next_source(halves, i);
    if !(i < 0 || k < i || k >= halves.len()) {
        let src = halves[k];
        let first = other_key(halves, src.key, k + 1);
        let last = other_key(halves, src.key | 1, first);
        if let Some(place) = edge_place(f, src.from_ix(), src.to_ix()) {
            lemma_moves_to_keep(s, halves, src.alloc, place, first, last);
            if k < last <= halves.len() {
                let t = apply_moves_to(s, halves, src.alloc, place, first, last);
                lemma_pairs_keep(f, t, halves, last);
            }
        }
    }
}

pub proof fn lemma_fixups_keep(c: Ctx, s: ApplyState, fixups: Seq<Fixup>, i: int)
    ensures
        ({
            let t = apply_fixups(c, s, fixups, i);
            t == (ApplyState { moves: t.moves, ..s })
        }),
    decreases fixups.len() - i,
{
    if 0 <= i < fixups.len() {
        let x = fixups[i];
        lemma_fixups_keep(
            c,
            apply_move(
                s,
                x.0,
                InsertMovePrio::MultiFixedReg,
                Allocation::Reg(c.m.regs[x.1.ix()]),
                Allocation::Reg(c.m.regs[x.2.ix()]),
            ),
            fixups,
            i + 1,
        );
    }
}

proof fn lemma_reuse_operands_keep(f: FuncModel, s: ApplyState, inst: Inst, i: int)
    ensures
        ({
            let t = apply_reuse_operands(f, s, inst, i);
            t == (ApplyState { allocs: t.allocs, moves: t.moves, ..s })
        }),
    decreases f.operands[inst.ix()].len() - i,
{
    let ops = f.operands[inst.ix()];
    if 0 <= i < ops.len() {
        if let OperandPolicy::Reuse(k) = ops[i].policy {
            let a = s.allocs[operand_place(f, inst, k as int)];
            let b = s.allocs[operand_place(f, inst, i)];
            if a != b {
                let t = apply_move(
                    s,
                    ProgPoint::before(inst),
                    InsertMovePrio::ReusedInput,
                    a,
                    b,
                );
                lemma_reuse_operands_keep(
                    f,
                    apply_set_alloc(f, t, inst, k as int, b),
                    inst,
                    i + 1,
                );
            }
        }
        lemma_reuse_operands_keep(f, s, inst, i + 1);
    }
}

pub proof fn lemma_reuse_keep(f: FuncModel, s: ApplyState, insts: Seq<Inst>, i: int)
    ensures
        ({
            let t = apply_reuse(f, s, insts, i);
            t == (ApplyState { allocs: t.allocs, moves: t.moves, ..s })
        }),
    decreases insts.len() - i,
{
    if 0 <= i < insts.len() {
        lemma_reuse_operands_keep(f, s, insts[i], 0);
        lemma_reuse_keep(f, apply_reuse_operands(f, s, insts[i], 0), insts, i + 1);
    }
}

pub proof fn lemma_place(f: FuncModel, inst: Inst, slot: int)
    requires
        f.operands.len() == f.insts,
        inst.0 < f.insts,
        0 <= slot < f.operands[inst.ix()].len(),
    ensures
        0 <= operand_place(f, inst, slot) < operands_before(f.operands, f.insts as int),
{
    lemma_operands_before(f.operands, inst.ix(), f.insts as int);
}

impl<'a, F: Function> ApplyPass<'a, F> {
    /// The location of a live range.
    fn get_alloc_for_range(&self, range: LiveRangeIndex) -> (r: Result<Allocation, RegAllocError>)
        requires
            self.wf(),
            range.0 < self.input().g.ranges.len(),
        ensures
            match range_alloc(self.input(), range.0) {
                Some(a) => r == Ok::<Allocation, RegAllocError>(a),
                None => r == Err::<Allocation, RegAllocError>(RegAllocError::NoAllocation(range)),
            },
    {
        let bundle = self.g.ranges[range.0 as usize].bundle;
        if bundle.0 as usize >= self.g.bundles.len() {
            return Err(RegAllocError::NoAllocation(range));
        }
        let alloc = self.g.bundles[bundle.0 as usize].allocation;
        if alloc != Allocation::none() {
            return Ok(alloc);
        }
        let set = self.g.bundles[bundle.0 as usize].spillset;
        if set.0 as usize >= self.slots.spillsets.len() {
            return Err(RegAllocError::NoAllocation(range));
        }
        assert(self.input().spillsets[set.ix()] == self.slots.spillsets@[set.ix()]@);
        let slot = self.slots.spillsets[set.0 as usize].slot;
        if slot.0 as usize >= self.slots.spillslots.len() {
            return Err(RegAllocError::NoAllocation(range));
        }
        assert(self.input().slots[slot.ix()] == self.slots.spillslots@[slot.ix()]@);
        let place = self.slots.spillslots[slot.0 as usize].alloc;
        if place == Allocation::none() {
            return Err(RegAllocError::NoAllocation(range));
        }
        Ok(place)
    }

    /// The location of an operand.
    fn get_alloc(&self, inst: Inst, slot: usize) -> (r: Allocation)
        requires
            self.wf(),
            mention_ok(self.input().c.f, ProgPoint::before(inst), slot),
        ensures
            r == self@.allocs[operand_place(self.input().c.f, inst, slot as int)],
    {
        proof {
            lemma_place(self.input().c.f, inst, slot as int);
        }
        assert(self.inst_alloc_offsets@[inst.ix()] == operands_before(
            self.input().c.f.operands,
            inst.ix(),
        ));
        self.allocs[self.inst_alloc_offsets[inst.0 as usize] as usize + slot]
    }

    /// Give an operand its location.
    fn set_alloc(&mut self, inst: Inst, slot: usize, alloc: Allocation)
        requires
            old(self).wf(),
            mention_ok(old(self).input().c.f, ProgPoint::before(inst), slot),
        ensures
            final(self).input() == old(self).input(),
            final(self).wf(),
            final(self)@ == apply_set_alloc(old(self).input().c.f, old(self)@, inst, slot as int, alloc),
    {
        proof {
            lemma_place(self.input().c.f, inst, slot as int);
        }
        assert(self.inst_alloc_offsets@[inst.ix()] == operands_before(
            self.input().c.f.operands,
            inst.ix(),
        ));
        let place = self.inst_alloc_offsets[inst.0 as usize] as usize + slot;
        let ghost s = self@;
        self.allocs.set(place, alloc);
        assert(self@ =~= ApplyState { allocs: self@.allocs, ..s });
    }

    /// Note a move.
    fn insert_move(
        &mut self,
        pos: ProgPoint,
        prio: InsertMovePrio,
        from_alloc: Allocation,
        to_alloc: Allocation,
    )
        requires
            old(self).wf(),
            pos.inst.0 < old(self).input().c.f.insts,
        ensures
            final(self).input() == old(self).input(),
            final(self).wf(),
            final(self)@ == apply_move(old(self)@, pos, prio, from_alloc, to_alloc),
    {
        let ghost s = self@;
        self.inserted_moves.push(InsertedMove { pos, prio, from_alloc, to_alloc });
        assert(self@ =~= ApplyState { moves: self@.moves, ..s });
    }

    /// Note a half-move.
    fn insert_half_move(
        &mut self,
        from: Block,
        to: Block,
        vreg: VRegIndex,
        kind: HalfMoveKind,
        alloc: Allocation,
    ) -> (r: Result<(), RegAllocError>)
        requires
            old(self).wf(),
            from.0 < old(self).input().c.f.blocks,
            to.0 < old(self).input().c.f.blocks,
        ensures
            final(self).input() == old(self).input(),
            match apply_half(old(self)@, from, to, vreg.0, kind, alloc) {
                Ok(s) => r is Ok && final(self)@ == s && final(self).wf(),
                Err(e) => r == Err::<(), RegAllocError>(e) && e !is SSA,
            },
    {
        match half_move_key(from, to, vreg, kind) {
            Ok(key) => {
                let ghost s = self@;
                let h = HalfMove { key, alloc };
                proof {
                    law_key_roundtrip(from.0, to.0, vreg.0, kind, h);
                }
                self.half_moves.push(h);
                assert(self@ =~= ApplyState { halves: self@.halves, ..s });
                assert(self@ == apply_half(s, from, to, vreg.0, kind, alloc)->Ok_0);
                Ok(())
            },
            Err(e) => Err(e),
        }
    }

    /// Is the point the first one of its block?
    fn is_start_of_block(&self, pos: ProgPoint) -> (r: bool)
        requires
            self.wf(),
            pos.inst.0 < self.input().c.f.insts,
        ensures
            r == start_of_block(self.input().c, pos),
    {
        let block = self.cfginfo.insn_block[pos.inst.0 as usize];
        pos == self.cfginfo.block_entry[block.0 as usize]
    }

    /// Move the value over from the live range before.
    fn apply_abutting(
        &mut self,
        prev: Option<(LiveRangeIndex, Allocation)>,
        range: LiveRangeIndex,
        alloc: Allocation,
    ) -> (r: Result<(), RegAllocError>)
        requires
            old(self).wf(),
            range.0 < old(self).input().g.ranges.len(),
            prev matches Some((q, _)) ==> q.0 < old(self).input().g.ranges.len(),
        ensures
            final(self).input() == old(self).input(),
            match apply_abutting(old(self).input(), old(self)@, prev_of(prev), range.0, alloc) {
                Ok(s) => r is Ok && final(self)@ == s && final(self).wf(),
                Err(e) => r == Err::<(), RegAllocError>(e) && e !is SSA,
            },
    {
        assert(range_ok(self.input().c.f, self.input().g, range.ix()));
        match prev {
            Some((q, prev_alloc)) => {
                let data = &self.g.ranges[range.0 as usize];
                let from = data.range.from;
                let abuts = self.g.ranges[q.0 as usize].range.to == from;
                let at_def = data.def.is_valid() && self.g.defs[data.def.0 as usize].pos == from;
                if abuts && !self.is_start_of_block(from) && !at_def && prev_alloc != alloc {
                    if from.pos != InstPosition::Before {
                        return Err(RegAllocError::SplitInst(from));
                    }
                    self.insert_move(from, InsertMovePrio::Regular, prev_alloc, alloc);
                }
                Ok(())
            },
            None => Ok(()),
        }
    }

    /// Note the sources on the edges out of a block.
    fn apply_succs(&mut self, vreg: VRegIndex, range: CodeRange, alloc: Allocation, block: Block) -> (r:
        Result<(), RegAllocError>)
        requires
            old(self).wf(),
            vreg.0 < old(self).input().c.f.num_vregs,
            block.0 < old(self).input().c.f.blocks,
        ensures
            final(self).input() == old(self).input(),
            match apply_succs(old(self).input(), old(self)@, vreg.0, range, alloc, block, 0) {
                Ok(s) => r is Ok && final(self)@ == s && final(self).wf(),
                Err(e) => r == Err::<(), RegAllocError>(e) && e !is SSA,
            },
    {
        let ghost x = self.input();
        let ghost s = self@;
        assert(block_ok(x.c.f, block.ix()));
        let func = self.func;
        let succs = func.block_succs(block);
        let mut k: usize = 0;
        while k < succs.len()
            invariant
                self.wf(),
                x == old(self).input(),
                s == old(self)@,
                self.input() == x,
                block.0 < x.c.f.blocks,
                block_ok(x.c.f, block.ix()),
                succs@ == x.c.f.succs[block.ix()],
                k <= succs@.len(),
                apply_succs(x, s, vreg.0, range, alloc, block, 0) == apply_succs(
                    x,
                    self@,
                    vreg.0,
                    range,
                    alloc,
                    block,
                    k as int,
                ),
            decreases succs@.len() - k,
        {
            let succ = succs[k];
            assert(x.c.f.succs[block.ix()][k as int].0 < x.c.f.blocks);
            assert(x.liveins[succ.ix()] == self.liveins@[succ.ix()]@);
            if !range.contains_point(self.cfginfo.block_entry[succ.0 as usize])
                && self.liveins[succ.0 as usize].get(vreg.0 as usize) {
                match self.insert_half_move(block, succ, vreg, HalfMoveKind::Source, alloc) {
                    Ok(()) => {},
                    Err(e) => {
                        return Err(e);
                    },
                }
            }
            k += 1;
        }
        Ok(())
    }

    /// Note the sources of values that are handed to block parameters.
    fn apply_outs(&mut self, vreg: VRegIndex, alloc: Allocation, block: Block) -> (r: Result<
        (),
        RegAllocError,
    >)
        requires
            old(self).wf(),
        ensures
            final(self).input() == old(self).input(),
            match apply_outs(old(self).input(), old(self)@, vreg.0, alloc, block) {
                Ok(s) => r is Ok && final(self)@ == s && final(self).wf(),
                Err(e) => r == Err::<(), RegAllocError>(e) && e !is SSA,
            },
    {
        let ghost x = self.input();
        let ghost s = self@;
        while self.blockparam_out_idx < self.blockparam_outs.len()
            invariant
                self.wf(),
                x == old(self).input(),
                s == old(self)@,
                self.input() == x,
                apply_outs(x, s, vreg.0, alloc, block) == apply_outs(
                    x,
                    self@,
                    vreg.0,
                    alloc,
                    block,
                ),
            decreases x.outs.len() - self@.out_idx,
        {
            let (from_vreg, from_block, to_block, to_vreg) =
                self.blockparam_outs[self.blockparam_out_idx];
            assert(out_ok(x.c.f, x.outs[self@.out_idx]));
            if from_vreg.0 > vreg.0 || (from_vreg.0 == vreg.0 && from_block.0 > block.0) {
                return Ok(());
            }
            if from_vreg.0 == vreg.0 && from_block == block {
                match self.insert_half_move(
                    from_block,
                    to_block,
                    to_vreg,
                    HalfMoveKind::Source,
                    alloc,
                ) {
                    Ok(()) => {},
                    Err(e) => {
                        return Err(e);
                    },
                }
            }
            let ghost t = self@;
            self.blockparam_out_idx = self.blockparam_out_idx + 1;
            assert(self@ =~= ApplyState { out_idx: t.out_idx + 1, ..t });
        }
        Ok(())
    }

    /// Note the sources at the ends of blocks that the range covers.
    fn apply_sources(&mut self, vreg: VRegIndex, range: CodeRange, alloc: Allocation, first: Block) -> (r:
        Result<(), RegAllocError>)
        requires
            old(self).wf(),
            vreg.0 < old(self).input().c.f.num_vregs,
            first.0 < old(self).input().c.f.blocks,
        ensures
            final(self).input() == old(self).input(),
            match apply_sources(
                old(self).input(),
                old(self)@,
                vreg.0,
                range,
                alloc,
                first.ix(),
            ) {
                Ok(s) => r is Ok && final(self)@ == s && final(self).wf(),
                Err(e) => r == Err::<(), RegAllocError>(e) && e !is SSA,
            },
    {
        let ghost x = self.input();
        let ghost s = self@;
        let blocks = self.func.blocks();
        let mut b: usize = first.0 as usize;
        while b < blocks
            invariant
                self.wf(),
                x == old(self).input(),
                s == old(self)@,
                self.input() == x,
                blocks == x.c.f.blocks,
                b <= blocks,
                vreg.0 < x.c.f.num_vregs,
                apply_sources(x, s, vreg.0, range, alloc, first.ix()) == apply_sources(
                    x,
                    self@,
                    vreg.0,
                    range,
                    alloc,
                    b as int,
                ),
            decreases blocks - b,
        {
            assert(block_ok(x.c.f, b as int));
            assert(x.c.cfg.block_exit[b as int].inst.0 < x.c.f.insts);
            if range.to < self.cfginfo.block_exit[b].next() {
                return Ok(());
            }
            let block = Block::new(b);
            match self.apply_succs(vreg, range, alloc, block) {
                Ok(()) => {},
                Err(e) => {
                    return Err(e);
                },
            }
            match self.apply_outs(vreg, alloc, block) {
                Ok(()) => {},
                Err(e) => {
                    return Err(e);
                },
            }
            b += 1;
        }
        Ok(())
    }

    /// Note the destinations that are block parameters.
    fn apply_ins(&mut self, vreg: VRegIndex, alloc: Allocation, block: Block) -> (r: Result<
        (),
        RegAllocError,
    >)
        requires
            old(self).wf(),
        ensures
            final(self).input() == old(self).input(),
            match apply_ins(old(self).input(), old(self)@, vreg.0, alloc, block) {
                Ok(s) => r is Ok && final(self)@ == s && final(self).wf(),
                Err(e) => r == Err::<(), RegAllocError>(e) && e !is SSA,
            },
    {
        let ghost x = self.input();
        let ghost s = self@;
        while self.blockparam_in_idx < self.blockparam_ins.len()
            invariant
                self.wf(),
                x == old(self).input(),
                s == old(self)@,
                self.input() == x,
                apply_ins(x, s, vreg.0, alloc, block) == apply_ins(
                    x,
                    self@,
                    vreg.0,
                    alloc,
                    block,
                ),
            decreases x.ins.len() - self@.in_idx,
        {
            let (to_vreg, to_block, from_block) = self.blockparam_ins[self.blockparam_in_idx];
            assert(in_ok(x.c.f, x.ins[self@.in_idx]));
            if to_vreg.0 > vreg.0 || (to_vreg.0 == vreg.0 && to_block.0 > block.0) {
                return Ok(());
            }
            if to_vreg.0 == vreg.0 && to_block == block {
                match self.insert_half_move(
                    from_block,
                    to_block,
                    to_vreg,
                    HalfMoveKind::Dest,
                    alloc,
                ) {
                    Ok(()) => {},
                    Err(e) => {
                        return Err(e);
                    },
                }
            }
            let ghost t = self@;
            self.blockparam_in_idx = self.blockparam_in_idx + 1;
            assert(self@ =~= ApplyState { in_idx: t.in_idx + 1, ..t });
        }
        Ok(())
    }

    /// Note the destinations on the edges into a block.
    fn apply_preds(&mut self, vreg: VRegIndex, range: CodeRange, alloc: Allocation, block: Block) -> (r:
        Result<(), RegAllocError>)
        requires
            old(self).wf(),
            block.0 < old(self).input().c.f.blocks,
        ensures
            final(self).input() == old(self).input(),
            match apply_preds(old(self).input(), old(self)@, vreg.0, range, alloc, block, 0) {
                Ok(s) => r is Ok && final(self)@ == s && final(self).wf(),
                Err(e) => r == Err::<(), RegAllocError>(e) && e !is SSA,
            },
    {
        let ghost x = self.input();
        let ghost s = self@;
        assert(block_ok(x.c.f, block.ix()));
        let func = self.func;
        let preds = func.block_preds(block);
        let mut k: usize = 0;
        while k < preds.len()
            invariant
                self.wf(),
                x == old(self).input(),
                s == old(self)@,
                self.input() == x,
                block.0 < x.c.f.blocks,
                block_ok(x.c.f, block.ix()),
                preds@ == x.c.f.preds[block.ix()],
                k <= preds@.len(),
                apply_preds(x, s, vreg.0, range, alloc, block, 0) == apply_preds(
                    x,
                    self@,
                    vreg.0,
                    range,
                    alloc,
                    block,
                    k as int,
                ),
            decreases preds@.len() - k,
        {
            let pred = preds[k];
            assert(x.c.f.preds[block.ix()][k as int].0 < x.c.f.blocks);
            if !range.contains_point(self.cfginfo.block_exit[pred.0 as usize]) {
                match self.insert_half_move(pred, block, vreg, HalfMoveKind::Dest, alloc) {
                    Ok(()) => {},
                    Err(e) => {
                        return Err(e);
                    },
                }
            }
            k += 1;
        }
        Ok(())
    }

    /// Note the destinations at the starts of blocks that the range covers.
    fn apply_dests(
        &mut self,
        vreg: VRegIndex,
        range: CodeRange,
        alloc: Allocation,
        defining: Block,
        first: usize,
    ) -> (r: Result<(), RegAllocError>)
        requires
            old(self).wf(),
            vreg.0 < old(self).input().c.f.num_vregs,
            first <= old(self).input().c.f.blocks,
        ensures
            final(self).input() == old(self).input(),
            match apply_dests(
                old(self).input(),
                old(self)@,
                vreg.0,
                range,
                alloc,
                defining,
                first as int,
            ) {
                Ok(s) => r is Ok && final(self)@ == s && final(self).wf(),
                Err(e) => r == Err::<(), RegAllocError>(e) && e !is SSA,
            },
    {
        let ghost x = self.input();
        let ghost s = self@;
        let blocks = self.func.blocks();
        let mut b: usize = first;
        while b < blocks
            invariant
                self.wf(),
                x == old(self).input(),
                s == old(self)@,
                self.input() == x,
                blocks == x.c.f.blocks,
                b <= blocks,
                vreg.0 < x.c.f.num_vregs,
                apply_dests(x, s, vreg.0, range, alloc, defining, first as int) == apply_dests(
                    x,
                    self@,
                    vreg.0,
                    range,
                    alloc,
                    defining,
                    b as int,
                ),
            decreases blocks - b,
        {
            if self.cfginfo.block_entry[b] >= range.to {
                return Ok(());
            }
            let block = Block::new(b);
            match self.apply_ins(vreg, alloc, block) {
                Ok(()) => {},
                Err(e) => {
                    return Err(e);
                },
            }
            assert(x.liveins[b as int] == self.liveins@[b as int]@);
            if block != defining && self.liveins[b].get(vreg.0 as usize) {
                match self.apply_preds(vreg, range, alloc, block) {
                    Ok(()) => {},
                    Err(e) => {
                        return Err(e);
                    },
                }
            }
            b += 1;
        }
        Ok(())
    }

    /// Note where a block parameter lives on entry of its block.
    fn apply_param(&mut self, vreg: VRegIndex, range: CodeRange, alloc: Allocation)
        requires
            old(self).wf(),
            vreg.0 < old(self).input().c.f.num_vregs,
        ensures
            final(self).input() == old(self).input(),
            final(self).wf(),
            final(self)@ == apply_param(old(self).input(), old(self)@, vreg.0, range, alloc),
    {
        let ghost x = self.input();
        let (block, idx) = self.cfginfo.vreg_def_blockparam[vreg.0 as usize];
        assert(blockparam_ok(x.c.f, vreg.ix(), x.c.cfg.vreg_def_blockparam[vreg.ix()]));
        if block.is_valid() && range.contains_point(self.cfginfo.block_entry[block.0 as usize]) {
            let ghost s = self@;
            self.blockparam_allocs.push((block, idx, vreg, alloc));
            assert(self@ =~= ApplyState { params: self@.params, ..s });
            assert(param_ok(x.c.f, (block, idx, vreg, alloc)));
            assert forall|i: int| 0 <= i < self@.params.len() implies param_ok(
                x.c.f,
                #[trigger] self@.params[i],
            ) by {
                if i < s.params.len() {
                    assert(param_ok(x.c.f, s.params[i]));
                }
            }
        }
    }

    /// Give the mentions of a live range its location.
    fn apply_mentions(&mut self, range: LiveRangeIndex, alloc: Allocation)
        requires
            old(self).wf(),
            range.0 < old(self).input().g.ranges.len(),
        ensures
            final(self).input() == old(self).input(),
            final(self).wf(),
            final(self)@ == apply_mentions(old(self).input(), old(self)@, range.0, alloc),
    {
        let ghost x = self.input();
        assert(range_ok(x.c.f, x.g, range.ix()));
        let def = self.g.ranges[range.0 as usize].def;
        if def.is_valid() {
            let data = &self.g.defs[def.0 as usize];
            assert(mention_ok(x.c.f, x.g.defs[def.ix()].pos, x.g.defs[def.ix()].slot));
            let inst = data.pos.inst;
            let slot = data.slot;
            let reuses = matches!(data.operand.policy, OperandPolicy::Reuse(_));
            self.set_alloc(inst, slot, alloc);
            if reuses {
                let ghost s = self@;
                self.reuse_input_insts.push(inst);
                assert(self@ =~= ApplyState { reuse: self@.reuse, ..s });
            }
        }
        let ghost s = self@;
        let ghost list = x.g.in_range[range.ix()];
        let ghost mut j: int = 0;
        let g = self.g;
        let mut iter = g.in_range.first(range.0 as usize);
        while iter != NIL
            invariant
                self.wf(),
                self.input() == x,
                g.wf(),
                g@ == x.g,
                range.0 < x.g.in_range.len(),
                list == x.g.in_range[range.ix()],
                0 <= j <= list.len(),
                iter == node_at(list, j),
                iter == NIL <==> j == list.len(),
                apply_uses(x, s, list, 0, alloc) == apply_uses(x, self@, list, j, alloc),
            decreases list.len() - j,
        {
            proof {
                lemma_below(x.g.in_range, x.g.uses.len() as int, range.ix(), j);
            }
            let data = &g.uses[iter as usize];
            assert(mention_ok(x.c.f, x.g.uses[iter as int].pos, x.g.uses[iter as int].slot));
            self.set_alloc(data.pos.inst, data.slot, alloc);
            iter = g.in_range.next(iter, Ghost(range.ix()), Ghost(j));
            proof {
                j = j + 1;
            }
        }
    }

    /// Apply the location of one live range.
    fn apply_range(
        &mut self,
        vreg: VRegIndex,
        defining: Block,
        prev: Option<(LiveRangeIndex, Allocation)>,
        range: LiveRangeIndex,
        alloc: Allocation,
    ) -> (r: Result<(), RegAllocError>)
        requires
            old(self).wf(),
            vreg.0 < old(self).input().c.f.num_vregs,
            range.0 < old(self).input().g.ranges.len(),
            prev matches Some((q, _)) ==> q.0 < old(self).input().g.ranges.len(),
        ensures
            final(self).input() == old(self).input(),
            match apply_range(
                old(self).input(),
                old(self)@,
                vreg.0,
                defining,
                prev_of(prev),
                range.0,
                alloc,
            ) {
                Ok(s) => r is Ok && final(self)@ == s && final(self).wf(),
                Err(e) => r == Err::<(), RegAllocError>(e) && e !is SSA,
            },
    {
        let ghost x = self.input();
        assert(range_ok(x.c.f, x.g, range.ix()));
        let points = self.g.ranges[range.0 as usize].range;
        match self.apply_abutting(prev, range, alloc) {
            Ok(()) => {},
            Err(e) => {
                return Err(e);
            },
        }
        let block = self.cfginfo.insn_block[points.from.inst.0 as usize];
        match self.apply_sources(vreg, points, alloc, block) {
            Ok(()) => {},
            Err(e) => {
                return Err(e);
            },
        }
        let first: usize = if self.cfginfo.block_entry[block.0 as usize] < points.from {
            block.0 as usize + 1
        } else {
            block.0 as usize
        };
        match self.apply_dests(vreg, points, alloc, defining, first) {
            Ok(()) => {},
            Err(e) => {
                return Err(e);
            },
        }
        self.apply_param(vreg, points, alloc);
        self.apply_mentions(range, alloc);
        Ok(())
    }

    /// Apply the locations of the live ranges of one register.
    fn apply_vreg(&mut self, vreg: VRegIndex) -> (r: Result<(), RegAllocError>)
        requires
            old(self).wf(),
            vreg.0 < old(self).input().c.f.num_vregs,
        ensures
            final(self).input() == old(self).input(),
            match apply_list(
                old(self).input(),
                old(self)@,
                vreg.0,
                defining_block(old(self).input(), vreg.ix()),
                None,
                0,
            ) {
                Ok(s) => r is Ok && final(self)@ == s && final(self).wf(),
                Err(e) => r == Err::<(), RegAllocError>(e) && e !is SSA,
            },
    {
        let ghost x = self.input();
        let ghost s = self@;
        let g = self.g;
        let v = vreg.0 as usize;
        assert(vreg_ok(x.c.f, x.g, vreg.ix()));
        let def = g.vregs[v].def;
        let defining = if def.is_valid() {
            assert(mention_ok(x.c.f, x.g.defs[def.ix()].pos, x.g.defs[def.ix()].slot));
            self.cfginfo.insn_block[g.defs[def.0 as usize].pos.inst.0 as usize]
        } else {
            g.vregs[v].blockparam
        };
        let mut prev: Option<(LiveRangeIndex, Allocation)> = None;
        let ghost list = x.g.in_vreg[vreg.ix()];
        let ghost mut i: int = 0;
        let mut iter = g.in_vreg.first(v);
        while iter != NIL
            invariant
                self.wf(),
                x == old(self).input(),
                s == old(self)@,
                self.input() == x,
                g.wf(),
                g@ == x.g,
                vreg.0 < x.c.f.num_vregs,
                list == x.g.in_vreg[vreg.ix()],
                defining == defining_block(x, vreg.ix()),
                0 <= i <= list.len(),
                iter == node_at(list, i),
                iter == NIL <==> i == list.len(),
                prev matches Some((q, _)) ==> q.0 < x.g.ranges.len(),
                apply_list(x, s, vreg.0, defining, None, 0) == apply_list(
                    x,
                    self@,
                    vreg.0,
                    defining,
                    prev_of(prev),
                    i,
                ),
            decreases list.len() - i,
        {
            proof {
                lemma_below(x.g.in_vreg, x.g.ranges.len() as int, vreg.ix(), i);
            }
            let range = LiveRangeIndex(iter);
            let alloc = match self.get_alloc_for_range(range) {
                Ok(a) => a,
                Err(e) => {
                    return Err(e);
                },
            };
            match self.apply_range(vreg, defining, prev, range, alloc) {
                Ok(()) => {},
                Err(e) => {
                    return Err(e);
                },
            }
            prev = Some((range, alloc));
            iter = g.in_vreg.next(iter, Ghost(vreg.ix()), Ghost(i));
            proof {
                i = i + 1;
            }
        }
        Ok(())
    }

    /// Apply the locations of all live ranges.
    fn apply_vregs(&mut self) -> (r: Result<(), RegAllocError>)
        requires
            old(self).wf(),
        ensures
            final(self).input() == old(self).input(),
            match apply_vregs(old(self).input(), old(self)@, 0) {
                Ok(s) => r is Ok && final(self)@ == s && final(self).wf(),
                Err(e) => r == Err::<(), RegAllocError>(e) && e !is SSA,
            },
    {
        let ghost x = self.input();
        let ghost s = self@;
        let n = self.g.vregs.len();
        let mut v: usize = 0;
        while v < n
            invariant
                self.wf(),
                x == old(self).input(),
                s == old(self)@,
                self.input() == x,
                n == x.c.f.num_vregs,
                v <= n,
                n < u32::MAX,
                apply_vregs(x, s, 0) == apply_vregs(x, self@, v as int),
            decreases n - v,
        {
            match self.apply_vreg(VRegIndex::new(v)) {
                Ok(()) => {},
                Err(e) => {
                    return Err(e);
                },
            }
            v += 1;
        }
        Ok(())
    }

    /// Where moves on an edge are placed.
    fn edge_place(&self, from: Block, to: Block) -> (r: Option<(ProgPoint, InsertMovePrio)>)
        requires
            self.wf(),
            from.0 < self.input().c.f.blocks,
            to.0 < self.input().c.f.blocks,
        ensures
            r == edge_place(self.input().c.f, from.ix(), to.ix()),
            r matches Some((pos, _)) ==> pos.inst.0 < self.input().c.f.insts,
    {
        let ghost f = self.input().c.f;
        assert(block_ok(f, from.ix()));
        assert(block_ok(f, to.ix()));
        let last = self.func.block_insns(from).last();
        assert(last == Inst((f.insns[from.ix()].to.0 - 1) as u32));
        let first = self.func.block_insns(to).first();
        let outs = self.func.block_succs(from).len();
        let ins = self.func.block_preds(to).len();
        let many_outs = outs > 1 || (outs == 1 && self.func.is_ret(last));
        let many_ins = ins > 1 || (ins == 1 && self.func.entry_block() == to);
        if many_ins && !many_outs {
            Some((ProgPoint::after(last), InsertMovePrio::OutEdgeMoves))
        } else if !many_ins {
            Some((ProgPoint::before(first), InsertMovePrio::InEdgeMoves))
        } else {
            None
        }
    }

    /// Put the half-moves together.
    fn apply_pairs(&mut self, halves: &Vec<HalfMove>) -> (r: Result<(), RegAllocError>)
        requires
            old(self).wf(),
            forall|k: int|
                0 <= k < halves@.len() ==> half_ok(old(self).input().c.f, #[trigger] halves@[k]),
        ensures
            final(self).input() == old(self).input(),
            match apply_pairs(old(self).input().c.f, old(self)@, halves@, 0) {
                Ok(s) => r is Ok && final(self)@ == s && final(self).wf(),
                Err(e) => r == Err::<(), RegAllocError>(e) && e !is SSA,
            },
    {
        let ghost x = self.input();
        let ghost f = x.c.f;
        let ghost s = self@;
        let mut i: usize = 0;
        while i < halves.len()
            invariant
                self.wf(),
                x == old(self).input(),
                s == old(self)@,
                self.input() == x,
                f == x.c.f,
                i <= halves@.len(),
                forall|k: int| 0 <= k < halves@.len() ==> half_ok(f, #[trigger] halves@[k]),
                apply_pairs(f, s, halves@, 0) == apply_pairs(f, self@, halves@, i as int),
            decreases halves@.len() - i,
        {
            let ghost start = i;
            while i < halves.len() && halves[i].kind() != HalfMoveKind::Source
                invariant
                    start <= i <= halves@.len(),
                    next_source(halves@, start as int) == next_source(halves@, i as int),
                decreases halves@.len() - i,
            {
                i += 1;
            }
            assert(next_source(halves@, start as int) == i);
            if i >= halves.len() {
                return Ok(());
            }
            let src = halves[i];
            assert(half_ok(f, halves@[i as int]));
            let ghost k = i;
            i += 1;
            while i < halves.len() && halves[i].key == src.key
                invariant
                    k < i <= halves@.len(),
                    other_key(halves@, src.key, k + 1) == other_key(halves@, src.key, i as int),
                decreases halves@.len() - i,
            {
                i += 1;
            }
            let first = i;
            assert(other_key(halves@, src.key, k + 1) == first);
            let dest_key = src.key | 1;
            while i < halves.len() && halves[i].key == dest_key
                invariant
                    first <= i <= halves@.len(),
                    other_key(halves@, dest_key, first as int) == other_key(
                        halves@,
                        dest_key,
                        i as int,
                    ),
                decreases halves@.len() - i,
            {
                i += 1;
            }
            let last = i;
            assert(other_key(halves@, dest_key, first as int) == last);
            let from = src.from_block();
            let to = src.to_block();
            let (pos, prio) = match self.edge_place(from, to) {
                Some(place) => place,
                None => {
                    return Err(RegAllocError::CritEdge(from, to));
                },
            };
            let ghost t = self@;
            let mut d: usize = first;
            while d < last
                invariant
                    self.wf(),
                    self.input() == x,
                    f == x.c.f,
                    pos.inst.0 < f.insts,
                    first <= d <= last <= halves@.len(),
                    apply_moves_to(
                        t,
                        halves@,
                        src.alloc,
                        (pos, prio),
                        first as int,
                        last as int,
                    ) == apply_moves_to(
                        self@,
                        halves@,
                        src.alloc,
                        (pos, prio),
                        d as int,
                        last as int,
                    ),
                decreases last - d,
            {
                self.insert_move(pos, prio, src.alloc, halves[d].alloc);
                d += 1;
            }
        }
        Ok(())
    }

    /// Note the copies that meet further fixed-register demands.
    fn apply_fixups(&mut self, fixups: &Vec<Fixup>)
        requires
            old(self).wf(),
            forall|k: int|
                0 <= k < fixups@.len() ==> fixup_ok(old(self).input().c, #[trigger] fixups@[k]),
        ensures
            final(self).input() == old(self).input(),
            final(self).wf(),
            final(self)@ == apply_fixups(old(self).input().c, old(self)@, fixups@, 0),
    {
        let ghost x = self.input();
        let ghost s = self@;
        let mut i: usize = 0;
        while i < fixups.len()
            invariant
                self.wf(),
                self.input() == x,
                i <= fixups@.len(),
                forall|k: int| 0 <= k < fixups@.len() ==> fixup_ok(x.c, #[trigger] fixups@[k]),
                apply_fixups(x.c, s, fixups@, 0) == apply_fixups(x.c, self@, fixups@, i as int),
            decreases fixups@.len() - i,
        {
            let (pos, from, to) = fixups[i];
            assert(fixup_ok(x.c, fixups@[i as int]));
            self.insert_move(
                pos,
                InsertMovePrio::MultiFixedReg,
                Allocation::reg(self.env.regs[from.0 as usize]),
                Allocation::reg(self.env.regs[to.0 as usize]),
            );
            i += 1;
        }
    }

    /// Copy the inputs that outputs of the instruction reuse.
    fn apply_reuse_operands(&mut self, inst: Inst)
        requires
            old(self).wf(),
            inst.0 < old(self).input().c.f.insts,
        ensures
            final(self).input() == old(self).input(),
            final(self).wf(),
            final(self)@ == apply_reuse_operands(old(self).input().c.f, old(self)@, inst, 0),
    {
        let ghost x = self.input();
        let ghost f = x.c.f;
        let ghost s = self@;
        let func = self.func;
        let ops = func.inst_operands(inst);
        assert(inst_ok(f, inst.ix()));
        let mut i: usize = 0;
        while i < ops.len()
            invariant
                self.wf(),
                self.input() == x,
                f == x.c.f,
                inst.0 < f.insts,
                inst_ok(f, inst.ix()),
                ops@ == f.operands[inst.ix()],
                i <= ops@.len(),
                apply_reuse_operands(f, s, inst, 0) == apply_reuse_operands(
                    f,
                    self@,
                    inst,
                    i as int,
                ),
            decreases ops@.len() - i,
        {
            assert(operand_ok(f, inst.ix(), f.operands[inst.ix()][i as int]));
            if let OperandPolicy::Reuse(input) = ops[i].policy {
                let input_alloc = self.get_alloc(inst, input);
                let output_alloc = self.get_alloc(inst, i);
                if input_alloc != output_alloc {
                    self.insert_move(
                        ProgPoint::before(inst),
                        InsertMovePrio::ReusedInput,
                        input_alloc,
                        output_alloc,
                    );
                    self.set_alloc(inst, input, output_alloc);
                }
            }
            i += 1;
        }
    }

    /// Copy the inputs that outputs reuse.
    fn apply_reuse(&mut self)
        requires
            old(self).wf(),
        ensures
            final(self).input() == old(self).input(),
            final(self).wf(),
            final(self)@ == apply_reuse(old(self).input().c.f, old(self)@, old(self)@.reuse, 0),
    {
        let ghost x = self.input();
        let ghost f = x.c.f;
        let ghost s = self@;
        let n = self.reuse_input_insts.len();
        let mut i: usize = 0;
        while i < n
            invariant
                self.wf(),
                self.input() == x,
                f == x.c.f,
                self@.reuse == s.reuse,
                n == s.reuse.len(),
                i <= n,
                apply_reuse(f, s, s.reuse, 0) == apply_reuse(f, self@, s.reuse, i as int),
            decreases n - i,
        {
            let inst = self.reuse_input_insts[i];
            assert(s.reuse[i as int].0 < f.insts);
            proof {
                lemma_reuse_operands_keep(f, self@, inst, 0);
            }
            self.apply_reuse_operands(inst);
            i += 1;
        }
    }

    /// Give operands their locations and note the moves between locations.
    pub fn apply_allocations_and_insert_moves(&mut self, fixups: &Vec<Fixup>) -> (r: Result<
        usize,
        RegAllocError,
    >)
        requires
            old(self).wf(),
            forall|k: int|
                0 <= k < fixups@.len() ==> fixup_ok(old(self).input().c, #[trigger] fixups@[k]),
        ensures
            final(self).input() == old(self).input(),
            match apply_all(old(self).input(), old(self)@, fixups@) {
                Ok(s) => {
                    &&& r == Ok::<usize, RegAllocError>(s.halves.len() as usize)
                    &&& final(self)@ == s
                    &&& final(self).wf()
                },
                Err(e) => r == Err::<usize, RegAllocError>(e) && e !is SSA,
            },
    {
        match self.apply_vregs() {
            Ok(()) => {},
            Err(e) => {
                return Err(e);
            },
        }
        let ghost s1 = self@;
        let ghost f = self.input().c.f;
        let count = self.half_moves.len();
        let mut halves: Vec<HalfMove> = Vec::new();
        let mut k: usize = 0;
        while k < count
            invariant
                count == self.half_moves@.len(),
                k <= count,
                halves@ == self.half_moves@.subrange(0, k as int),
            decreases count - k,
        {
            halves.push(self.half_moves[k]);
            k += 1;
            assert(halves@ =~= self.half_moves@.subrange(0, k as int));
        }
        assert(halves@ =~= s1.halves);
        let halves = sort_by_key(halves);
        proof {
            assert forall|k: int| 0 <= k < halves@.len() implies half_ok(f, #[trigger] halves@[k]) by {
                lemma_sorted_member(s1.halves, k);
            }
            lemma_pairs_keep(f, s1, halves@, 0);
        }
        match self.apply_pairs(&halves) {
            Ok(()) => {},
            Err(e) => {
                return Err(e);
            },
        }
        let ghost s2 = self@;
        self.apply_fixups(fixups);
        proof {
            lemma_fixups_keep(self.input().c, s2, fixups@, 0);
            lemma_reuse_keep(f, self@, s1.reuse, 0);
        }
        self.apply_reuse();
        Ok(count)
    }
}

} // verus!
