//! Values are carried from one live range of their register to the next.
use crate::apply::{
    apply_abutting, apply_all, apply_dests, apply_fixups, apply_half, apply_in_ok, apply_ins,
    apply_list, apply_mentions, apply_move, apply_moves_to, apply_outs, apply_pairs, apply_param,
    apply_preds, apply_range, apply_reuse, apply_reuse_operands, apply_set_alloc, apply_sources,
    apply_succs, apply_uses, apply_vregs, begins_with_def, defining_block, edge_place, first_start,
    next_source, operand_place, other_key, pair_lt, range_alloc, start_of_block, ApplyIn,
    ApplyState,
};
use crate::code_range::CodeRange;
use crate::data::{InsertMovePrio, InsertedMove};
use crate::func::{block_ok, FuncModel};
use crate::graph::range_ok;
use crate::halfmove::{key_fits, key_value, law_key_roundtrip, HalfMove, HalfMoveKind};
use crate::index::{Block, Inst};
use crate::lists::lemma_below;
use crate::liveness::{ctx_ok, in_ok, out_ok, BlockparamOut, Ctx, Fixup};
use crate::order::in_order;
use crate::reg::{Allocation, OperandPolicy, ProgPoint, RegAllocError};
use crate::sort::{keys_sorted, law_stable_sort, lemma_sorted_member, stable_sort, HasKey};
use vstd::prelude::*;

verus! {

/// Moves and half-moves are only added, and the walks only go forward.
pub open spec fn grown(s: ApplyState, t: ApplyState) -> bool {
    &&& s.out_idx <= t.out_idx
    &&& s.in_idx <= t.in_idx
    &&& s.moves.len() <= t.moves.len()
    &&& s.halves.len() <= t.halves.len()
    &&& forall|i: int| 0 <= i < s.moves.len() ==> #[trigger] t.moves[i] == s.moves[i]
    &&& forall|i: int| 0 <= i < s.halves.len() ==> #[trigger] t.halves[i] == s.halves[i]
}

proof fn lemma_grown_half(s: ApplyState, t: ApplyState, h: HalfMove)
    requires
        grown(s, t),
        s.halves.contains(h),
    ensures
        t.halves.contains(h),
{
    let i = choose|i: int| 0 <= i < s.halves.len() && s.halves[i] == h;
    assert(t.halves[i] == h);
}

proof fn lemma_grown_move(s: ApplyState, t: ApplyState, m: InsertedMove)
    requires
        grown(s, t),
        s.moves.contains(m),
    ensures
        t.moves.contains(m),
{
    let i = choose|i: int| 0 <= i < s.moves.len() && s.moves[i] == m;
    assert(t.moves[i] == m);
}

/// An edge between blocks and a register.
pub struct Crossing {
    pub from: Block,
    pub to: Block,
    pub v: u32,
}

impl Crossing {
    /// The key of the half-moves of a kind.
    pub open spec fn key(self, kind: HalfMoveKind) -> u64 {
        key_value(self.from.ix(), self.to.ix(), self.v as int, kind) as u64
    }

    /// Can the numbers be put into a key?
    pub open spec fn fits(self) -> bool {
        key_fits(self.from.0, self.to.0, self.v)
    }

    /// The half-move of a kind with a location.
    pub open spec fn half(self, kind: HalfMoveKind, alloc: Allocation) -> HalfMove {
        HalfMove { key: self.key(kind), alloc }
    }
}

/// Only the given location is noted as the source.
pub open spec fn only_from(halves: Seq<HalfMove>, e: Crossing, alloc: Allocation) -> bool {
    forall|i: int|
        0 <= i < halves.len() && (#[trigger] halves[i]).key == e.key(HalfMoveKind::Source)
            ==> halves[i].alloc == alloc
}

/// Is the value of register `v` the one that the register of the crossing has after the edge? It is
/// that register itself, and live after the edge, or it is handed to it.
pub open spec fn feeds(x: ApplyIn, v: u32, e: Crossing) -> bool {
    ||| v == e.v && x.liveins[e.to.ix()].contains(v as int)
    ||| exists|i: int| 0 <= i < x.outs.len() && hands_over(#[trigger] x.outs[i], v, e)
}

/// Does the entry hand the value of register `v` to the register of the crossing?
pub open spec fn hands_over(o: BlockparamOut, v: u32, e: Crossing) -> bool {
    o.0.0 == v && o.1 == e.from && o.2 == e.to && o.3.0 == e.v
}

/// Noting a half-move of another edge, register or kind leaves the source the only one.
proof fn lemma_half(
    s: ApplyState,
    d: Crossing,
    kind: HalfMoveKind,
    alloc: Allocation,
    e: Crossing,
    src: Allocation,
)
    requires
        apply_half(s, d.from, d.to, d.v, kind, alloc) is Ok,
    ensures
        ({
            let t = apply_half(s, d.from, d.to, d.v, kind, alloc)->Ok_0;
            &&& grown(s, t)
            &&& t.moves == s.moves
            &&& t.out_idx == s.out_idx
            &&& t.in_idx == s.in_idx
            &&& d.fits()
            &&& t.halves.contains(d.half(kind, alloc))
            &&& e.fits() && only_from(s.halves, e, src) && (kind is Source && d == e ==> alloc
                == src) ==> only_from(t.halves, e, src)
        }),
{
    let t = apply_half(s, d.from, d.to, d.v, kind, alloc)->Ok_0;
    let n = s.halves.len() as int;
    assert(t.halves[n] == d.half(kind, alloc));
    if e.fits() && d.key(kind) == e.key(HalfMoveKind::Source) {
        law_key_roundtrip(d.from.0, d.to.0, d.v, kind, t.halves[n]);
        law_key_roundtrip(e.from.0, e.to.0, e.v, HalfMoveKind::Source, t.halves[n]);
        assert(d == e);
    }
}

proof fn lemma_succs(
    x: ApplyIn,
    s: ApplyState,
    v: u32,
    range: CodeRange,
    alloc: Allocation,
    b: Block,
    k: int,
    e: Crossing,
    src: Allocation,
)
    requires
        apply_succs(x, s, v, range, alloc, b, k) is Ok,
        0 <= k,
    ensures
        ({
            let t = apply_succs(x, s, v, range, alloc, b, k)->Ok_0;
            &&& grown(s, t)
            &&& t.moves == s.moves
            &&& t.out_idx == s.out_idx
            &&& t.in_idx == s.in_idx
            &&& e.fits() && only_from(s.halves, e, src) && (b == e.from && feeds(x, v, e) ==> alloc
                == src) ==> only_from(t.halves, e, src)
        }),
    decreases x.c.f.succs[b.ix()].len() - k,
{
    let succs = x.c.f.succs[b.ix()];
    if k < succs.len() {
        let succ = succs[k];
        if !range.has(x.c.cfg.block_entry[succ.ix()]) && x.liveins[succ.ix()].contains(v as int) {
            lemma_half(
                s,
                Crossing { from: b, to: succ, v },
                HalfMoveKind::Source,
                alloc,
                e,
                src,
            );
            let t = apply_half(s, b, succ, v, HalfMoveKind::Source, alloc)->Ok_0;
            lemma_succs(x, t, v, range, alloc, b, k + 1, e, src);
        } else {
            lemma_succs(x, s, v, range, alloc, b, k + 1, e, src);
        }
    }
}

/// The source of a move to a successor that the range does not reach is noted.
proof fn lemma_succ_noted(
    x: ApplyIn,
    s: ApplyState,
    v: u32,
    range: CodeRange,
    alloc: Allocation,
    b: Block,
    k: int,
    j: int,
)
    requires
        apply_succs(x, s, v, range, alloc, b, k) is Ok,
        0 <= k <= j < x.c.f.succs[b.ix()].len(),
        !range.has(x.c.cfg.block_entry[x.c.f.succs[b.ix()][j].ix()]),
        x.liveins[x.c.f.succs[b.ix()][j].ix()].contains(v as int),
    ensures
        ({
            let e = Crossing { from: b, to: x.c.f.succs[b.ix()][j], v };
            &&& e.fits()
            &&& apply_succs(x, s, v, range, alloc, b, k)->Ok_0.halves.contains(
                e.half(HalfMoveKind::Source, alloc),
            )
        }),
    decreases j - k,
{
    let succ = x.c.f.succs[b.ix()][k];
    let e = Crossing { from: b, to: succ, v };
    if j == k {
        let t = apply_half(s, b, succ, v, HalfMoveKind::Source, alloc)->Ok_0;
        lemma_half(s, e, HalfMoveKind::Source, alloc, e, alloc);
        lemma_succs(x, t, v, range, alloc, b, k + 1, e, alloc);
        lemma_grown_half(
            t,
            apply_succs(x, s, v, range, alloc, b, k)->Ok_0,
            e.half(HalfMoveKind::Source, alloc),
        );
    } else if !range.has(x.c.cfg.block_entry[succ.ix()]) && x.liveins[succ.ix()].contains(
        v as int,
    ) {
        let t = apply_half(s, b, succ, v, HalfMoveKind::Source, alloc)->Ok_0;
        lemma_succ_noted(x, t, v, range, alloc, b, k + 1, j);
    } else {
        lemma_succ_noted(x, s, v, range, alloc, b, k + 1, j);
    }
}

proof fn lemma_outs(
    x: ApplyIn,
    s: ApplyState,
    v: u32,
    alloc: Allocation,
    b: Block,
    e: Crossing,
    src: Allocation,
)
    requires
        apply_outs(x, s, v, alloc, b) is Ok,
    ensures
        ({
            let t = apply_outs(x, s, v, alloc, b)->Ok_0;
            &&& grown(s, t)
            &&& t.moves == s.moves
            &&& t.in_idx == s.in_idx
            &&& e.fits() && only_from(s.halves, e, src) && (b == e.from && feeds(x, v, e) ==> alloc
                == src) ==> only_from(t.halves, e, src)
        }),
    decreases x.outs.len() - s.out_idx,
{
    if !(s.out_idx < 0 || s.out_idx >= x.outs.len()) {
        let o = x.outs[s.out_idx];
        if pair_lt(v, b.0, o.0.0, o.1.0) {
        } else if o.0.0 == v && o.1 == b {
            let d = Crossing { from: o.1, to: o.2, v: o.3.0 };
            lemma_half(s, d, HalfMoveKind::Source, alloc, e, src);
            let t = apply_half(s, o.1, o.2, o.3.0, HalfMoveKind::Source, alloc)->Ok_0;
            lemma_outs(x, ApplyState { out_idx: s.out_idx + 1, ..t }, v, alloc, b, e, src);
        } else {
            lemma_outs(x, ApplyState { out_idx: s.out_idx + 1, ..s }, v, alloc, b, e, src);
        }
    }
}

/// Blocks start and end in the order of their numbers.
proof fn lemma_blocks_follow(c: Ctx, a: int, b: int)
    requires
        ctx_ok(c),
        0 <= a <= b < c.f.blocks,
    ensures
        c.cfg.block_entry[a].ix() <= c.cfg.block_entry[b].ix(),
        c.cfg.block_exit[a].ix() <= c.cfg.block_exit[b].ix(),
        c.cfg.block_entry[b].ix() < c.cfg.block_exit[b].ix(),
        a < b ==> c.cfg.block_exit[a].ix() < c.cfg.block_entry[b].ix(),
{
    assert(block_ok(c.f, a));
    assert(block_ok(c.f, b));
    assert(c.f.insns[a] == c.f.insns[a] && c.f.insns[b] == c.f.insns[b]);
}

/// The block of the beginning of a range.
proof fn lemma_first_block(c: Ctx, range: CodeRange)
    requires
        ctx_ok(c),
        range.within(c.f.insts),
    ensures
        ({
            let b = c.cfg.insn_block[range.from.inst.ix()].ix();
            &&& 0 <= b < c.f.blocks
            &&& c.cfg.block_entry[b].ix() <= range.from.ix() <= c.cfg.block_exit[b].ix()
        }),
{
    let i = range.from.inst.ix();
    let b = c.cfg.insn_block[i].ix();
    assert(c.f.insns[b].has(i));
    assert(block_ok(c.f, b));
}

proof fn lemma_sources(
    x: ApplyIn,
    s: ApplyState,
    v: u32,
    range: CodeRange,
    alloc: Allocation,
    b: int,
    e: Crossing,
    src: Allocation,
)
    requires
        ctx_ok(x.c),
        apply_sources(x, s, v, range, alloc, b) is Ok,
        0 <= b,
        b < x.c.f.blocks ==> range.from.ix() <= x.c.cfg.block_exit[b].ix(),
    ensures
        ({
            let t = apply_sources(x, s, v, range, alloc, b)->Ok_0;
            &&& grown(s, t)
            &&& t.moves == s.moves
            &&& t.in_idx == s.in_idx
            &&& e.fits() && only_from(s.halves, e, src) && (feeds(x, v, e) && range.has(
                x.c.cfg.block_exit[e.from.ix()],
            ) ==> alloc == src) ==> only_from(t.halves, e, src)
        }),
    decreases x.c.f.blocks - b,
{
    if !(b >= x.c.f.blocks || range.to.ix() < x.c.cfg.block_exit[b].ix() + 1) {
        let block = Block(b as u32);
        let t = apply_succs(x, s, v, range, alloc, block, 0)->Ok_0;
        let u = apply_outs(x, t, v, alloc, block)->Ok_0;
        lemma_succs(x, s, v, range, alloc, block, 0, e, src);
        lemma_outs(x, t, v, alloc, block, e, src);
        if b + 1 < x.c.f.blocks {
            lemma_blocks_follow(x.c, b, b + 1);
        }
        lemma_sources(x, u, v, range, alloc, b + 1, e, src);
    }
}

/// A range that covers the end of a block is noted as the source.
proof fn lemma_source_noted(
    x: ApplyIn,
    s: ApplyState,
    v: u32,
    range: CodeRange,
    alloc: Allocation,
    a: int,
    b: int,
    j: int,
)
    requires
        ctx_ok(x.c),
        apply_sources(x, s, v, range, alloc, a) is Ok,
        0 <= a <= b < x.c.f.blocks,
        range.from.ix() <= x.c.cfg.block_exit[a].ix(),
        range.has(x.c.cfg.block_exit[b]),
        0 <= j < x.c.f.succs[b].len(),
        !range.has(x.c.cfg.block_entry[x.c.f.succs[b][j].ix()]),
        x.liveins[x.c.f.succs[b][j].ix()].contains(v as int),
    ensures
        ({
            let e = Crossing { from: Block(b as u32), to: x.c.f.succs[b][j], v };
            &&& e.fits()
            &&& apply_sources(x, s, v, range, alloc, a)->Ok_0.halves.contains(
                e.half(HalfMoveKind::Source, alloc),
            )
        }),
    decreases b - a,
{
    let block = Block(a as u32);
    lemma_blocks_follow(x.c, a, b);
    let t = apply_succs(x, s, v, range, alloc, block, 0)->Ok_0;
    let u = apply_outs(x, t, v, alloc, block)->Ok_0;
    if a + 1 < x.c.f.blocks {
        lemma_blocks_follow(x.c, a, a + 1);
    }
    if a == b {
        let e = Crossing { from: block, to: x.c.f.succs[b][j], v };
        let h = e.half(HalfMoveKind::Source, alloc);
        lemma_succ_noted(x, s, v, range, alloc, block, 0, j);
        lemma_outs(x, t, v, alloc, block, e, alloc);
        lemma_grown_half(t, u, h);
        lemma_sources(x, u, v, range, alloc, a + 1, e, alloc);
        lemma_grown_half(u, apply_sources(x, u, v, range, alloc, a + 1)->Ok_0, h);
    } else {
        lemma_source_noted(x, u, v, range, alloc, a + 1, b, j);
    }
}

proof fn lemma_ins(
    x: ApplyIn,
    s: ApplyState,
    v: u32,
    alloc: Allocation,
    b: Block,
    e: Crossing,
    src: Allocation,
)
    requires
        apply_ins(x, s, v, alloc, b) is Ok,
    ensures
        ({
            let t = apply_ins(x, s, v, alloc, b)->Ok_0;
            &&& grown(s, t)
            &&& t.moves == s.moves
            &&& t.out_idx == s.out_idx
            &&& e.fits() && only_from(s.halves, e, src) ==> only_from(t.halves, e, src)
        }),
    decreases x.ins.len() - s.in_idx,
{
    if !(s.in_idx < 0 || s.in_idx >= x.ins.len()) {
        let o = x.ins[s.in_idx];
        if pair_lt(v, b.0, o.0.0, o.1.0) {
        } else if o.0.0 == v && o.1 == b {
            let d = Crossing { from: o.2, to: o.1, v: o.0.0 };
            lemma_half(s, d, HalfMoveKind::Dest, alloc, e, src);
            let t = apply_half(s, o.2, o.1, o.0.0, HalfMoveKind::Dest, alloc)->Ok_0;
            lemma_ins(x, ApplyState { in_idx: s.in_idx + 1, ..t }, v, alloc, b, e, src);
        } else {
            lemma_ins(x, ApplyState { in_idx: s.in_idx + 1, ..s }, v, alloc, b, e, src);
        }
    }
}

proof fn lemma_preds(
    x: ApplyIn,
    s: ApplyState,
    v: u32,
    range: CodeRange,
    alloc: Allocation,
    b: Block,
    k: int,
    e: Crossing,
    src: Allocation,
)
    requires
        apply_preds(x, s, v, range, alloc, b, k) is Ok,
        0 <= k,
    ensures
        ({
            let t = apply_preds(x, s, v, range, alloc, b, k)->Ok_0;
            &&& grown(s, t)
            &&& t.moves == s.moves
            &&& t.out_idx == s.out_idx
            &&& t.in_idx == s.in_idx
            &&& e.fits() && only_from(s.halves, e, src) ==> only_from(t.halves, e, src)
        }),
    decreases x.c.f.preds[b.ix()].len() - k,
{
    let preds = x.c.f.preds[b.ix()];
    if k < preds.len() {
        let pred = preds[k];
        if range.has(x.c.cfg.block_exit[pred.ix()]) {
            lemma_preds(x, s, v, range, alloc, b, k + 1, e, src);
        } else {
            let d = Crossing { from: pred, to: b, v };
            lemma_half(s, d, HalfMoveKind::Dest, alloc, e, src);
            let t = apply_half(s, pred, b, v, HalfMoveKind::Dest, alloc)->Ok_0;
            lemma_preds(x, t, v, range, alloc, b, k + 1, e, src);
        }
    }
}

/// The destination of a move from a predecessor whose end the range does not cover is noted.
proof fn lemma_pred_noted(
    x: ApplyIn,
    s: ApplyState,
    v: u32,
    range: CodeRange,
    alloc: Allocation,
    b: Block,
    k: int,
    j: int,
)
    requires
        apply_preds(x, s, v, range, alloc, b, k) is Ok,
        0 <= k <= j < x.c.f.preds[b.ix()].len(),
        !range.has(x.c.cfg.block_exit[x.c.f.preds[b.ix()][j].ix()]),
    ensures
        apply_preds(x, s, v, range, alloc, b, k)->Ok_0.halves.contains(
            (Crossing { from: x.c.f.preds[b.ix()][j], to: b, v }).half(HalfMoveKind::Dest, alloc),
        ),
    decreases j - k,
{
    let pred = x.c.f.preds[b.ix()][k];
    let e = Crossing { from: pred, to: b, v };
    if range.has(x.c.cfg.block_exit[pred.ix()]) {
        lemma_pred_noted(x, s, v, range, alloc, b, k + 1, j);
    } else {
        let t = apply_half(s, pred, b, v, HalfMoveKind::Dest, alloc)->Ok_0;
        if j == k {
            lemma_half(s, e, HalfMoveKind::Dest, alloc, e, alloc);
            lemma_preds(x, t, v, range, alloc, b, k + 1, e, alloc);
            lemma_grown_half(
                t,
                apply_preds(x, s, v, range, alloc, b, k)->Ok_0,
                e.half(HalfMoveKind::Dest, alloc),
            );
        } else {
            lemma_pred_noted(x, t, v, range, alloc, b, k + 1, j);
        }
    }
}

/// What the start of block `b` adds.
pub open spec fn apply_start_of(
    x: ApplyIn,
    s: ApplyState,
    v: u32,
    range: CodeRange,
    alloc: Allocation,
    defining: Block,
    b: int,
) -> ApplyState {
    let t = apply_ins(x, s, v, alloc, Block(b as u32))->Ok_0;
    if Block(b as u32) == defining || !x.liveins[b].contains(v as int) {
        t
    } else {
        apply_preds(x, t, v, range, alloc, Block(b as u32), 0)->Ok_0
    }
}

proof fn lemma_start_of(
    x: ApplyIn,
    s: ApplyState,
    v: u32,
    range: CodeRange,
    alloc: Allocation,
    defining: Block,
    b: int,
    e: Crossing,
    src: Allocation,
)
    requires
        apply_dests(x, s, v, range, alloc, defining, b) is Ok,
        0 <= b < x.c.f.blocks,
        x.c.cfg.block_entry[b].ix() < range.to.ix(),
    ensures
        ({
            let t = apply_start_of(x, s, v, range, alloc, defining, b);
            &&& apply_dests(x, s, v, range, alloc, defining, b) == apply_dests(
                x,
                t,
                v,
                range,
                alloc,
                defining,
                b + 1,
            )
            &&& grown(s, t)
            &&& t.moves == s.moves
            &&& t.out_idx == s.out_idx
            &&& e.fits() && only_from(s.halves, e, src) ==> only_from(t.halves, e, src)
        }),
{
    let block = Block(b as u32);
    let t = apply_ins(x, s, v, alloc, block)->Ok_0;
    lemma_ins(x, s, v, alloc, block, e, src);
    if !(block == defining || !x.liveins[b].contains(v as int)) {
        lemma_preds(x, t, v, range, alloc, block, 0, e, src);
    }
}

proof fn lemma_dests(
    x: ApplyIn,
    s: ApplyState,
    v: u32,
    range: CodeRange,
    alloc: Allocation,
    defining: Block,
    b: int,
    e: Crossing,
    src: Allocation,
)
    requires
        apply_dests(x, s, v, range, alloc, defining, b) is Ok,
        0 <= b,
    ensures
        ({
            let t = apply_dests(x, s, v, range, alloc, defining, b)->Ok_0;
            &&& grown(s, t)
            &&& t.moves == s.moves
            &&& t.out_idx == s.out_idx
            &&& e.fits() && only_from(s.halves, e, src) ==> only_from(t.halves, e, src)
        }),
    decreases x.c.f.blocks - b,
{
    if !(b >= x.c.f.blocks || x.c.cfg.block_entry[b].ix() >= range.to.ix()) {
        lemma_start_of(x, s, v, range, alloc, defining, b, e, src);
        let t = apply_start_of(x, s, v, range, alloc, defining, b);
        lemma_dests(x, t, v, range, alloc, defining, b + 1, e, src);
    }
}

/// A range that covers the start of a block is noted as the destination.
proof fn lemma_dest_noted(
    x: ApplyIn,
    s: ApplyState,
    v: u32,
    range: CodeRange,
    alloc: Allocation,
    defining: Block,
    a: int,
    b: int,
    j: int,
)
    requires
        ctx_ok(x.c),
        apply_dests(x, s, v, range, alloc, defining, a) is Ok,
        0 <= a <= b < x.c.f.blocks,
        range.has(x.c.cfg.block_entry[b]),
        Block(b as u32) != defining,
        x.liveins[b].contains(v as int),
        0 <= j < x.c.f.preds[b].len(),
        !range.has(x.c.cfg.block_exit[x.c.f.preds[b][j].ix()]),
    ensures
        apply_dests(x, s, v, range, alloc, defining, a)->Ok_0.halves.contains(
            (Crossing { from: x.c.f.preds[b][j], to: Block(b as u32), v }).half(
                HalfMoveKind::Dest,
                alloc,
            ),
        ),
    decreases b - a,
{
    let e = Crossing { from: x.c.f.preds[b][j], to: Block(b as u32), v };
    lemma_blocks_follow(x.c, a, b);
    lemma_start_of(x, s, v, range, alloc, defining, a, e, alloc);
    let t = apply_start_of(x, s, v, range, alloc, defining, a);
    if a == b {
        let p = apply_ins(x, s, v, alloc, Block(b as u32))->Ok_0;
        lemma_pred_noted(x, p, v, range, alloc, Block(b as u32), 0, j);
        lemma_dests(x, t, v, range, alloc, defining, a + 1, e, alloc);
        lemma_grown_half(
            t,
            apply_dests(x, t, v, range, alloc, defining, a + 1)->Ok_0,
            e.half(HalfMoveKind::Dest, alloc),
        );
    } else {
        lemma_dest_noted(x, t, v, range, alloc, defining, a + 1, b, j);
    }
}

proof fn lemma_uses(x: ApplyIn, s: ApplyState, list: Seq<u32>, j: int, alloc: Allocation)
    ensures
        apply_uses(x, s, list, j, alloc).moves == s.moves,
        apply_uses(x, s, list, j, alloc).halves == s.halves,
        apply_uses(x, s, list, j, alloc).out_idx == s.out_idx,
        apply_uses(x, s, list, j, alloc).in_idx == s.in_idx,
    decreases list.len() - j,
{
    if 0 <= j < list.len() {
        let u = x.g.uses[list[j] as int];
        let t = apply_set_alloc(x.c.f, s, u.pos.inst, u.slot as int, alloc);
        lemma_uses(x, t, list, j + 1, alloc);
    }
}

proof fn lemma_mentions(x: ApplyIn, s: ApplyState, r: u32, alloc: Allocation)
    ensures
        apply_mentions(x, s, r, alloc).moves == s.moves,
        apply_mentions(x, s, r, alloc).halves == s.halves,
        apply_mentions(x, s, r, alloc).out_idx == s.out_idx,
        apply_mentions(x, s, r, alloc).in_idx == s.in_idx,
{
    let d = x.g.ranges[r as int].def;
    let def = x.g.defs[d.ix()];
    let u = apply_set_alloc(x.c.f, s, def.pos.inst, def.slot as int, alloc);
    let list = x.g.in_range[r as int];
    lemma_uses(x, s, list, 0, alloc);
    lemma_uses(x, u, list, 0, alloc);
    lemma_uses(x, ApplyState { reuse: u.reuse.push(def.pos.inst), ..u }, list, 0, alloc);
}

/// One live range: the states after the move from the live range before and after the sources.
proof fn lemma_range(
    x: ApplyIn,
    s: ApplyState,
    v: u32,
    defining: Block,
    prev: Option<(u32, Allocation)>,
    r: u32,
    alloc: Allocation,
    e: Crossing,
    src: Allocation,
) -> (m: (ApplyState, ApplyState, ApplyState))
    requires
        ctx_ok(x.c),
        x.g.ranges[r as int].range.within(x.c.f.insts),
        apply_range(x, s, v, defining, prev, r, alloc) is Ok,
    ensures
        ({
            let range = x.g.ranges[r as int].range;
            let t = apply_range(x, s, v, defining, prev, r, alloc)->Ok_0;
            let (s1, s2, s3) = m;
            &&& apply_abutting(x, s, prev, r, alloc) == Ok::<ApplyState, RegAllocError>(s1)
            &&& apply_sources(
                x,
                s1,
                v,
                range,
                alloc,
                x.c.cfg.insn_block[range.from.inst.ix()].ix(),
            ) == Ok::<ApplyState, RegAllocError>(s2)
            &&& apply_dests(x, s2, v, range, alloc, defining, first_start(x.c, range)) == Ok::<
                ApplyState,
                RegAllocError,
            >(s3)
            &&& t.moves == s1.moves
            &&& t.halves == s3.halves
            &&& s1.out_idx == s.out_idx
            &&& s2.in_idx == s.in_idx
            &&& t.out_idx == s2.out_idx
            &&& t.in_idx == s3.in_idx
            &&& grown(s1, s2)
            &&& grown(s2, s3)
            &&& grown(s, t)
            &&& e.fits() && only_from(s.halves, e, src) && (feeds(x, v, e) && range.has(
                x.c.cfg.block_exit[e.from.ix()],
            ) ==> alloc == src) ==> only_from(t.halves, e, src)
        }),
{
    let range = x.g.ranges[r as int].range;
    let b = x.c.cfg.insn_block[range.from.inst.ix()].ix();
    let s1 = apply_abutting(x, s, prev, r, alloc)->Ok_0;
    let s2 = apply_sources(x, s1, v, range, alloc, b)->Ok_0;
    let s3 = apply_dests(x, s2, v, range, alloc, defining, first_start(x.c, range))->Ok_0;
    lemma_first_block(x.c, range);
    lemma_sources(x, s1, v, range, alloc, b, e, src);
    lemma_dests(x, s2, v, range, alloc, defining, first_start(x.c, range), e, src);
    lemma_mentions(x, apply_param(x, s3, v, range, alloc), r, alloc);
    (s1, s2, s3)
}

/// The live ranges of the register are in the program.
pub open spec fn list_ok(x: ApplyIn, v: u32) -> bool {
    forall|i: int|
        0 <= i < x.g.in_vreg[v as int].len() ==> x.g.ranges[(
        #[trigger] x.g.in_vreg[v as int][i]) as int].range.within(x.c.f.insts)
}

/// Every live range of the register from position `i` on that covers the end of the block before
/// the edge is in the location.
pub open spec fn leaves_from(x: ApplyIn, v: u32, i: int, e: Crossing, src: Allocation) -> bool {
    forall|k: int|
        i <= k < x.g.in_vreg[v as int].len() && x.g.ranges[(
        #[trigger] x.g.in_vreg[v as int][k]) as int].range.has(x.c.cfg.block_exit[e.from.ix()])
            ==> range_alloc(x, x.g.in_vreg[v as int][k]) == Some(src)
}

proof fn lemma_list(
    x: ApplyIn,
    s: ApplyState,
    v: u32,
    defining: Block,
    prev: Option<(u32, Allocation)>,
    i: int,
    e: Crossing,
    src: Allocation,
)
    requires
        ctx_ok(x.c),
        list_ok(x, v),
        0 <= i,
        apply_list(x, s, v, defining, prev, i) is Ok,
    ensures
        ({
            let t = apply_list(x, s, v, defining, prev, i)->Ok_0;
            &&& grown(s, t)
            &&& e.fits() && only_from(s.halves, e, src) && (feeds(x, v, e) ==> leaves_from(
                x,
                v,
                i,
                e,
                src,
            )) ==> only_from(t.halves, e, src)
        }),
    decreases x.g.in_vreg[v as int].len() - i,
{
    let list = x.g.in_vreg[v as int];
    if i < list.len() {
        let alloc = range_alloc(x, list[i])->Some_0;
        let t = apply_range(x, s, v, defining, prev, list[i], alloc)->Ok_0;
        let m = lemma_range(x, s, v, defining, prev, list[i], alloc, e, src);
        lemma_list(x, t, v, defining, Some((list[i], alloc)), i + 1, e, src);
    }
}

/// Every end of a block that comes before the end of live range `r` of register `v` comes before
/// entry `o` of the values that are handed over.
pub open spec fn before_out(x: ApplyIn, v: u32, r: u32, o: int) -> bool {
    &&& 0 <= o < x.outs.len()
    &&& forall|d: int|
        0 <= d < x.c.f.blocks && (#[trigger] x.c.cfg.block_exit[d]).ix()
            < x.g.ranges[r as int].range.to.ix() ==> pair_lt(
            v,
            d as u32,
            x.outs[o].0.0,
            x.outs[o].1.0,
        )
}

/// Every start of a block that comes before the end of live range `r` of register `v` comes before
/// entry `n` of the block parameters.
pub open spec fn before_in(x: ApplyIn, v: u32, r: u32, n: int) -> bool {
    &&& 0 <= n < x.ins.len()
    &&& forall|d: int|
        0 <= d < x.c.f.blocks && (#[trigger] x.c.cfg.block_entry[d]).ix()
            < x.g.ranges[r as int].range.to.ix() ==> pair_lt(
            v,
            d as u32,
            x.ins[n].0.0,
            x.ins[n].1.0,
        )
}

proof fn lemma_outs_before(x: ApplyIn, s: ApplyState, v: u32, alloc: Allocation, b: Block, o: int)
    requires
        apply_outs(x, s, v, alloc, b) is Ok,
        s.out_idx <= o < x.outs.len(),
        pair_lt(v, b.0, x.outs[o].0.0, x.outs[o].1.0),
    ensures
        apply_outs(x, s, v, alloc, b)->Ok_0.out_idx <= o,
    decreases x.outs.len() - s.out_idx,
{
    if !(s.out_idx < 0) {
        let e = x.outs[s.out_idx];
        if pair_lt(v, b.0, e.0.0, e.1.0) {
        } else if e.0.0 == v && e.1 == b {
            let t = apply_half(s, e.1, e.2, e.3.0, HalfMoveKind::Source, alloc)->Ok_0;
            lemma_outs_before(x, ApplyState { out_idx: s.out_idx + 1, ..t }, v, alloc, b, o);
        } else {
            lemma_outs_before(x, ApplyState { out_idx: s.out_idx + 1, ..s }, v, alloc, b, o);
        }
    }
}

proof fn lemma_ins_before(x: ApplyIn, s: ApplyState, v: u32, alloc: Allocation, b: Block, n: int)
    requires
        apply_ins(x, s, v, alloc, b) is Ok,
        s.in_idx <= n < x.ins.len(),
        pair_lt(v, b.0, x.ins[n].0.0, x.ins[n].1.0),
    ensures
        apply_ins(x, s, v, alloc, b)->Ok_0.in_idx <= n,
    decreases x.ins.len() - s.in_idx,
{
    if !(s.in_idx < 0) {
        let e = x.ins[s.in_idx];
        if pair_lt(v, b.0, e.0.0, e.1.0) {
        } else if e.0.0 == v && e.1 == b {
            let t = apply_half(s, e.2, e.1, e.0.0, HalfMoveKind::Dest, alloc)->Ok_0;
            lemma_ins_before(x, ApplyState { in_idx: s.in_idx + 1, ..t }, v, alloc, b, n);
        } else {
            lemma_ins_before(x, ApplyState { in_idx: s.in_idx + 1, ..s }, v, alloc, b, n);
        }
    }
}

proof fn lemma_sources_before(
    x: ApplyIn,
    s: ApplyState,
    v: u32,
    r: u32,
    alloc: Allocation,
    b: int,
    o: int,
)
    requires
        apply_sources(x, s, v, x.g.ranges[r as int].range, alloc, b) is Ok,
        0 <= b,
        before_out(x, v, r, o),
        s.out_idx <= o,
    ensures
        apply_sources(x, s, v, x.g.ranges[r as int].range, alloc, b)->Ok_0.out_idx <= o,
    decreases x.c.f.blocks - b,
{
    let range = x.g.ranges[r as int].range;
    if !(b >= x.c.f.blocks || range.to.ix() < x.c.cfg.block_exit[b].ix() + 1) {
        let block = Block(b as u32);
        let e = Crossing { from: block, to: block, v };
        let t = apply_succs(x, s, v, range, alloc, block, 0)->Ok_0;
        lemma_succs(x, s, v, range, alloc, block, 0, e, alloc);
        lemma_outs_before(x, t, v, alloc, block, o);
        lemma_sources_before(x, apply_outs(x, t, v, alloc, block)->Ok_0, v, r, alloc, b + 1, o);
    }
}

proof fn lemma_dests_before(
    x: ApplyIn,
    s: ApplyState,
    v: u32,
    r: u32,
    alloc: Allocation,
    defining: Block,
    b: int,
    n: int,
)
    requires
        apply_dests(x, s, v, x.g.ranges[r as int].range, alloc, defining, b) is Ok,
        0 <= b,
        before_in(x, v, r, n),
        s.in_idx <= n,
    ensures
        apply_dests(x, s, v, x.g.ranges[r as int].range, alloc, defining, b)->Ok_0.in_idx <= n,
    decreases x.c.f.blocks - b,
{
    let range = x.g.ranges[r as int].range;
    if !(b >= x.c.f.blocks || x.c.cfg.block_entry[b].ix() >= range.to.ix()) {
        let block = Block(b as u32);
        let e = Crossing { from: block, to: block, v };
        lemma_start_of(x, s, v, range, alloc, defining, b, e, alloc);
        let p = apply_ins(x, s, v, alloc, block)->Ok_0;
        lemma_ins_before(x, s, v, alloc, block, n);
        if !(block == defining || !x.liveins[b].contains(v as int)) {
            lemma_preds(x, p, v, range, alloc, block, 0, e, alloc);
        }
        let t = apply_start_of(x, s, v, range, alloc, defining, b);
        lemma_dests_before(x, t, v, r, alloc, defining, b + 1, n);
    }
}

/// The walks over the lists of values and parameters do not go past entries that come after a live
/// range.
proof fn lemma_range_before(
    x: ApplyIn,
    s: ApplyState,
    v: u32,
    defining: Block,
    prev: Option<(u32, Allocation)>,
    r: u32,
    alloc: Allocation,
    o: int,
    n: int,
)
    requires
        ctx_ok(x.c),
        x.g.ranges[r as int].range.within(x.c.f.insts),
        apply_range(x, s, v, defining, prev, r, alloc) is Ok,
    ensures
        ({
            let t = apply_range(x, s, v, defining, prev, r, alloc)->Ok_0;
            &&& s.out_idx <= o && before_out(x, v, r, o) ==> t.out_idx <= o
            &&& s.in_idx <= n && before_in(x, v, r, n) ==> t.in_idx <= n
        }),
{
    let range = x.g.ranges[r as int].range;
    let b = x.c.cfg.insn_block[range.from.inst.ix()].ix();
    let e = Crossing { from: defining, to: defining, v };
    let (s1, s2, s3) = lemma_range(x, s, v, defining, prev, r, alloc, e, alloc);
    lemma_first_block(x.c, range);
    if s.out_idx <= o && before_out(x, v, r, o) {
        lemma_sources_before(x, s1, v, r, alloc, b, o);
    }
    if s.in_idx <= n && before_in(x, v, r, n) {
        lemma_dests_before(x, s2, v, r, alloc, defining, first_start(x.c, range), n);
    }
}

/// All live ranges of the register from position `i` to `k` come before the entry.
pub open spec fn list_before_out(x: ApplyIn, v: u32, i: int, k: int, o: int) -> bool {
    forall|m: int| i <= m < k ==> before_out(x, v, #[trigger] x.g.in_vreg[v as int][m], o)
}

/// All live ranges of the register from position `i` to `k` come before the entry.
pub open spec fn list_before_in(x: ApplyIn, v: u32, i: int, k: int, n: int) -> bool {
    forall|m: int| i <= m < k ==> before_in(x, v, #[trigger] x.g.in_vreg[v as int][m], n)
}

proof fn lemma_list_before(
    x: ApplyIn,
    s: ApplyState,
    v: u32,
    defining: Block,
    prev: Option<(u32, Allocation)>,
    i: int,
    o: int,
    n: int,
)
    requires
        ctx_ok(x.c),
        list_ok(x, v),
        0 <= i,
        apply_list(x, s, v, defining, prev, i) is Ok,
    ensures
        ({
            let t = apply_list(x, s, v, defining, prev, i)->Ok_0;
            let len = x.g.in_vreg[v as int].len() as int;
            &&& s.out_idx <= o && list_before_out(x, v, i, len, o) ==> t.out_idx <= o
            &&& s.in_idx <= n && list_before_in(x, v, i, len, n) ==> t.in_idx <= n
        }),
    decreases x.g.in_vreg[v as int].len() - i,
{
    let list = x.g.in_vreg[v as int];
    if i < list.len() {
        let alloc = range_alloc(x, list[i])->Some_0;
        let t = apply_range(x, s, v, defining, prev, list[i], alloc)->Ok_0;
        lemma_range_before(x, s, v, defining, prev, list[i], alloc, o, n);
        lemma_list_before(x, t, v, defining, Some((list[i], alloc)), i + 1, o, n);
    }
}

/// The state before live range `k` of the register, and the live range before it.
proof fn lemma_list_at(
    x: ApplyIn,
    s: ApplyState,
    v: u32,
    defining: Block,
    prev: Option<(u32, Allocation)>,
    i: int,
    k: int,
    o: int,
    n: int,
) -> (m: (ApplyState, Option<(u32, Allocation)>))
    requires
        ctx_ok(x.c),
        list_ok(x, v),
        0 <= i <= k < x.g.in_vreg[v as int].len(),
        apply_list(x, s, v, defining, prev, i) is Ok,
    ensures
        ({
            let list = x.g.in_vreg[v as int];
            let alloc = range_alloc(x, list[k])->Some_0;
            let t = apply_range(x, m.0, v, defining, m.1, list[k], alloc);
            &&& range_alloc(x, list[k]) is Some
            &&& t is Ok
            &&& k == i ==> m.1 == prev
            &&& k > i ==> range_alloc(x, list[k - 1]) is Some && m.1 == Some(
                (list[k - 1], range_alloc(x, list[k - 1])->Some_0),
            )
            &&& grown(t->Ok_0, apply_list(x, s, v, defining, prev, i)->Ok_0)
            &&& grown(s, m.0)
            &&& s.out_idx <= o && list_before_out(x, v, i, k, o) ==> m.0.out_idx <= o
            &&& s.in_idx <= n && list_before_in(x, v, i, k, n) ==> m.0.in_idx <= n
        }),
    decreases k - i,
{
    let list = x.g.in_vreg[v as int];
    let alloc = range_alloc(x, list[i])->Some_0;
    let t = apply_range(x, s, v, defining, prev, list[i], alloc)->Ok_0;
    let next = Some((list[i], alloc));
    if k == i {
        let e = Crossing { from: defining, to: defining, v };
        lemma_list(x, t, v, defining, next, i + 1, e, alloc);
        (s, prev)
    } else {
        let e = Crossing { from: defining, to: defining, v };
        let m = lemma_range(x, s, v, defining, prev, list[i], alloc, e, alloc);
        lemma_range_before(x, s, v, defining, prev, list[i], alloc, o, n);
        lemma_list_at(x, t, v, defining, next, i + 1, k, o, n)
    }
}

proof fn lemma_vregs(x: ApplyIn, s: ApplyState, v: int, e: Crossing, src: Allocation)
    requires
        apply_in_ok(x),
        0 <= v,
        apply_vregs(x, s, v) is Ok,
    ensures
        ({
            let t = apply_vregs(x, s, v)->Ok_0;
            &&& grown(s, t)
            &&& e.fits() && only_from(s.halves, e, src) && (forall|w: u32|
                w < x.c.f.num_vregs && #[trigger] feeds(x, w, e) ==> leaves_from(x, w, 0, e, src))
                ==> only_from(t.halves, e, src)
        }),
    decreases x.c.f.num_vregs - v,
{
    if v < x.c.f.num_vregs {
        let w = v as u32;
        lemma_list_ok(x, w);
        let t = apply_list(x, s, w, defining_block(x, v), None, 0)->Ok_0;
        lemma_list(x, s, w, defining_block(x, v), None, 0, e, src);
        lemma_vregs(x, t, v + 1, e, src);
        assert(feeds(x, w, e) || !feeds(x, w, e));
    }
}

proof fn lemma_list_ok(x: ApplyIn, v: u32)
    requires
        apply_in_ok(x),
        v < x.c.f.num_vregs,
    ensures
        list_ok(x, v),
{
    assert forall|i: int| 0 <= i < x.g.in_vreg[v as int].len() implies x.g.ranges[(
    #[trigger] x.g.in_vreg[v as int][i]) as int].range.within(x.c.f.insts) by {
        lemma_below(x.g.in_vreg, x.g.ranges.len() as int, v as int, i);
        assert(range_ok(x.c.f, x.g, x.g.in_vreg[v as int][i] as int));
    }
}

/// The state before register `v`.
proof fn lemma_vregs_at(x: ApplyIn, s: ApplyState, w: int, v: int, o: int, n: int) -> (m:
    ApplyState)
    requires
        apply_in_ok(x),
        0 <= w <= v < x.c.f.num_vregs,
        apply_vregs(x, s, w) is Ok,
    ensures
        ({
            let t = apply_list(x, m, v as u32, defining_block(x, v), None, 0);
            &&& t is Ok
            &&& grown(t->Ok_0, apply_vregs(x, s, w)->Ok_0)
            &&& grown(s, m)
            &&& s.out_idx <= o < x.outs.len() && 0 <= o && x.outs[o].0.0 == v ==> m.out_idx <= o
            &&& s.in_idx <= n < x.ins.len() && 0 <= n && x.ins[n].0.0 == v ==> m.in_idx <= n
        }),
    decreases v - w,
{
    let t = apply_list(x, s, w as u32, defining_block(x, w), None, 0)->Ok_0;
    if w == v {
        let e = Crossing { from: Block(0), to: Block(0), v: 0 };
        lemma_vregs(x, t, w + 1, e, Allocation::Nowhere);
        s
    } else {
        lemma_list_ok(x, w as u32);
        let e = Crossing { from: Block(0), to: Block(0), v: 0 };
        lemma_list(x, s, w as u32, defining_block(x, w), None, 0, e, Allocation::Nowhere);
        lemma_list_before(x, s, w as u32, defining_block(x, w), None, 0, o, n);
        lemma_vregs_at(x, t, w + 1, v, o, n)
    }
}

proof fn lemma_moves_to(
    s: ApplyState,
    halves: Seq<HalfMove>,
    src: Allocation,
    place: (ProgPoint, InsertMovePrio),
    i: int,
    n: int,
    d: int,
)
    ensures
        grown(s, apply_moves_to(s, halves, src, place, i, n)),
        i <= d < n ==> apply_moves_to(s, halves, src, place, i, n).moves.contains(
            InsertedMove {
                pos: place.0,
                prio: place.1,
                from_alloc: src,
                to_alloc: halves[d].alloc,
            },
        ),
    decreases n - i,
{
    if i < n {
        let t = apply_move(s, place.0, place.1, src, halves[i].alloc);
        lemma_moves_to(t, halves, src, place, i + 1, n, d);
        if i == d {
            let m = InsertedMove {
                pos: place.0,
                prio: place.1,
                from_alloc: src,
                to_alloc: halves[d].alloc,
            };
            assert(t.moves[s.moves.len() as int] == m);
            lemma_grown_move(t, apply_moves_to(s, halves, src, place, i, n), m);
        }
    }
}

/// The moves that were added are not between live ranges within a block.
pub open spec fn no_splits_added(s: ApplyState, t: ApplyState) -> bool {
    &&& grown(s, t)
    &&& forall|i: int|
        s.moves.len() <= i < t.moves.len() ==> !((#[trigger] t.moves[i]).prio is Regular)
}

proof fn lemma_moves_to_other(
    s: ApplyState,
    halves: Seq<HalfMove>,
    src: Allocation,
    place: (ProgPoint, InsertMovePrio),
    i: int,
    n: int,
)
    requires
        !(place.1 is Regular),
    ensures
        no_splits_added(s, apply_moves_to(s, halves, src, place, i, n)),
    decreases n - i,
{
    if i < n {
        let t = apply_move(s, place.0, place.1, src, halves[i].alloc);
        lemma_moves_to_other(t, halves, src, place, i + 1, n);
    }
}

proof fn lemma_pairs(f: FuncModel, s: ApplyState, halves: Seq<HalfMove>, i: int)
    ensures
        apply_pairs(f, s, halves, i) matches Ok(t) ==> no_splits_added(s, t),
    decreases halves.len() - i,
{
    let k = next_source(halves, i);
    if !(i < 0 || k < i || k >= halves.len()) {
        let src = halves[k];
        let first = other_key(halves, src.key, k + 1);
        let last = other_key(halves, src.key | 1, first);
        if let Some(place) = edge_place(f, src.from_ix(), src.to_ix()) {
            lemma_moves_to_other(s, halves, src.alloc, place, first, last);
            if k < last <= halves.len() {
                let t = apply_moves_to(s, halves, src.alloc, place, first, last);
                lemma_pairs(f, t, halves, last);
            }
        }
    }
}

/// The moves that were added meet demands of single instructions.
pub open spec fn fixes_added(s: ApplyState, t: ApplyState) -> bool {
    &&& grown(s, t)
    &&& forall|i: int|
        s.moves.len() <= i < t.moves.len() ==> (#[trigger] t.moves[i]).prio is MultiFixedReg
            || t.moves[i].prio is ReusedInput && t.moves[i].pos.pos is Before
}

proof fn lemma_fixups(c: Ctx, s: ApplyState, fixups: Seq<Fixup>, i: int)
    ensures
        fixes_added(s, apply_fixups(c, s, fixups, i)),
    decreases fixups.len() - i,
{
    if 0 <= i < fixups.len() {
        let x = fixups[i];
        let t = apply_move(
            s,
            x.0,
            InsertMovePrio::MultiFixedReg,
            Allocation::Reg(c.m.regs[x.1.ix()]),
            Allocation::Reg(c.m.regs[x.2.ix()]),
        );
        lemma_fixups(c, t, fixups, i + 1);
    }
}

proof fn lemma_reuse_operands(f: FuncModel, s: ApplyState, inst: Inst, i: int)
    ensures
        fixes_added(s, apply_reuse_operands(f, s, inst, i)),
    decreases f.operands[inst.ix()].len() - i,
{
    let ops = f.operands[inst.ix()];
    if 0 <= i < ops.len() {
        if let OperandPolicy::Reuse(k) = ops[i].policy {
            let a = s.allocs[operand_place(f, inst, k as int)];
            let b = s.allocs[operand_place(f, inst, i)];
            let t = apply_move(s, ProgPoint::before(inst), InsertMovePrio::ReusedInput, a, b);
            lemma_reuse_operands(f, apply_set_alloc(f, t, inst, k as int, b), inst, i + 1);
        }
        lemma_reuse_operands(f, s, inst, i + 1);
    }
}

proof fn lemma_reuse(f: FuncModel, s: ApplyState, insts: Seq<Inst>, i: int)
    ensures
        fixes_added(s, apply_reuse(f, s, insts, i)),
    decreases insts.len() - i,
{
    if 0 <= i < insts.len() {
        lemma_reuse_operands(f, s, insts[i], 0);
        lemma_reuse(f, apply_reuse_operands(f, s, insts[i], 0), insts, i + 1);
    }
}

/// What is found by looking for the next source.
proof fn lemma_next_source(halves: Seq<HalfMove>, i: int)
    requires
        0 <= i <= halves.len(),
    ensures
        ({
            let k = next_source(halves, i);
            &&& i <= k <= halves.len()
            &&& k < halves.len() ==> halves[k].is_source()
            &&& forall|j: int| i <= j < k ==> !(#[trigger] halves[j]).is_source()
        }),
    decreases halves.len() - i,
{
    if i < halves.len() && !halves[i].is_source() {
        lemma_next_source(halves, i + 1);
    }
}

/// What is found by looking for another key.
proof fn lemma_other_key(halves: Seq<HalfMove>, key: u64, i: int)
    requires
        0 <= i <= halves.len(),
    ensures
        ({
            let k = other_key(halves, key, i);
            &&& i <= k <= halves.len()
            &&& k < halves.len() ==> halves[k].key != key
            &&& forall|j: int| i <= j < k ==> (#[trigger] halves[j]).key == key
        }),
    decreases halves.len() - i,
{
    if i < halves.len() && halves[i].key == key {
        lemma_other_key(halves, key, i + 1);
    }
}

/// The key of a destination is the one after that of its source.
proof fn lemma_key_pair(k: u64)
    requires
        k & 1 != 1,
    ensures
        (k | 1) == k + 1,
        (k | 1) & 1 == 1,
{
    assert((k | 1) == k + 1 && (k | 1) & 1 == 1) by (bit_vector)
        requires
            k & 1 != 1,
    ;
}

/// A source and a destination of one edge and register are put together.
proof fn lemma_paired(
    f: FuncModel,
    s: ApplyState,
    halves: Seq<HalfMove>,
    i: int,
    p: int,
    d: int,
    e: Crossing,
    src: Allocation,
)
    requires
        keys_sorted(halves),
        e.fits(),
        0 <= i <= p < halves.len(),
        0 <= d < halves.len(),
        halves[p] == e.half(HalfMoveKind::Source, src),
        halves[d].key == e.key(HalfMoveKind::Dest),
        only_from(halves, e, src),
        apply_pairs(f, s, halves, i) is Ok,
    ensures
        ({
            let place = edge_place(f, e.from.ix(), e.to.ix());
            &&& place is Some
            &&& apply_pairs(f, s, halves, i)->Ok_0.moves.contains(
                InsertedMove {
                    pos: place->Some_0.0,
                    prio: place->Some_0.1,
                    from_alloc: src,
                    to_alloc: halves[d].alloc,
                },
            )
        }),
    decreases halves.len() - i,
{
    law_key_roundtrip(e.from.0, e.to.0, e.v, HalfMoveKind::Source, halves[p]);
    law_key_roundtrip(e.from.0, e.to.0, e.v, HalfMoveKind::Dest, halves[d]);
    assert(p < d) by {
        if d < p {
            assert(halves[d].key <= halves[p].key);
        }
    }
    lemma_next_source(halves, i);
    let k = next_source(halves, i);
    assert(k <= p);
    let key = halves[k].key;
    lemma_key_pair(key);
    lemma_key_pair(halves[p].key);
    lemma_other_key(halves, key, k + 1);
    let first = other_key(halves, key, k + 1);
    lemma_other_key(halves, key | 1, first);
    let last = other_key(halves, key | 1, first);
    assert(halves[k].key <= halves[p].key);
    let place = edge_place(f, halves[k].from_ix(), halves[k].to_ix())->Some_0;
    let t = apply_moves_to(s, halves, halves[k].alloc, place, first, last);
    if key == halves[p].key {
        assert(halves[k].alloc == src);
        assert(halves[k].from_ix() == e.from.ix() && halves[k].to_ix() == e.to.ix());
        assert(first <= d);
        assert(last > d) by {
            if last <= d {
                assert(halves[last].key <= halves[d].key);
                assert(halves[k].key <= halves[last].key);
                assert(halves[last].key == key);
                assert(first <= last);
                if first < halves.len() {
                    assert(halves[first].key != key);
                    assert(halves[first].key <= halves[last].key);
                    assert(halves[k].key <= halves[first].key);
                }
            }
        }
        lemma_moves_to(s, halves, src, place, first, last, d);
        let m = InsertedMove {
            pos: place.0,
            prio: place.1,
            from_alloc: src,
            to_alloc: halves[d].alloc,
        };
        lemma_pairs(f, t, halves, last);
        lemma_grown_move(t, apply_pairs(f, s, halves, i)->Ok_0, m);
    } else {
        assert(last <= p) by {
            if p < first {
                assert(halves[p].key == key);
            } else if p < last {
                assert(halves[p].key == key | 1);
            }
        }
        lemma_paired(f, t, halves, last, p, d, e, src);
    }
}

/// The states after the registers and after the edges.
proof fn lemma_all(x: ApplyIn, s: ApplyState, fixups: Seq<Fixup>) -> (m: (ApplyState, ApplyState))
    requires
        apply_in_ok(x),
        apply_all(x, s, fixups) is Ok,
    ensures
        apply_vregs(x, s, 0) == Ok::<ApplyState, RegAllocError>(m.0),
        apply_pairs(x.c.f, m.0, stable_sort(m.0.halves), 0) == Ok::<ApplyState, RegAllocError>(m.1),
        grown(m.0, m.1),
        grown(m.1, apply_all(x, s, fixups)->Ok_0),
{
    let s1 = apply_vregs(x, s, 0)->Ok_0;
    let s2 = apply_pairs(x.c.f, s1, stable_sort(s1.halves), 0)->Ok_0;
    lemma_pairs(x.c.f, s1, stable_sort(s1.halves), 0);
    lemma_fixups(x.c, s2, fixups, 0);
    lemma_reuse(x.c.f, apply_fixups(x.c, s2, fixups, 0), s1.reuse, 0);
    (s1, s2)
}

/// Where a live range of a register follows the one before it without a gap, within a block and not
/// where the register is defined, the value is moved from the location of the one to that of the
/// other if and only if the two differ.
pub proof fn law_split_moved(x: ApplyIn, s: ApplyState, fixups: Seq<Fixup>, v: u32, k: int)
    requires
        apply_in_ok(x),
        s.moves.len() == 0,
        apply_all(x, s, fixups) is Ok,
        v < x.c.f.num_vregs,
        0 < k < x.g.in_vreg[v as int].len(),
        ({
            let q = x.g.in_vreg[v as int][k - 1];
            let r = x.g.in_vreg[v as int][k];
            let from = x.g.ranges[r as int].range.from;
            &&& x.g.ranges[q as int].range.to == from
            &&& !start_of_block(x.c, from)
            &&& !begins_with_def(x.g, r)
        }),
    ensures
        ({
            let q = x.g.in_vreg[v as int][k - 1];
            let r = x.g.in_vreg[v as int][k];
            &&& range_alloc(x, q) is Some
            &&& range_alloc(x, r) is Some
            &&& apply_all(x, s, fixups)->Ok_0.moves.contains(
                InsertedMove {
                    pos: x.g.ranges[r as int].range.from,
                    prio: InsertMovePrio::Regular,
                    from_alloc: range_alloc(x, q)->Some_0,
                    to_alloc: range_alloc(x, r)->Some_0,
                },
            ) <==> range_alloc(x, q) != range_alloc(x, r)
        }),
{
    let e = Crossing { from: Block(0), to: Block(0), v: 0 };
    let q = x.g.in_vreg[v as int][k - 1];
    let r = x.g.in_vreg[v as int][k];
    let m = lemma_all(x, s, fixups);
    let a = lemma_vregs_at(x, s, 0, v as int, 0, 0);
    lemma_list_ok(x, v);
    let (b, prev) = lemma_list_at(x, a, v, defining_block(x, v as int), None, 0, k, 0, 0);
    let alloc = range_alloc(x, r)->Some_0;
    let t = apply_range(x, b, v, defining_block(x, v as int), prev, r, alloc)->Ok_0;
    let n = lemma_range(x, b, v, defining_block(x, v as int), prev, r, alloc, e, alloc);
    let mv = InsertedMove {
        pos: x.g.ranges[r as int].range.from,
        prio: InsertMovePrio::Regular,
        from_alloc: range_alloc(x, q)->Some_0,
        to_alloc: alloc,
    };
    if mv.from_alloc != mv.to_alloc {
        assert(t.moves[b.moves.len() as int] == mv);
        let c = apply_list(x, a, v, defining_block(x, v as int), None, 0)->Ok_0;
        lemma_grown_move(t, c, mv);
        lemma_grown_move(c, m.0, mv);
        lemma_grown_move(m.0, m.1, mv);
        lemma_grown_move(m.1, apply_all(x, s, fixups)->Ok_0, mv);
    } else {
        lemma_no_self_split(x, s, fixups);
    }
}

/// No move within a block is from a location to itself.
proof fn lemma_no_self_split(x: ApplyIn, s: ApplyState, fixups: Seq<Fixup>)
    requires
        apply_in_ok(x),
        s.moves.len() == 0,
        apply_all(x, s, fixups) is Ok,
    ensures
        forall|m: InsertedMove| #[trigger]
            apply_all(x, s, fixups)->Ok_0.moves.contains(m) && m.prio is Regular ==> m.from_alloc
                != m.to_alloc,
{
    let s1 = apply_vregs(x, s, 0)->Ok_0;
    let s2 = apply_pairs(x.c.f, s1, stable_sort(s1.halves), 0)->Ok_0;
    let s3 = apply_fixups(x.c, s2, fixups, 0);
    let t = apply_all(x, s, fixups)->Ok_0;
    lemma_vregs_all_splits(x, s, 0);
    lemma_pairs(x.c.f, s1, stable_sort(s1.halves), 0);
    lemma_fixups(x.c, s2, fixups, 0);
    lemma_reuse(x.c.f, s3, s1.reuse, 0);
    assert forall|m: InsertedMove| #[trigger]
        t.moves.contains(m) && m.prio is Regular implies m.from_alloc != m.to_alloc by {
        let i = choose|i: int| 0 <= i < t.moves.len() && t.moves[i] == m;
        if i < s3.moves.len() {
            assert(t.moves[i] == s3.moves[i]);
            if i < s2.moves.len() {
                assert(s3.moves[i] == s2.moves[i]);
                if i < s1.moves.len() {
                    assert(s2.moves[i] == s1.moves[i]);
                }
            }
        }
    }
}

/// Sorting loses no half-move and adds none.
proof fn lemma_sorted_halves(halves: Seq<HalfMove>, h: HalfMove, e: Crossing, src: Allocation) -> (p:
    int)
    requires
        halves.contains(h),
    ensures
        0 <= p < stable_sort(halves).len(),
        stable_sort(halves)[p] == h,
        keys_sorted(stable_sort(halves)),
        only_from(halves, e, src) ==> only_from(stable_sort(halves), e, src),
{
    let sorted = stable_sort(halves);
    law_stable_sort(halves);
    broadcast use vstd::seq_lib::group_to_multiset_ensures;

    assert(halves.to_multiset().count(h) > 0);
    assert(sorted.to_multiset().count(h) > 0);
    assert(sorted.contains(h));
    assert forall|i: int| 0 <= i < sorted.len() implies halves.contains(#[trigger] sorted[i]) by {
        lemma_sorted_member(halves, i);
    }
    choose|p: int| 0 <= p < sorted.len() && sorted[p] == h
}

/// The live range that has a point is the only one of its register.
proof fn lemma_only_range(x: ApplyIn, v: u32, i: int, k: int, pos: ProgPoint)
    requires
        in_order(x.g.ranges, x.g.in_vreg[v as int]),
        0 <= i < x.g.in_vreg[v as int].len(),
        0 <= k < x.g.in_vreg[v as int].len(),
        x.g.ranges[x.g.in_vreg[v as int][i] as int].range.has(pos),
        x.g.ranges[x.g.in_vreg[v as int][k] as int].range.has(pos),
    ensures
        i == k,
{
}

/// A live range that covers the end of a block begins in it or before it, and one that covers the
/// start of a block has its first block no later.
proof fn lemma_covered_blocks(c: Ctx, range: CodeRange, b: int)
    requires
        ctx_ok(c),
        range.within(c.f.insts),
        0 <= b < c.f.blocks,
    ensures
        range.has(c.cfg.block_exit[b]) ==> c.cfg.insn_block[range.from.inst.ix()].ix() <= b,
        range.has(c.cfg.block_entry[b]) ==> 0 <= first_start(c, range) <= b,
{
    lemma_first_block(c, range);
    let first = c.cfg.insn_block[range.from.inst.ix()].ix();
    lemma_blocks_follow(c, b, b);
    if b < first {
        lemma_blocks_follow(c, b, first);
    } else {
        lemma_blocks_follow(c, first, b);
    }
}

/// Where the locations are assigned every live range of a register has one.
pub proof fn lemma_range_located(x: ApplyIn, s: ApplyState, fixups: Seq<Fixup>, v: u32, k: int)
    requires
        apply_in_ok(x),
        apply_all(x, s, fixups) is Ok,
        v < x.c.f.num_vregs,
        0 <= k < x.g.in_vreg[v as int].len(),
    ensures
        range_alloc(x, x.g.in_vreg[v as int][k]) is Some,
{
    let a = lemma_vregs_at(x, s, 0, v as int, 0, 0);
    lemma_list_ok(x, v);
    let (b, prev) = lemma_list_at(x, a, v, defining_block(x, v as int), None, 0, k, 0, 0);
}

/// A live range that follows the one before it in the middle of an instruction, and not with a
/// definition, is where that one is.
pub proof fn lemma_range_follows(x: ApplyIn, s: ApplyState, fixups: Seq<Fixup>, v: u32, k: int)
    requires
        apply_in_ok(x),
        apply_all(x, s, fixups) is Ok,
        v < x.c.f.num_vregs,
        0 < k < x.g.in_vreg[v as int].len(),
        ({
            let q = x.g.in_vreg[v as int][k - 1];
            let r = x.g.in_vreg[v as int][k];
            let from = x.g.ranges[r as int].range.from;
            &&& x.g.ranges[q as int].range.to == from
            &&& from.pos is After
            &&& !start_of_block(x.c, from)
            &&& !begins_with_def(x.g, r)
        }),
    ensures
        range_alloc(x, x.g.in_vreg[v as int][k]) == range_alloc(x, x.g.in_vreg[v as int][k - 1]),
{
    let a = lemma_vregs_at(x, s, 0, v as int, 0, 0);
    lemma_list_ok(x, v);
    let (b, prev) = lemma_list_at(x, a, v, defining_block(x, v as int), None, 0, k, 0, 0);
}

/// Nothing but the value of register `v` comes over the edge into its register.
pub open spec fn only_feeds(x: ApplyIn, v: u32, e: Crossing) -> bool {
    forall|w: u32| #[trigger] feeds(x, w, e) ==> w == v
}

/// The half-moves of a register that is live over an edge, and whose live ranges at the two ends
/// are different ones.
proof fn lemma_source_of(
    x: ApplyIn,
    s: ApplyState,
    v: u32,
    b: int,
    j: int,
    q: int,
)
    requires
        apply_in_ok(x),
        apply_vregs(x, s, 0) is Ok,
        v < x.c.f.num_vregs,
        0 <= b < x.c.f.blocks,
        0 <= j < x.c.f.succs[b].len(),
        x.liveins[x.c.f.succs[b][j].ix()].contains(v as int),
        0 <= q < x.g.in_vreg[v as int].len(),
        x.g.ranges[x.g.in_vreg[v as int][q] as int].range.has(x.c.cfg.block_exit[b]),
        !x.g.ranges[x.g.in_vreg[v as int][q] as int].range.has(
            x.c.cfg.block_entry[x.c.f.succs[b][j].ix()],
        ),
    ensures
        ({
            let e = Crossing { from: Block(b as u32), to: x.c.f.succs[b][j], v };
            let alloc = range_alloc(x, x.g.in_vreg[v as int][q]);
            &&& e.fits()
            &&& alloc is Some
            &&& apply_vregs(x, s, 0)->Ok_0.halves.contains(
                e.half(HalfMoveKind::Source, alloc->Some_0),
            )
        }),
{
    let r = x.g.in_vreg[v as int][q];
    let range = x.g.ranges[r as int].range;
    let e = Crossing { from: Block(b as u32), to: x.c.f.succs[b][j], v };
    let defining = defining_block(x, v as int);
    let a = lemma_vregs_at(x, s, 0, v as int, 0, 0);
    lemma_list_ok(x, v);
    let (d, prev) = lemma_list_at(x, a, v, defining, None, 0, q, 0, 0);
    let alloc = range_alloc(x, r)->Some_0;
    let t = apply_range(x, d, v, defining, prev, r, alloc)->Ok_0;
    let (s1, s2, s3) = lemma_range(x, d, v, defining, prev, r, alloc, e, alloc);
    let h = e.half(HalfMoveKind::Source, alloc);
    lemma_covered_blocks(x.c, range, b);
    lemma_first_block(x.c, range);
    lemma_source_noted(
        x,
        s1,
        v,
        range,
        alloc,
        x.c.cfg.insn_block[range.from.inst.ix()].ix(),
        b,
        j,
    );
    lemma_grown_half(s2, s3, h);
    assert(t.halves.contains(h));
    let list = apply_list(x, a, v, defining, None, 0)->Ok_0;
    lemma_grown_half(t, list, h);
    lemma_grown_half(list, apply_vregs(x, s, 0)->Ok_0, h);
}

proof fn lemma_dest_of(x: ApplyIn, s: ApplyState, v: u32, b: int, j: int, q: int)
    requires
        apply_in_ok(x),
        apply_vregs(x, s, 0) is Ok,
        v < x.c.f.num_vregs,
        0 <= b < x.c.f.blocks,
        0 <= j < x.c.f.preds[b].len(),
        x.liveins[b].contains(v as int),
        defining_block(x, v as int) != Block(b as u32),
        0 <= q < x.g.in_vreg[v as int].len(),
        x.g.ranges[x.g.in_vreg[v as int][q] as int].range.has(x.c.cfg.block_entry[b]),
        !x.g.ranges[x.g.in_vreg[v as int][q] as int].range.has(
            x.c.cfg.block_exit[x.c.f.preds[b][j].ix()],
        ),
    ensures
        ({
            let e = Crossing { from: x.c.f.preds[b][j], to: Block(b as u32), v };
            let alloc = range_alloc(x, x.g.in_vreg[v as int][q]);
            &&& alloc is Some
            &&& apply_vregs(x, s, 0)->Ok_0.halves.contains(
                e.half(HalfMoveKind::Dest, alloc->Some_0),
            )
        }),
{
    let r = x.g.in_vreg[v as int][q];
    let range = x.g.ranges[r as int].range;
    let e = Crossing { from: x.c.f.preds[b][j], to: Block(b as u32), v };
    let defining = defining_block(x, v as int);
    let a = lemma_vregs_at(x, s, 0, v as int, 0, 0);
    lemma_list_ok(x, v);
    let (d, prev) = lemma_list_at(x, a, v, defining, None, 0, q, 0, 0);
    let alloc = range_alloc(x, r)->Some_0;
    let t = apply_range(x, d, v, defining, prev, r, alloc)->Ok_0;
    let (s1, s2, s3) = lemma_range(x, d, v, defining, prev, r, alloc, e, alloc);
    let h = e.half(HalfMoveKind::Dest, alloc);
    lemma_covered_blocks(x.c, range, b);
    lemma_dest_noted(x, s2, v, range, alloc, defining, first_start(x.c, range), b, j);
    assert(t.halves.contains(h));
    let list = apply_list(x, a, v, defining, None, 0)->Ok_0;
    lemma_grown_half(t, list, h);
    lemma_grown_half(list, apply_vregs(x, s, 0)->Ok_0, h);
}

/// Where a source and a destination are noted for an edge and a register, and no other source is,
/// the value is moved on the edge.
proof fn lemma_joined(
    x: ApplyIn,
    s: ApplyState,
    fixups: Seq<Fixup>,
    e: Crossing,
    src: Allocation,
    dst: Allocation,
)
    requires
        apply_in_ok(x),
        apply_all(x, s, fixups) is Ok,
        e.fits(),
        apply_vregs(x, s, 0)->Ok_0.halves.contains(e.half(HalfMoveKind::Source, src)),
        apply_vregs(x, s, 0)->Ok_0.halves.contains(e.half(HalfMoveKind::Dest, dst)),
        only_from(apply_vregs(x, s, 0)->Ok_0.halves, e, src),
    ensures
        ({
            let place = edge_place(x.c.f, e.from.ix(), e.to.ix());
            &&& place is Some
            &&& apply_all(x, s, fixups)->Ok_0.moves.contains(
                InsertedMove {
                    pos: place->Some_0.0,
                    prio: place->Some_0.1,
                    from_alloc: src,
                    to_alloc: dst,
                },
            )
        }),
{
    let (s1, s2) = lemma_all(x, s, fixups);
    let sorted = stable_sort(s1.halves);
    let p = lemma_sorted_halves(s1.halves, e.half(HalfMoveKind::Source, src), e, src);
    let d = lemma_sorted_halves(s1.halves, e.half(HalfMoveKind::Dest, dst), e, src);
    lemma_paired(x.c.f, s1, sorted, 0, p, d, e, src);
    let place = edge_place(x.c.f, e.from.ix(), e.to.ix())->Some_0;
    let m = InsertedMove { pos: place.0, prio: place.1, from_alloc: src, to_alloc: dst };
    lemma_grown_move(s2, apply_all(x, s, fixups)->Ok_0, m);
}

/// Where a register is live over an edge, and different live ranges of it cover the end of the
/// block before and the start of the block after, the value is moved on the edge from the location
/// of the one to that of the other.
pub proof fn law_edge_moved(
    x: ApplyIn,
    s: ApplyState,
    fixups: Seq<Fixup>,
    v: u32,
    b: int,
    j: int,
    p: int,
    q: int,
    r: int,
)
    requires
        apply_in_ok(x),
        s.halves.len() == 0,
        apply_all(x, s, fixups) is Ok,
        v < x.c.f.num_vregs,
        in_order(x.g.ranges, x.g.in_vreg[v as int]),
        0 <= b < x.c.f.blocks,
        0 <= j < x.c.f.succs[b].len(),
        0 <= p < x.c.f.preds[x.c.f.succs[b][j].ix()].len(),
        x.c.f.preds[x.c.f.succs[b][j].ix()][p] == Block(b as u32),
        x.liveins[x.c.f.succs[b][j].ix()].contains(v as int),
        defining_block(x, v as int) != x.c.f.succs[b][j],
        only_feeds(x, v, Crossing { from: Block(b as u32), to: x.c.f.succs[b][j], v }),
        0 <= q < x.g.in_vreg[v as int].len(),
        0 <= r < x.g.in_vreg[v as int].len(),
        q != r,
        x.g.ranges[x.g.in_vreg[v as int][q] as int].range.has(x.c.cfg.block_exit[b]),
        x.g.ranges[x.g.in_vreg[v as int][r] as int].range.has(
            x.c.cfg.block_entry[x.c.f.succs[b][j].ix()],
        ),
    ensures
        ({
            let place = edge_place(x.c.f, b, x.c.f.succs[b][j].ix());
            let src = range_alloc(x, x.g.in_vreg[v as int][q]);
            let dst = range_alloc(x, x.g.in_vreg[v as int][r]);
            &&& place is Some
            &&& src is Some
            &&& dst is Some
            &&& apply_all(x, s, fixups)->Ok_0.moves.contains(
                InsertedMove {
                    pos: place->Some_0.0,
                    prio: place->Some_0.1,
                    from_alloc: src->Some_0,
                    to_alloc: dst->Some_0,
                },
            )
        }),
{
    let to = x.c.f.succs[b][j];
    let e = Crossing { from: Block(b as u32), to, v };
    assert(block_ok(x.c.f, b));
    let exit = x.c.cfg.block_exit[b];
    let entry = x.c.cfg.block_entry[to.ix()];
    if x.g.ranges[x.g.in_vreg[v as int][q] as int].range.has(entry) {
        lemma_only_range(x, v, q, r, entry);
    }
    if x.g.ranges[x.g.in_vreg[v as int][r] as int].range.has(exit) {
        lemma_only_range(x, v, q, r, exit);
    }
    lemma_source_of(x, s, v, b, j, q);
    assert(to == Block(to.ix() as u32));
    lemma_dest_of(x, s, v, to.ix(), p, r);
    let src = range_alloc(x, x.g.in_vreg[v as int][q])->Some_0;
    let dst = range_alloc(x, x.g.in_vreg[v as int][r])->Some_0;
    assert(leaves_from(x, v, 0, e, src)) by {
        assert forall|k: int|
            0 <= k < x.g.in_vreg[v as int].len() && x.g.ranges[(
            #[trigger] x.g.in_vreg[v as int][k]) as int].range.has(
                x.c.cfg.block_exit[e.from.ix()],
            ) implies range_alloc(x, x.g.in_vreg[v as int][k]) == Some(src) by {
            lemma_only_range(x, v, k, q, exit);
        }
    }
    lemma_vregs(x, s, 0, e, src);
    lemma_joined(x, s, fixups, e, src, dst);
}

/// Entries that the walk over handed values has not passed are noted when it comes to their register
/// and block.
proof fn lemma_out_noted(x: ApplyIn, s: ApplyState, v: u32, alloc: Allocation, b: Block, o: int)
    requires
        keys_sorted(x.outs),
        apply_outs(x, s, v, alloc, b) is Ok,
        0 <= s.out_idx <= o < x.outs.len(),
        x.outs[o].0.0 == v,
        x.outs[o].1 == b,
    ensures
        ({
            let e = Crossing { from: b, to: x.outs[o].2, v: x.outs[o].3.0 };
            &&& e.fits()
            &&& apply_outs(x, s, v, alloc, b)->Ok_0.halves.contains(
                e.half(HalfMoveKind::Source, alloc),
            )
        }),
    decreases o - s.out_idx,
{
    let d = x.outs[s.out_idx];
    let e = Crossing { from: b, to: x.outs[o].2, v: x.outs[o].3.0 };
    if s.out_idx < o {
        assert(x.outs[s.out_idx].key() <= x.outs[o].key());
    }
    assert(!pair_lt(v, b.0, d.0.0, d.1.0));
    if d.0.0 == v && d.1 == b {
        let t = apply_half(s, d.1, d.2, d.3.0, HalfMoveKind::Source, alloc)->Ok_0;
        let u = ApplyState { out_idx: s.out_idx + 1, ..t };
        if s.out_idx == o {
            lemma_half(s, e, HalfMoveKind::Source, alloc, e, alloc);
            lemma_outs(x, u, v, alloc, b, e, alloc);
            assert(u.halves.contains(e.half(HalfMoveKind::Source, alloc)));
            lemma_grown_half(
                u,
                apply_outs(x, s, v, alloc, b)->Ok_0,
                e.half(HalfMoveKind::Source, alloc),
            );
        } else {
            lemma_out_noted(x, u, v, alloc, b, o);
        }
    } else {
        lemma_out_noted(x, ApplyState { out_idx: s.out_idx + 1, ..s }, v, alloc, b, o);
    }
}

/// Entries that the walk over block parameters has not passed are noted when it comes to their
/// register and block.
proof fn lemma_in_noted(x: ApplyIn, s: ApplyState, v: u32, alloc: Allocation, b: Block, n: int)
    requires
        keys_sorted(x.ins),
        apply_ins(x, s, v, alloc, b) is Ok,
        0 <= s.in_idx <= n < x.ins.len(),
        x.ins[n].0.0 == v,
        x.ins[n].1 == b,
    ensures
        apply_ins(x, s, v, alloc, b)->Ok_0.halves.contains(
            (Crossing { from: x.ins[n].2, to: b, v }).half(HalfMoveKind::Dest, alloc),
        ),
    decreases n - s.in_idx,
{
    let d = x.ins[s.in_idx];
    let e = Crossing { from: x.ins[n].2, to: b, v };
    if s.in_idx < n {
        assert(x.ins[s.in_idx].key() <= x.ins[n].key());
    }
    assert(!pair_lt(v, b.0, d.0.0, d.1.0));
    if d.0.0 == v && d.1 == b {
        let t = apply_half(s, d.2, d.1, d.0.0, HalfMoveKind::Dest, alloc)->Ok_0;
        let u = ApplyState { in_idx: s.in_idx + 1, ..t };
        if s.in_idx == n {
            lemma_half(s, e, HalfMoveKind::Dest, alloc, e, alloc);
            lemma_ins(x, u, v, alloc, b, e, alloc);
            assert(u.halves.contains(e.half(HalfMoveKind::Dest, alloc)));
            lemma_grown_half(
                u,
                apply_ins(x, s, v, alloc, b)->Ok_0,
                e.half(HalfMoveKind::Dest, alloc),
            );
        } else {
            lemma_in_noted(x, u, v, alloc, b, n);
        }
    } else {
        lemma_in_noted(x, ApplyState { in_idx: s.in_idx + 1, ..s }, v, alloc, b, n);
    }
}

/// A range that covers the end of a block from which the value of its register is handed on is
/// noted as the source.
proof fn lemma_arg_noted(
    x: ApplyIn,
    s: ApplyState,
    v: u32,
    range: CodeRange,
    alloc: Allocation,
    a: int,
    o: int,
)
    requires
        ctx_ok(x.c),
        keys_sorted(x.outs),
        apply_sources(x, s, v, range, alloc, a) is Ok,
        0 <= s.out_idx <= o < x.outs.len(),
        x.outs[o].0.0 == v,
        0 <= a <= x.outs[o].1.ix() < x.c.f.blocks,
        range.from.ix() <= x.c.cfg.block_exit[a].ix(),
        range.has(x.c.cfg.block_exit[x.outs[o].1.ix()]),
    ensures
        ({
            let e = Crossing { from: x.outs[o].1, to: x.outs[o].2, v: x.outs[o].3.0 };
            &&& e.fits()
            &&& apply_sources(x, s, v, range, alloc, a)->Ok_0.halves.contains(
                e.half(HalfMoveKind::Source, alloc),
            )
        }),
    decreases x.outs[o].1.ix() - a,
{
    let b = x.outs[o].1.ix();
    let block = Block(a as u32);
    let e = Crossing { from: x.outs[o].1, to: x.outs[o].2, v: x.outs[o].3.0 };
    let h = e.half(HalfMoveKind::Source, alloc);
    lemma_blocks_follow(x.c, a, b);
    let t = apply_succs(x, s, v, range, alloc, block, 0)->Ok_0;
    let u = apply_outs(x, t, v, alloc, block)->Ok_0;
    lemma_succs(x, s, v, range, alloc, block, 0, e, alloc);
    lemma_outs(x, t, v, alloc, block, e, alloc);
    if a + 1 < x.c.f.blocks {
        lemma_blocks_follow(x.c, a, a + 1);
    }
    if a == b {
        assert(x.outs[o].1 == block);
        lemma_out_noted(x, t, v, alloc, block, o);
        lemma_sources(x, u, v, range, alloc, a + 1, e, alloc);
        lemma_grown_half(u, apply_sources(x, u, v, range, alloc, a + 1)->Ok_0, h);
    } else {
        lemma_outs_before(x, t, v, alloc, block, o);
        lemma_arg_noted(x, u, v, range, alloc, a + 1, o);
    }
}

/// A range that covers the start of the block whose parameter its register is is noted as the
/// destination.
proof fn lemma_param_noted(
    x: ApplyIn,
    s: ApplyState,
    v: u32,
    range: CodeRange,
    alloc: Allocation,
    defining: Block,
    a: int,
    n: int,
)
    requires
        ctx_ok(x.c),
        keys_sorted(x.ins),
        apply_dests(x, s, v, range, alloc, defining, a) is Ok,
        0 <= s.in_idx <= n < x.ins.len(),
        x.ins[n].0.0 == v,
        0 <= a <= x.ins[n].1.ix() < x.c.f.blocks,
        range.has(x.c.cfg.block_entry[x.ins[n].1.ix()]),
    ensures
        apply_dests(x, s, v, range, alloc, defining, a)->Ok_0.halves.contains(
            (Crossing { from: x.ins[n].2, to: x.ins[n].1, v }).half(HalfMoveKind::Dest, alloc),
        ),
    decreases x.ins[n].1.ix() - a,
{
    let b = x.ins[n].1.ix();
    let block = Block(a as u32);
    let e = Crossing { from: x.ins[n].2, to: x.ins[n].1, v };
    let h = e.half(HalfMoveKind::Dest, alloc);
    lemma_blocks_follow(x.c, a, b);
    lemma_start_of(x, s, v, range, alloc, defining, a, e, alloc);
    let p = apply_ins(x, s, v, alloc, block)->Ok_0;
    let t = apply_start_of(x, s, v, range, alloc, defining, a);
    lemma_ins(x, s, v, alloc, block, e, alloc);
    if !(block == defining || !x.liveins[a].contains(v as int)) {
        lemma_preds(x, p, v, range, alloc, block, 0, e, alloc);
    }
    if a == b {
        assert(x.ins[n].1 == block);
        lemma_in_noted(x, s, v, alloc, block, n);
        lemma_grown_half(p, t, h);
        lemma_dests(x, t, v, range, alloc, defining, a + 1, e, alloc);
        lemma_grown_half(t, apply_dests(x, t, v, range, alloc, defining, a + 1)->Ok_0, h);
    } else {
        lemma_ins_before(x, s, v, alloc, block, n);
        lemma_param_noted(x, t, v, range, alloc, defining, a + 1, n);
    }
}

proof fn lemma_arg_of(x: ApplyIn, s: ApplyState, o: int, q: int)
    requires
        apply_in_ok(x),
        keys_sorted(x.outs),
        apply_vregs(x, s, 0) is Ok,
        s.out_idx == 0,
        0 <= o < x.outs.len(),
        in_order(x.g.ranges, x.g.in_vreg[x.outs[o].0.ix()]),
        0 <= q < x.g.in_vreg[x.outs[o].0.ix()].len(),
        x.g.ranges[x.g.in_vreg[x.outs[o].0.ix()][q] as int].range.has(
            x.c.cfg.block_exit[x.outs[o].1.ix()],
        ),
    ensures
        ({
            let e = Crossing { from: x.outs[o].1, to: x.outs[o].2, v: x.outs[o].3.0 };
            let alloc = range_alloc(x, x.g.in_vreg[x.outs[o].0.ix()][q]);
            &&& e.fits()
            &&& alloc is Some
            &&& apply_vregs(x, s, 0)->Ok_0.halves.contains(
                e.half(HalfMoveKind::Source, alloc->Some_0),
            )
        }),
{
    let v = x.outs[o].0.0;
    let b = x.outs[o].1.ix();
    let list = x.g.in_vreg[v as int];
    let r = list[q];
    let range = x.g.ranges[r as int].range;
    let e = Crossing { from: x.outs[o].1, to: x.outs[o].2, v: x.outs[o].3.0 };
    let defining = defining_block(x, v as int);
    assert(out_ok(x.c.f, x.outs[o]));
    let a = lemma_vregs_at(x, s, 0, v as int, o, 0);
    lemma_list_ok(x, v);
    assert(list_before_out(x, v, 0, q, o)) by {
        assert forall|m: int| 0 <= m < q implies before_out(x, v, #[trigger] list[m], o) by {
            assert(x.g.ranges[list[m] as int].range.precedes(range));
            assert forall|d: int|
                0 <= d < x.c.f.blocks && (#[trigger] x.c.cfg.block_exit[d]).ix()
                    < x.g.ranges[list[m] as int].range.to.ix() implies pair_lt(
                v,
                d as u32,
                x.outs[o].0.0,
                x.outs[o].1.0,
            ) by {
                if d >= b {
                    lemma_blocks_follow(x.c, b, d);
                }
            }
        }
    }
    let (d, prev) = lemma_list_at(x, a, v, defining, None, 0, q, o, 0);
    let alloc = range_alloc(x, r)->Some_0;
    let t = apply_range(x, d, v, defining, prev, r, alloc)->Ok_0;
    let (s1, s2, s3) = lemma_range(x, d, v, defining, prev, r, alloc, e, alloc);
    let h = e.half(HalfMoveKind::Source, alloc);
    lemma_covered_blocks(x.c, range, b);
    lemma_first_block(x.c, range);
    lemma_arg_noted(
        x,
        s1,
        v,
        range,
        alloc,
        x.c.cfg.insn_block[range.from.inst.ix()].ix(),
        o,
    );
    lemma_grown_half(s2, s3, h);
    assert(t.halves.contains(h));
    let all = apply_list(x, a, v, defining, None, 0)->Ok_0;
    lemma_grown_half(t, all, h);
    lemma_grown_half(all, apply_vregs(x, s, 0)->Ok_0, h);
}

proof fn lemma_param_of(x: ApplyIn, s: ApplyState, n: int, q: int)
    requires
        apply_in_ok(x),
        keys_sorted(x.ins),
        apply_vregs(x, s, 0) is Ok,
        s.in_idx == 0,
        0 <= n < x.ins.len(),
        in_order(x.g.ranges, x.g.in_vreg[x.ins[n].0.ix()]),
        0 <= q < x.g.in_vreg[x.ins[n].0.ix()].len(),
        x.g.ranges[x.g.in_vreg[x.ins[n].0.ix()][q] as int].range.has(
            x.c.cfg.block_entry[x.ins[n].1.ix()],
        ),
    ensures
        ({
            let e = Crossing { from: x.ins[n].2, to: x.ins[n].1, v: x.ins[n].0.0 };
            let alloc = range_alloc(x, x.g.in_vreg[x.ins[n].0.ix()][q]);
            &&& alloc is Some
            &&& apply_vregs(x, s, 0)->Ok_0.halves.contains(
                e.half(HalfMoveKind::Dest, alloc->Some_0),
            )
        }),
{
    let v = x.ins[n].0.0;
    let b = x.ins[n].1.ix();
    let list = x.g.in_vreg[v as int];
    let r = list[q];
    let range = x.g.ranges[r as int].range;
    let e = Crossing { from: x.ins[n].2, to: x.ins[n].1, v };
    let defining = defining_block(x, v as int);
    assert(in_ok(x.c.f, x.ins[n]));
    let a = lemma_vregs_at(x, s, 0, v as int, 0, n);
    lemma_list_ok(x, v);
    assert(list_before_in(x, v, 0, q, n)) by {
        assert forall|m: int| 0 <= m < q implies before_in(x, v, #[trigger] list[m], n) by {
            assert(x.g.ranges[list[m] as int].range.precedes(range));
            assert forall|d: int|
                0 <= d < x.c.f.blocks && (#[trigger] x.c.cfg.block_entry[d]).ix()
                    < x.g.ranges[list[m] as int].range.to.ix() implies pair_lt(
                v,
                d as u32,
                x.ins[n].0.0,
                x.ins[n].1.0,
            ) by {
                if d >= b {
                    lemma_blocks_follow(x.c, b, d);
                }
            }
        }
    }
    let (d, prev) = lemma_list_at(x, a, v, defining, None, 0, q, 0, n);
    let alloc = range_alloc(x, r)->Some_0;
    let t = apply_range(x, d, v, defining, prev, r, alloc)->Ok_0;
    let (s1, s2, s3) = lemma_range(x, d, v, defining, prev, r, alloc, e, alloc);
    let h = e.half(HalfMoveKind::Dest, alloc);
    lemma_covered_blocks(x.c, range, b);
    lemma_param_noted(x, s2, v, range, alloc, defining, first_start(x.c, range), n);
    assert(t.halves.contains(h));
    let all = apply_list(x, a, v, defining, None, 0)->Ok_0;
    lemma_grown_half(t, all, h);
    lemma_grown_half(all, apply_vregs(x, s, 0)->Ok_0, h);
}

/// Where the value of a register is handed to a block parameter, it is moved on the edge from where
/// the register is at the end of the block before to where the parameter is at the start of its
/// block.
pub proof fn law_arg_moved(
    x: ApplyIn,
    s: ApplyState,
    fixups: Seq<Fixup>,
    o: int,
    n: int,
    q: int,
    r: int,
)
    requires
        apply_in_ok(x),
        keys_sorted(x.outs),
        keys_sorted(x.ins),
        s.halves.len() == 0,
        s.out_idx == 0,
        s.in_idx == 0,
        apply_all(x, s, fixups) is Ok,
        0 <= o < x.outs.len(),
        0 <= n < x.ins.len(),
        x.ins[n] == (x.outs[o].3, x.outs[o].2, x.outs[o].1),
        in_order(x.g.ranges, x.g.in_vreg[x.outs[o].0.ix()]),
        in_order(x.g.ranges, x.g.in_vreg[x.ins[n].0.ix()]),
        only_feeds(
            x,
            x.outs[o].0.0,
            Crossing { from: x.outs[o].1, to: x.outs[o].2, v: x.outs[o].3.0 },
        ),
        0 <= q < x.g.in_vreg[x.outs[o].0.ix()].len(),
        0 <= r < x.g.in_vreg[x.ins[n].0.ix()].len(),
        x.g.ranges[x.g.in_vreg[x.outs[o].0.ix()][q] as int].range.has(
            x.c.cfg.block_exit[x.outs[o].1.ix()],
        ),
        x.g.ranges[x.g.in_vreg[x.ins[n].0.ix()][r] as int].range.has(
            x.c.cfg.block_entry[x.outs[o].2.ix()],
        ),
    ensures
        ({
            let place = edge_place(x.c.f, x.outs[o].1.ix(), x.outs[o].2.ix());
            let src = range_alloc(x, x.g.in_vreg[x.outs[o].0.ix()][q]);
            let dst = range_alloc(x, x.g.in_vreg[x.ins[n].0.ix()][r]);
            &&& place is Some
            &&& src is Some
            &&& dst is Some
            &&& apply_all(x, s, fixups)->Ok_0.moves.contains(
                InsertedMove {
                    pos: place->Some_0.0,
                    prio: place->Some_0.1,
                    from_alloc: src->Some_0,
                    to_alloc: dst->Some_0,
                },
            )
        }),
{
    let v = x.outs[o].0.0;
    let e = Crossing { from: x.outs[o].1, to: x.outs[o].2, v: x.outs[o].3.0 };
    let exit = x.c.cfg.block_exit[e.from.ix()];
    assert(out_ok(x.c.f, x.outs[o]));
    lemma_arg_of(x, s, o, q);
    lemma_param_of(x, s, n, r);
    let src = range_alloc(x, x.g.in_vreg[v as int][q])->Some_0;
    let dst = range_alloc(x, x.g.in_vreg[x.ins[n].0.ix()][r])->Some_0;
    assert(leaves_from(x, v, 0, e, src)) by {
        assert forall|k: int|
            0 <= k < x.g.in_vreg[v as int].len() && x.g.ranges[(
            #[trigger] x.g.in_vreg[v as int][k]) as int].range.has(
                x.c.cfg.block_exit[e.from.ix()],
            ) implies range_alloc(x, x.g.in_vreg[v as int][k]) == Some(src) by {
            lemma_only_range(x, v, k, q, exit);
        }
    }
    lemma_vregs(x, s, 0, e, src);
    lemma_joined(x, s, fixups, e, src, dst);
}

/// Live ranges of registers that have a point in common are in different locations.
pub open spec fn kept_apart(x: ApplyIn) -> bool {
    forall|v: int, i: int, w: int, j: int|
        #![trigger x.g.in_vreg[v][i], x.g.in_vreg[w][j]]
        0 <= v < x.g.in_vreg.len() && 0 <= i < x.g.in_vreg[v].len() && 0 <= w < x.g.in_vreg.len()
            && 0 <= j < x.g.in_vreg[w].len() && (v != w || i != j)
            && x.g.ranges[x.g.in_vreg[v][i] as int].range.meets(
            x.g.ranges[x.g.in_vreg[w][j] as int].range,
        ) ==> range_alloc(x, x.g.in_vreg[v][i]) != range_alloc(x, x.g.in_vreg[w][j])
}

/// Is the move the one to live range `j` of register `v` from the live range before it?
pub open spec fn split_move(x: ApplyIn, m: InsertedMove, v: int, j: int) -> bool {
    let q = x.g.in_vreg[v][j - 1];
    let r = x.g.in_vreg[v][j];
    &&& 0 <= v < x.c.f.num_vregs
    &&& 0 < j < x.g.in_vreg[v].len()
    &&& x.g.ranges[q as int].range.to == x.g.ranges[r as int].range.from
    &&& m.pos == x.g.ranges[r as int].range.from
    &&& !start_of_block(x.c, m.pos)
    &&& m.pos.pos is Before
    &&& m.prio is Regular
    &&& m.from_alloc != m.to_alloc
    &&& range_alloc(x, q) == Some(m.from_alloc)
    &&& range_alloc(x, r) == Some(m.to_alloc)
}

/// The moves between live ranges of one register, up to live range `k` of register `v`: every one
/// of them is of two live ranges that follow each other, and no two at one point have one
/// destination.
pub open spec fn splits_upto(x: ApplyIn, moves: Seq<InsertedMove>, v: int, k: int) -> bool {
    &&& forall|i: int|
        0 <= i < moves.len() && (#[trigger] moves[i]).prio is Regular ==> exists|w: int, j: int|
            #[trigger] split_move(x, moves[i], w, j) && (w < v || (w == v && j < k))
    &&& forall|i: int, j: int|
        #![trigger moves[i], moves[j]]
        0 <= i < j < moves.len() && moves[i].prio is Regular && moves[j].prio is Regular
            && moves[i].pos == moves[j].pos ==> moves[i].to_alloc != moves[j].to_alloc
}

proof fn lemma_list_splits(
    x: ApplyIn,
    s: ApplyState,
    v: u32,
    defining: Block,
    prev: Option<(u32, Allocation)>,
    i: int,
)
    requires
        apply_in_ok(x),
        kept_apart(x),
        v < x.c.f.num_vregs,
        0 <= i <= x.g.in_vreg[v as int].len(),
        prev == if i == 0 {
            None
        } else {
            Some((x.g.in_vreg[v as int][i - 1], range_alloc(x, x.g.in_vreg[v as int][i - 1])->Some_0))
        },
        i > 0 ==> range_alloc(x, x.g.in_vreg[v as int][i - 1]) is Some,
        splits_upto(x, s.moves, v as int, i),
        apply_list(x, s, v, defining, prev, i) is Ok,
    ensures
        splits_upto(
            x,
            apply_list(x, s, v, defining, prev, i)->Ok_0.moves,
            v as int,
            x.g.in_vreg[v as int].len() as int,
        ),
    decreases x.g.in_vreg[v as int].len() - i,
{
    let list = x.g.in_vreg[v as int];
    if i < list.len() {
        let alloc = range_alloc(x, list[i])->Some_0;
        let r = list[i];
        let range = x.g.ranges[r as int].range;
        let t = apply_range(x, s, v, defining, prev, r, alloc)->Ok_0;
        let e = Crossing { from: defining, to: defining, v };
        lemma_list_ok(x, v);
        let m = lemma_range(x, s, v, defining, prev, r, alloc, e, alloc);
        assert(splits_upto(x, t.moves, v as int, i + 1)) by {
            let n = s.moves.len() as int;
            assert forall|a: int|
                0 <= a < t.moves.len() && (#[trigger] t.moves[a]).prio is Regular implies exists|
                w: int,
                j: int,
            |
                #[trigger] split_move(x, t.moves[a], w, j) && (w < v as int || (w == v as int && j
                    < i + 1)) by {
                if a < n {
                    assert(t.moves[a] == s.moves[a]);
                    let (w, j) = choose|w: int, j: int|
                        #[trigger] split_move(x, s.moves[a], w, j) && (w < v as int || (w
                            == v as int && j < i));
                    assert(split_move(x, t.moves[a], w, j));
                } else {
                    assert(split_move(x, t.moves[a], v as int, i));
                }
            }
            assert forall|a: int, b: int|
                #![trigger t.moves[a], t.moves[b]]
                0 <= a < b < t.moves.len() && t.moves[a].prio is Regular && t.moves[b].prio is Regular
                    && t.moves[a].pos == t.moves[b].pos implies t.moves[a].to_alloc
                != t.moves[b].to_alloc by {
                assert(t.moves[a] == s.moves[a]);
                if b < n {
                    assert(t.moves[b] == s.moves[b]);
                } else {
                    let (w, j) = choose|w: int, j: int|
                        #[trigger] split_move(x, s.moves[a], w, j) && (w < v as int || (w
                            == v as int && j < i));
                    lemma_list_ok(x, w as u32);
                    let q = x.g.in_vreg[w][j];
                    assert(x.g.ranges[x.g.in_vreg[w as u32 as int][j] as int].range.within(
                        x.c.f.insts,
                    ));
                    assert(range.within(x.c.f.insts));
                    assert(x.g.ranges[q as int].range.meets(range));
                    assert(range_alloc(x, x.g.in_vreg[w][j]) != range_alloc(
                        x,
                        x.g.in_vreg[v as int][i],
                    ));
                }
            }
        }
        lemma_list_splits(x, t, v, defining, Some((r, alloc)), i + 1);
    }
}

proof fn lemma_vregs_splits(x: ApplyIn, s: ApplyState, v: int)
    requires
        apply_in_ok(x),
        kept_apart(x),
        0 <= v <= x.c.f.num_vregs,
        splits_upto(x, s.moves, v, 0),
        apply_vregs(x, s, v) is Ok,
    ensures
        splits_upto(x, apply_vregs(x, s, v)->Ok_0.moves, x.c.f.num_vregs as int, 0),
    decreases x.c.f.num_vregs - v,
{
    if v < x.c.f.num_vregs {
        let t = apply_list(x, s, v as u32, defining_block(x, v), None, 0)->Ok_0;
        lemma_list_splits(x, s, v as u32, defining_block(x, v), None, 0);
        assert(splits_upto(x, t.moves, v + 1, 0)) by {
            let len = x.g.in_vreg[v].len() as int;
            assert forall|a: int|
                0 <= a < t.moves.len() && (#[trigger] t.moves[a]).prio is Regular implies exists|
                w: int,
                j: int,
            |
                #[trigger] split_move(x, t.moves[a], w, j) && (w < v + 1 || (w == v + 1 && j
                    < 0)) by {
                let (w, j) = choose|w: int, j: int|
                    #[trigger] split_move(x, t.moves[a], w, j) && (w < v || (w == v && j < len));
                assert(split_move(x, t.moves[a], w, j));
            }
        }
        lemma_vregs_splits(x, t, v + 1);
    }
}

/// All moves between live ranges within a block are of two live ranges that follow each other, and
/// no two at one point have one destination.
pub proof fn law_splits_apart(x: ApplyIn, s: ApplyState, fixups: Seq<Fixup>)
    requires
        apply_in_ok(x),
        kept_apart(x),
        s.moves.len() == 0,
        apply_all(x, s, fixups) is Ok,
    ensures
        splits_upto(x, apply_all(x, s, fixups)->Ok_0.moves, x.c.f.num_vregs as int, 0),
{
    let s1 = apply_vregs(x, s, 0)->Ok_0;
    let s2 = apply_pairs(x.c.f, s1, stable_sort(s1.halves), 0)->Ok_0;
    let s3 = apply_fixups(x.c, s2, fixups, 0);
    let t = apply_all(x, s, fixups)->Ok_0;
    lemma_vregs_splits(x, s, 0);
    lemma_pairs(x.c.f, s1, stable_sort(s1.halves), 0);
    lemma_fixups(x.c, s2, fixups, 0);
    lemma_reuse(x.c.f, s3, s1.reuse, 0);
    assert(no_splits_added(s1, t)) by {
        assert forall|i: int| s1.moves.len() <= i < t.moves.len() implies !((
        #[trigger] t.moves[i]).prio is Regular) by {
            if i < s3.moves.len() {
                assert(t.moves[i] == s3.moves[i]);
                if i < s2.moves.len() {
                    assert(s3.moves[i] == s2.moves[i]);
                }
            }
        }
    }
    assert forall|i: int| 0 <= i < s1.moves.len() implies #[trigger] t.moves[i] == s1.moves[i] by {
        assert(s2.moves[i] == s1.moves[i]);
        assert(s3.moves[i] == s2.moves[i]);
    }
    let n = x.c.f.num_vregs as int;
    assert forall|a: int|
        0 <= a < t.moves.len() && (#[trigger] t.moves[a]).prio is Regular implies exists|
        w: int,
        j: int,
    |
        #[trigger] split_move(x, t.moves[a], w, j) && (w < n || (w == n && j < 0)) by {
        assert(t.moves[a] == s1.moves[a]);
    }
    assert forall|a: int, b: int|
        #![trigger t.moves[a], t.moves[b]]
        0 <= a < b < t.moves.len() && t.moves[a].prio is Regular && t.moves[b].prio is Regular
            && t.moves[a].pos == t.moves[b].pos implies t.moves[a].to_alloc != t.moves[b].to_alloc by {
        assert(t.moves[a] == s1.moves[a]);
        assert(t.moves[b] == s1.moves[b]);
    }
}

/// Is the half-move one that the live ranges call for? A source is on an edge out of its block. A
/// destination is on an edge into its block, and a live range of its register that covers the start
/// of the block is in the location.
pub open spec fn called_for(x: ApplyIn, h: HalfMove, e: Crossing) -> bool {
    &&& e.fits()
    &&& e.from.0 < x.c.f.blocks
    &&& e.to.0 < x.c.f.blocks
    &&& ({
        ||| h.key == e.key(HalfMoveKind::Source) && x.c.f.succs[e.from.ix()].contains(e.to)
        ||| h.key == e.key(HalfMoveKind::Dest) && x.c.f.preds[e.to.ix()].contains(e.from)
            && entered_at(x, e, h.alloc)
    })
}

/// Is the register of the crossing a parameter of the block after the edge?
pub open spec fn is_param(x: ApplyIn, e: Crossing) -> bool {
    exists|n: int|
        0 <= n < x.ins.len() && (#[trigger] x.ins[n]).0.0 == e.v && x.ins[n].1 == e.to
            && x.ins[n].2 == e.from
}

/// Is a live range of the register of the crossing that covers the start of the block after the
/// edge in the location? It does not cover the end of the block before the edge, unless the register
/// is a parameter.
pub open spec fn entered_at(x: ApplyIn, e: Crossing, alloc: Allocation) -> bool {
    exists|j: int| #[trigger] enters(x, e, j, alloc)
}

/// Does live range `j` of the register of the crossing come after the edge in the location?
pub open spec fn enters(x: ApplyIn, e: Crossing, j: int, alloc: Allocation) -> bool {
    let range = x.g.ranges[x.g.in_vreg[e.v as int][j] as int].range;
    &&& e.v < x.c.f.num_vregs
    &&& 0 <= j < x.g.in_vreg[e.v as int].len()
    &&& range.has(x.c.cfg.block_entry[e.to.ix()])
    &&& range_alloc(x, x.g.in_vreg[e.v as int][j]) == Some(alloc)
    &&& !range.has(x.c.cfg.block_exit[e.from.ix()]) || is_param(x, e)
}

/// Do live ranges call for the half-move on some edge?
pub open spec fn is_called_for(x: ApplyIn, h: HalfMove) -> bool {
    exists|e: Crossing| #[trigger] called_for(x, h, e)
}

/// Every half-move is called for.
pub open spec fn all_called_for(x: ApplyIn, halves: Seq<HalfMove>) -> bool {
    forall|i: int| 0 <= i < halves.len() ==> is_called_for(x, #[trigger] halves[i])
}

proof fn lemma_half_called(
    x: ApplyIn,
    s: ApplyState,
    e: Crossing,
    kind: HalfMoveKind,
    alloc: Allocation,
)
    requires
        all_called_for(x, s.halves),
        apply_half(s, e.from, e.to, e.v, kind, alloc) is Ok,
        called_for(x, e.half(kind, alloc), e),
    ensures
        all_called_for(x, apply_half(s, e.from, e.to, e.v, kind, alloc)->Ok_0.halves),
{
    let t = apply_half(s, e.from, e.to, e.v, kind, alloc)->Ok_0;
    assert forall|i: int| 0 <= i < t.halves.len() implies is_called_for(
        x,
        #[trigger] t.halves[i],
    ) by {
        if i < s.halves.len() {
            assert(t.halves[i] == s.halves[i]);
        } else {
            assert(t.halves[i] == e.half(kind, alloc));
        }
    }
}

proof fn lemma_succs_called(
    x: ApplyIn,
    s: ApplyState,
    v: u32,
    range: CodeRange,
    alloc: Allocation,
    b: Block,
    k: int,
)
    requires
        ctx_ok(x.c),
        b.0 < x.c.f.blocks,
        0 <= k,
        all_called_for(x, s.halves),
        apply_succs(x, s, v, range, alloc, b, k) is Ok,
    ensures
        all_called_for(x, apply_succs(x, s, v, range, alloc, b, k)->Ok_0.halves),
    decreases x.c.f.succs[b.ix()].len() - k,
{
    let succs = x.c.f.succs[b.ix()];
    if k < succs.len() {
        let succ = succs[k];
        assert(block_ok(x.c.f, b.ix()));
        if !range.has(x.c.cfg.block_entry[succ.ix()]) && x.liveins[succ.ix()].contains(v as int) {
            let e = Crossing { from: b, to: succ, v };
            lemma_half(s, e, HalfMoveKind::Source, alloc, e, alloc);
            lemma_half_called(x, s, e, HalfMoveKind::Source, alloc);
            let t = apply_half(s, b, succ, v, HalfMoveKind::Source, alloc)->Ok_0;
            lemma_succs_called(x, t, v, range, alloc, b, k + 1);
        } else {
            lemma_succs_called(x, s, v, range, alloc, b, k + 1);
        }
    }
}

proof fn lemma_outs_called(x: ApplyIn, s: ApplyState, v: u32, alloc: Allocation, b: Block)
    requires
        apply_in_ok(x),
        all_called_for(x, s.halves),
        apply_outs(x, s, v, alloc, b) is Ok,
    ensures
        all_called_for(x, apply_outs(x, s, v, alloc, b)->Ok_0.halves),
    decreases x.outs.len() - s.out_idx,
{
    if !(s.out_idx < 0 || s.out_idx >= x.outs.len()) {
        let o = x.outs[s.out_idx];
        assert(out_ok(x.c.f, x.outs[s.out_idx]));
        if pair_lt(v, b.0, o.0.0, o.1.0) {
        } else if o.0.0 == v && o.1 == b {
            let e = Crossing { from: o.1, to: o.2, v: o.3.0 };
            lemma_half(s, e, HalfMoveKind::Source, alloc, e, alloc);
            lemma_half_called(x, s, e, HalfMoveKind::Source, alloc);
            let t = apply_half(s, o.1, o.2, o.3.0, HalfMoveKind::Source, alloc)->Ok_0;
            lemma_outs_called(x, ApplyState { out_idx: s.out_idx + 1, ..t }, v, alloc, b);
        } else {
            lemma_outs_called(x, ApplyState { out_idx: s.out_idx + 1, ..s }, v, alloc, b);
        }
    }
}

proof fn lemma_sources_called(
    x: ApplyIn,
    s: ApplyState,
    v: u32,
    range: CodeRange,
    alloc: Allocation,
    b: int,
)
    requires
        apply_in_ok(x),
        0 <= b,
        all_called_for(x, s.halves),
        apply_sources(x, s, v, range, alloc, b) is Ok,
    ensures
        all_called_for(x, apply_sources(x, s, v, range, alloc, b)->Ok_0.halves),
    decreases x.c.f.blocks - b,
{
    if !(b >= x.c.f.blocks || range.to.ix() < x.c.cfg.block_exit[b].ix() + 1) {
        let block = Block(b as u32);
        let t = apply_succs(x, s, v, range, alloc, block, 0)->Ok_0;
        lemma_succs_called(x, s, v, range, alloc, block, 0);
        lemma_outs_called(x, t, v, alloc, block);
        lemma_sources_called(x, apply_outs(x, t, v, alloc, block)->Ok_0, v, range, alloc, b + 1);
    }
}

/// Live range `j` of register `v` is in the location.
pub open spec fn located_at(x: ApplyIn, v: u32, j: int, range: CodeRange, alloc: Allocation) -> bool {
    &&& v < x.c.f.num_vregs
    &&& 0 <= j < x.g.in_vreg[v as int].len()
    &&& x.g.ranges[x.g.in_vreg[v as int][j] as int].range == range
    &&& range_alloc(x, x.g.in_vreg[v as int][j]) == Some(alloc)
}

proof fn lemma_ins_called(
    x: ApplyIn,
    s: ApplyState,
    v: u32,
    j: int,
    range: CodeRange,
    alloc: Allocation,
    b: Block,
)
    requires
        apply_in_ok(x),
        located_at(x, v, j, range, alloc),
        range.has(x.c.cfg.block_entry[b.ix()]),
        all_called_for(x, s.halves),
        apply_ins(x, s, v, alloc, b) is Ok,
    ensures
        all_called_for(x, apply_ins(x, s, v, alloc, b)->Ok_0.halves),
    decreases x.ins.len() - s.in_idx,
{
    if !(s.in_idx < 0 || s.in_idx >= x.ins.len()) {
        let o = x.ins[s.in_idx];
        assert(in_ok(x.c.f, x.ins[s.in_idx]));
        if pair_lt(v, b.0, o.0.0, o.1.0) {
        } else if o.0.0 == v && o.1 == b {
            let e = Crossing { from: o.2, to: o.1, v: o.0.0 };
            lemma_half(s, e, HalfMoveKind::Dest, alloc, e, alloc);
            assert(x.ins[s.in_idx] == o);
            assert(is_param(x, e));
            assert(enters(x, e, j, alloc));
            lemma_half_called(x, s, e, HalfMoveKind::Dest, alloc);
            let t = apply_half(s, o.2, o.1, o.0.0, HalfMoveKind::Dest, alloc)->Ok_0;
            lemma_ins_called(
                x,
                ApplyState { in_idx: s.in_idx + 1, ..t },
                v,
                j,
                range,
                alloc,
                b,
            );
        } else {
            lemma_ins_called(
                x,
                ApplyState { in_idx: s.in_idx + 1, ..s },
                v,
                j,
                range,
                alloc,
                b,
            );
        }
    }
}

proof fn lemma_preds_called(
    x: ApplyIn,
    s: ApplyState,
    v: u32,
    j: int,
    range: CodeRange,
    alloc: Allocation,
    b: Block,
    k: int,
)
    requires
        ctx_ok(x.c),
        b.0 < x.c.f.blocks,
        0 <= k,
        located_at(x, v, j, range, alloc),
        range.has(x.c.cfg.block_entry[b.ix()]),
        all_called_for(x, s.halves),
        apply_preds(x, s, v, range, alloc, b, k) is Ok,
    ensures
        all_called_for(x, apply_preds(x, s, v, range, alloc, b, k)->Ok_0.halves),
    decreases x.c.f.preds[b.ix()].len() - k,
{
    let preds = x.c.f.preds[b.ix()];
    if k < preds.len() {
        let pred = preds[k];
        assert(block_ok(x.c.f, b.ix()));
        if range.has(x.c.cfg.block_exit[pred.ix()]) {
            lemma_preds_called(x, s, v, j, range, alloc, b, k + 1);
        } else {
            let e = Crossing { from: pred, to: b, v };
            lemma_half(s, e, HalfMoveKind::Dest, alloc, e, alloc);
            assert(enters(x, e, j, alloc));
            lemma_half_called(x, s, e, HalfMoveKind::Dest, alloc);
            let t = apply_half(s, pred, b, v, HalfMoveKind::Dest, alloc)->Ok_0;
            lemma_preds_called(x, t, v, j, range, alloc, b, k + 1);
        }
    }
}

proof fn lemma_dests_called(
    x: ApplyIn,
    s: ApplyState,
    v: u32,
    j: int,
    range: CodeRange,
    alloc: Allocation,
    defining: Block,
    b: int,
)
    requires
        apply_in_ok(x),
        0 <= b,
        b < x.c.f.blocks ==> range.from.ix() <= x.c.cfg.block_entry[b].ix(),
        located_at(x, v, j, range, alloc),
        all_called_for(x, s.halves),
        apply_dests(x, s, v, range, alloc, defining, b) is Ok,
    ensures
        all_called_for(x, apply_dests(x, s, v, range, alloc, defining, b)->Ok_0.halves),
    decreases x.c.f.blocks - b,
{
    if !(b >= x.c.f.blocks || x.c.cfg.block_entry[b].ix() >= range.to.ix()) {
        let block = Block(b as u32);
        let e = Crossing { from: block, to: block, v };
        lemma_start_of(x, s, v, range, alloc, defining, b, e, alloc);
        let p = apply_ins(x, s, v, alloc, block)->Ok_0;
        lemma_ins_called(x, s, v, j, range, alloc, block);
        if !(block == defining || !x.liveins[b].contains(v as int)) {
            lemma_preds_called(x, p, v, j, range, alloc, block, 0);
        }
        if b + 1 < x.c.f.blocks {
            lemma_blocks_follow(x.c, b, b + 1);
        }
        let t = apply_start_of(x, s, v, range, alloc, defining, b);
        lemma_dests_called(x, t, v, j, range, alloc, defining, b + 1);
    }
}

/// No block begins between the beginning of a range and the first start that is looked at.
proof fn lemma_first_start(c: Ctx, range: CodeRange)
    requires
        ctx_ok(c),
        range.within(c.f.insts),
    ensures
        0 <= first_start(c, range),
        first_start(c, range) < c.f.blocks ==> range.from.ix() <= c.cfg.block_entry[first_start(
            c,
            range,
        )].ix(),
{
    lemma_first_block(c, range);
    let b = c.cfg.insn_block[range.from.inst.ix()].ix();
    if b + 1 < c.f.blocks {
        lemma_blocks_follow(c, b, b + 1);
    }
}

proof fn lemma_list_called(
    x: ApplyIn,
    s: ApplyState,
    v: u32,
    defining: Block,
    prev: Option<(u32, Allocation)>,
    i: int,
)
    requires
        apply_in_ok(x),
        v < x.c.f.num_vregs,
        0 <= i,
        all_called_for(x, s.halves),
        apply_list(x, s, v, defining, prev, i) is Ok,
    ensures
        all_called_for(x, apply_list(x, s, v, defining, prev, i)->Ok_0.halves),
    decreases x.g.in_vreg[v as int].len() - i,
{
    let list = x.g.in_vreg[v as int];
    if i < list.len() {
        let alloc = range_alloc(x, list[i])->Some_0;
        let range = x.g.ranges[list[i] as int].range;
        let b = x.c.cfg.insn_block[range.from.inst.ix()].ix();
        let t = apply_range(x, s, v, defining, prev, list[i], alloc)->Ok_0;
        let e = Crossing { from: defining, to: defining, v };
        lemma_list_ok(x, v);
        let (s1, s2, s3) = lemma_range(x, s, v, defining, prev, list[i], alloc, e, alloc);
        lemma_first_block(x.c, range);
        lemma_first_start(x.c, range);
        assert(s1.halves == s.halves);
        lemma_sources_called(x, s1, v, range, alloc, b);
        lemma_dests_called(x, s2, v, i, range, alloc, defining, first_start(x.c, range));
        lemma_list_called(x, t, v, defining, Some((list[i], alloc)), i + 1);
    }
}

proof fn lemma_vregs_called(x: ApplyIn, s: ApplyState, v: int)
    requires
        apply_in_ok(x),
        0 <= v,
        all_called_for(x, s.halves),
        apply_vregs(x, s, v) is Ok,
    ensures
        all_called_for(x, apply_vregs(x, s, v)->Ok_0.halves),
    decreases x.c.f.num_vregs - v,
{
    if v < x.c.f.num_vregs {
        let t = apply_list(x, s, v as u32, defining_block(x, v), None, 0)->Ok_0;
        lemma_list_called(x, s, v as u32, defining_block(x, v), None, 0);
        lemma_vregs_called(x, t, v + 1);
    }
}

/// Are moves on the edge of the crossing at the place?
pub open spec fn placed_on(x: ApplyIn, pos: ProgPoint, prio: InsertMovePrio, e: Crossing) -> bool {
    &&& e.from.0 < x.c.f.blocks
    &&& e.to.0 < x.c.f.blocks
    &&& x.c.f.succs[e.from.ix()].contains(e.to)
    &&& x.c.f.preds[e.to.ix()].contains(e.from)
    &&& edge_place(x.c.f, e.from.ix(), e.to.ix()) == Some((pos, prio))
}

/// Is the move the one that the crossing calls for?
pub open spec fn crossing_move(x: ApplyIn, m: InsertedMove, e: Crossing) -> bool {
    placed_on(x, m.pos, m.prio, e) && entered_at(x, e, m.to_alloc)
}

proof fn lemma_moves_listed(
    s: ApplyState,
    halves: Seq<HalfMove>,
    src: Allocation,
    place: (ProgPoint, InsertMovePrio),
    i: int,
    n: int,
)
    requires
        i <= n,
    ensures
        apply_moves_to(s, halves, src, place, i, n).moves == s.moves + Seq::new(
            (n - i) as nat,
            |j: int|
                InsertedMove {
                    pos: place.0,
                    prio: place.1,
                    from_alloc: src,
                    to_alloc: halves[i + j].alloc,
                },
        ),
    decreases n - i,
{
    let t = apply_move(s, place.0, place.1, src, halves[i].alloc);
    let all = apply_moves_to(s, halves, src, place, i, n).moves;
    if i < n {
        lemma_moves_listed(t, halves, src, place, i + 1, n);
    }
    assert(all =~= s.moves + Seq::new(
        (n - i) as nat,
        |j: int|
            InsertedMove {
                pos: place.0,
                prio: place.1,
                from_alloc: src,
                to_alloc: halves[i + j].alloc,
            },
    ));
}

/// The crossing of a source.
proof fn lemma_source_crossing(x: ApplyIn, h: HalfMove) -> (e: Crossing)
    requires
        is_called_for(x, h),
        h.is_source(),
    ensures
        called_for(x, h, e),
        h.key == e.key(HalfMoveKind::Source),
        h.from_ix() == e.from.ix(),
        h.to_ix() == e.to.ix(),
{
    let e = choose|e: Crossing| #[trigger] called_for(x, h, e);
    if h.key == e.key(HalfMoveKind::Dest) {
        law_key_roundtrip(e.from.0, e.to.0, e.v, HalfMoveKind::Dest, h);
    } else {
        law_key_roundtrip(e.from.0, e.to.0, e.v, HalfMoveKind::Source, h);
    }
    e
}

/// A destination under the key after that of a source is of the crossing of the source.
proof fn lemma_dest_crossing(x: ApplyIn, h: HalfMove, e: Crossing)
    requires
        is_called_for(x, h),
        e.fits(),
        h.key == e.key(HalfMoveKind::Dest),
    ensures
        called_for(x, h, e),
{
    let d = choose|d: Crossing| #[trigger] called_for(x, h, d);
    law_key_roundtrip(e.from.0, e.to.0, e.v, HalfMoveKind::Dest, h);
    if h.key == d.key(HalfMoveKind::Dest) {
        law_key_roundtrip(d.from.0, d.to.0, d.v, HalfMoveKind::Dest, h);
    } else {
        law_key_roundtrip(d.from.0, d.to.0, d.v, HalfMoveKind::Source, h);
    }
    assert(d == e);
}

/// The state after the half-moves under the first key of a source from position `i` on, and the
/// position after them.
pub open spec fn after_key(f: FuncModel, s: ApplyState, halves: Seq<HalfMove>, i: int) -> (
    ApplyState,
    int,
) {
    let src = halves[next_source(halves, i)];
    let first = other_key(halves, src.key, next_source(halves, i) + 1);
    let last = other_key(halves, src.key | 1, first);
    let place = edge_place(f, src.from_ix(), src.to_ix())->Some_0;
    (apply_moves_to(s, halves, src.alloc, place, first, last), last)
}

/// The moves under one key are of one crossing and have one source.
proof fn lemma_key_owned(x: ApplyIn, s: ApplyState, halves: Seq<HalfMove>, i: int) -> (e: Crossing)
    requires
        keys_sorted(halves),
        all_called_for(x, halves),
        0 <= i <= halves.len(),
        next_source(halves, i) < halves.len(),
        apply_pairs(x.c.f, s, halves, i) is Ok,
    ensures
        ({
            let (u, last) = after_key(x.c.f, s, halves, i);
            let n = s.moves.len() as int;
            &&& i < last <= halves.len()
            &&& apply_pairs(x.c.f, s, halves, i) == apply_pairs(x.c.f, u, halves, last)
            &&& u.moves.len() >= n
            &&& forall|j: int| 0 <= j < n ==> #[trigger] u.moves[j] == s.moves[j]
            &&& forall|j: int|
                n <= j < u.moves.len() ==> crossing_move(x, #[trigger] u.moves[j], e)
                    && u.moves[j].from_alloc == halves[next_source(halves, i)].alloc
            &&& halves[i].key <= e.key(HalfMoveKind::Source)
            &&& last < halves.len() ==> e.key(HalfMoveKind::Source) < halves[last].key
        }),
{
    lemma_next_source(halves, i);
    let k = next_source(halves, i);
    let src = halves[k];
    let key = src.key;
    let e = lemma_source_crossing(x, halves[k]);
    lemma_key_pair(key);
    lemma_other_key(halves, key, k + 1);
    let first = other_key(halves, key, k + 1);
    lemma_other_key(halves, key | 1, first);
    let last = other_key(halves, key | 1, first);
    let place = edge_place(x.c.f, src.from_ix(), src.to_ix())->Some_0;
    let u = apply_moves_to(s, halves, src.alloc, place, first, last);
    let n = s.moves.len() as int;
    lemma_moves_listed(s, halves, src.alloc, place, first, last);
    if i < k {
        assert(halves[i].key <= halves[k].key);
    }
    if last < halves.len() {
        if first < last {
            assert(halves[first].key <= halves[last].key);
        }
        assert(halves[k].key <= halves[first].key);
    }
    assert forall|j: int| n <= j < u.moves.len() implies crossing_move(x, #[trigger] u.moves[j], e)
        && u.moves[j].from_alloc == src.alloc by {
        let h = halves[first + (j - n)];
        assert(u.moves[j].to_alloc == h.alloc);
        assert(h.key == key | 1);
        assert(h.key == e.key(HalfMoveKind::Dest));
        assert(is_called_for(x, halves[first + (j - n)]));
        lemma_dest_crossing(x, h, e);
        law_key_roundtrip(e.from.0, e.to.0, e.v, HalfMoveKind::Dest, h);
        law_key_roundtrip(e.from.0, e.to.0, e.v, HalfMoveKind::Source, src);
    }
    e
}

/// The crossings of moves: moves of one crossing have one source.
pub open spec fn owned_by(x: ApplyIn, moves: Seq<InsertedMove>, n: int, owners: Seq<Crossing>) -> bool {
    &&& moves.len() == n + owners.len()
    &&& forall|j: int| 0 <= j < owners.len() ==> crossing_move(x, moves[n + j], #[trigger] owners[j])
    &&& forall|j: int, k: int|
        #![trigger owners[j], owners[k]]
        0 <= j < owners.len() && 0 <= k < owners.len() && owners[j] == owners[k] ==> moves[n
            + j].from_alloc == moves[n + k].from_alloc
}

/// The crossings of the moves that come from half-moves, from position `i` on.
proof fn lemma_pairs_owned(x: ApplyIn, s: ApplyState, halves: Seq<HalfMove>, i: int) -> (owners: Seq<
    Crossing,
>)
    requires
        keys_sorted(halves),
        all_called_for(x, halves),
        0 <= i <= halves.len(),
        apply_pairs(x.c.f, s, halves, i) is Ok,
    ensures
        ({
            let t = apply_pairs(x.c.f, s, halves, i)->Ok_0;
            &&& owned_by(x, t.moves, s.moves.len() as int, owners)
            &&& forall|j: int| 0 <= j < s.moves.len() ==> #[trigger] t.moves[j] == s.moves[j]
            &&& forall|j: int|
                0 <= j < owners.len() ==> i < halves.len() && halves[i].key <= (
                #[trigger] owners[j]).key(HalfMoveKind::Source)
        }),
    decreases halves.len() - i,
{
    lemma_next_source(halves, i);
    let t = apply_pairs(x.c.f, s, halves, i)->Ok_0;
    let n = s.moves.len() as int;
    if next_source(halves, i) >= halves.len() {
        Seq::empty()
    } else {
        let e = lemma_key_owned(x, s, halves, i);
        let (u, last) = after_key(x.c.f, s, halves, i);
        let rest = lemma_pairs_owned(x, u, halves, last);
        let len = u.moves.len() - n;
        let owners = Seq::new(len as nat, |j: int| e) + rest;
        assert forall|j: int| 0 <= j < s.moves.len() implies #[trigger] t.moves[j] == s.moves[j] by {
            assert(u.moves[j] == s.moves[j]);
        }
        assert forall|j: int| 0 <= j < owners.len() implies crossing_move(
            x,
            t.moves[n + j],
            #[trigger] owners[j],
        ) && halves[i].key <= owners[j].key(HalfMoveKind::Source) by {
            if j < len {
                assert(t.moves[n + j] == u.moves[n + j]);
            } else {
                assert(owners[j] == rest[j - len]);
                assert(n + j == u.moves.len() + (j - len));
            }
        }
        assert forall|a: int, b: int|
            #![trigger owners[a], owners[b]]
            0 <= a < owners.len() && 0 <= b < owners.len() && owners[a]
                == owners[b] implies t.moves[n + a].from_alloc == t.moves[n + b].from_alloc by {
            if a < len {
                assert(t.moves[n + a] == u.moves[n + a]);
            } else {
                assert(owners[a] == rest[a - len]);
                assert(n + a == u.moves.len() + (a - len));
            }
            if b < len {
                assert(t.moves[n + b] == u.moves[n + b]);
            } else {
                assert(owners[b] == rest[b - len]);
                assert(n + b == u.moves.len() + (b - len));
            }
        }
        owners
    }
}

/// All moves are between live ranges within a block, and from one location to another.
pub open spec fn all_splits(moves: Seq<InsertedMove>) -> bool {
    forall|i: int|
        0 <= i < moves.len() ==> (#[trigger] moves[i]).prio is Regular && moves[i].from_alloc
            != moves[i].to_alloc
}

proof fn lemma_list_all_splits(
    x: ApplyIn,
    s: ApplyState,
    v: u32,
    defining: Block,
    prev: Option<(u32, Allocation)>,
    i: int,
)
    requires
        ctx_ok(x.c),
        list_ok(x, v),
        0 <= i,
        all_splits(s.moves),
        apply_list(x, s, v, defining, prev, i) is Ok,
    ensures
        all_splits(apply_list(x, s, v, defining, prev, i)->Ok_0.moves),
    decreases x.g.in_vreg[v as int].len() - i,
{
    let list = x.g.in_vreg[v as int];
    if i < list.len() {
        let alloc = range_alloc(x, list[i])->Some_0;
        let t = apply_range(x, s, v, defining, prev, list[i], alloc)->Ok_0;
        let e = Crossing { from: defining, to: defining, v };
        let m = lemma_range(x, s, v, defining, prev, list[i], alloc, e, alloc);
        lemma_list_all_splits(x, t, v, defining, Some((list[i], alloc)), i + 1);
    }
}

pub proof fn lemma_vregs_all_splits(x: ApplyIn, s: ApplyState, v: int)
    requires
        apply_in_ok(x),
        0 <= v,
        all_splits(s.moves),
        apply_vregs(x, s, v) is Ok,
    ensures
        all_splits(apply_vregs(x, s, v)->Ok_0.moves),
    decreases x.c.f.num_vregs - v,
{
    if v < x.c.f.num_vregs {
        lemma_list_ok(x, v as u32);
        let t = apply_list(x, s, v as u32, defining_block(x, v), None, 0)->Ok_0;
        lemma_list_all_splits(x, s, v as u32, defining_block(x, v), None, 0);
        lemma_vregs_all_splits(x, t, v + 1);
    }
}

/// Moves are of one of the kinds that moves are of, and copies of reused inputs stand before
/// instructions.
pub open spec fn kinds_ok(moves: Seq<InsertedMove>) -> bool {
    forall|i: int|
        0 <= i < moves.len() ==> !((#[trigger] moves[i]).prio is BlockParam) && (
        moves[i].prio is ReusedInput ==> moves[i].pos.pos is Before)
}

/// No move is of a kind that other edits are of.
pub proof fn lemma_kinds(x: ApplyIn, s: ApplyState, fixups: Seq<Fixup>)
    requires
        apply_in_ok(x),
        s.moves.len() == 0,
        apply_all(x, s, fixups) is Ok,
    ensures
        kinds_ok(apply_all(x, s, fixups)->Ok_0.moves),
{
    let s1 = apply_vregs(x, s, 0)->Ok_0;
    let s2 = apply_pairs(x.c.f, s1, stable_sort(s1.halves), 0)->Ok_0;
    let s3 = apply_fixups(x.c, s2, fixups, 0);
    let t = apply_all(x, s, fixups)->Ok_0;
    lemma_vregs_all_splits(x, s, 0);
    lemma_pairs(x.c.f, s1, stable_sort(s1.halves), 0);
    lemma_pairs_on_edge(x.c.f, s1, stable_sort(s1.halves), 0);
    lemma_fixups(x.c, s2, fixups, 0);
    lemma_reuse(x.c.f, s3, s1.reuse, 0);
    assert forall|i: int| 0 <= i < t.moves.len() implies !((#[trigger] t.moves[i]).prio
        is BlockParam) && (t.moves[i].prio is ReusedInput ==> t.moves[i].pos.pos is Before) by {
        if i < s3.moves.len() {
            assert(t.moves[i] == s3.moves[i]);
            if i < s2.moves.len() {
                assert(s3.moves[i] == s2.moves[i]);
                if i < s1.moves.len() {
                    assert(s2.moves[i] == s1.moves[i]);
                }
            }
        }
    }
}

proof fn lemma_moves_to_on_edge(
    s: ApplyState,
    halves: Seq<HalfMove>,
    src: Allocation,
    place: (ProgPoint, InsertMovePrio),
    i: int,
    n: int,
)
    requires
        place.1 is InEdgeMoves || place.1 is OutEdgeMoves,
    ensures
        edges_added(s, apply_moves_to(s, halves, src, place, i, n)),
    decreases n - i,
{
    if i < n {
        let t = apply_move(s, place.0, place.1, src, halves[i].alloc);
        lemma_moves_to_on_edge(t, halves, src, place, i + 1, n);
    }
}

/// The moves that were added are on edges.
spec fn edges_added(s: ApplyState, t: ApplyState) -> bool {
    &&& grown(s, t)
    &&& forall|i: int| s.moves.len() <= i < t.moves.len() ==> on_edge(#[trigger] t.moves[i])
}

proof fn lemma_pairs_on_edge(f: FuncModel, s: ApplyState, halves: Seq<HalfMove>, i: int)
    ensures
        apply_pairs(f, s, halves, i) matches Ok(t) ==> edges_added(s, t),
    decreases halves.len() - i,
{
    let k = next_source(halves, i);
    if !(i < 0 || k < i || k >= halves.len()) {
        let src = halves[k];
        let first = other_key(halves, src.key, k + 1);
        let last = other_key(halves, src.key | 1, first);
        if let Some(place) = edge_place(f, src.from_ix(), src.to_ix()) {
            lemma_moves_to_on_edge(s, halves, src.alloc, place, first, last);
            if k < last <= halves.len() {
                let t = apply_moves_to(s, halves, src.alloc, place, first, last);
                lemma_pairs_on_edge(f, t, halves, last);
            }
        }
    }
}

/// Moves on edges at one place are on one edge.
proof fn lemma_same_edge(
    x: ApplyIn,
    pos: ProgPoint,
    prio: InsertMovePrio,
    e1: Crossing,
    e2: Crossing,
)
    requires
        ctx_ok(x.c),
        placed_on(x, pos, prio, e1),
        placed_on(x, pos, prio, e2),
    ensures
        e1.from == e2.from,
        e1.to == e2.to,
{
    let f = x.c.f;
    assert(block_ok(f, e1.from.ix()));
    assert(block_ok(f, e2.from.ix()));
    assert(block_ok(f, e1.to.ix()));
    assert(block_ok(f, e2.to.ix()));
    let (a, b) = (f.insns[e1.from.ix()], f.insns[e2.from.ix()]);
    let (c, d) = (f.insns[e1.to.ix()], f.insns[e2.to.ix()]);
    if prio is OutEdgeMoves {
        assert(a.to.0 == b.to.0);
        assert(e1.from == e2.from) by {
            if e1.from.0 < e2.from.0 {
                assert(a.to.0 <= b.from.0);
            }
            if e2.from.0 < e1.from.0 {
                assert(b.to.0 <= a.from.0);
            }
        }
        assert(f.succs[e1.from.ix()].len() <= 1);
    } else {
        assert(c.from == d.from);
        assert(e1.to == e2.to) by {
            if e1.to.0 < e2.to.0 {
                assert(c.to.0 <= d.from.0);
            }
            if e2.to.0 < e1.to.0 {
                assert(d.to.0 <= c.from.0);
            }
        }
        assert(f.preds[e1.to.ix()].len() <= 1);
    }
}

/// The crossing of a move at the place of an edge is on that edge.
pub proof fn lemma_edge_of_place(x: ApplyIn, m: InsertedMove, e: Crossing, from: Block, to: Block)
    requires
        ctx_ok(x.c),
        crossing_move(x, m, e),
        from.0 < x.c.f.blocks,
        to.0 < x.c.f.blocks,
        x.c.f.succs[from.ix()].contains(to),
        x.c.f.preds[to.ix()].contains(from),
        edge_place(x.c.f, from.ix(), to.ix()) == Some((m.pos, m.prio)),
    ensures
        e.from == from,
        e.to == to,
{
    lemma_same_edge(x, m.pos, m.prio, e, Crossing { from, to, v: e.v });
}

/// Is the move on an edge?
pub open spec fn on_edge(m: InsertedMove) -> bool {
    m.prio is InEdgeMoves || m.prio is OutEdgeMoves
}

/// Every move on an edge is one that a crossing calls for, and moves at one place with one
/// destination have one source.
pub open spec fn edges_apart(x: ApplyIn, moves: Seq<InsertedMove>) -> bool {
    &&& forall|i: int|
        0 <= i < moves.len() && on_edge(#[trigger] moves[i]) ==> exists|e: Crossing|
            #[trigger] crossing_move(x, moves[i], e)
    &&& forall|i: int, j: int|
        #![trigger moves[i], moves[j]]
        0 <= i < j < moves.len() && on_edge(moves[i]) && on_edge(moves[j]) && moves[i].pos
            == moves[j].pos && moves[i].prio == moves[j].prio && moves[i].to_alloc
            == moves[j].to_alloc ==> moves[i].from_alloc == moves[j].from_alloc
}

/// Every move on an edge is one that a register that crosses the edge calls for, and moves at one
/// place with one destination have one source.
pub proof fn law_edges_apart(x: ApplyIn, s: ApplyState, fixups: Seq<Fixup>)
    requires
        apply_in_ok(x),
        kept_apart(x),
        s.moves.len() == 0,
        s.halves.len() == 0,
        apply_all(x, s, fixups) is Ok,
    ensures
        edges_apart(x, apply_all(x, s, fixups)->Ok_0.moves),
{
    let s1 = apply_vregs(x, s, 0)->Ok_0;
    let sorted = stable_sort(s1.halves);
    let s2 = apply_pairs(x.c.f, s1, sorted, 0)->Ok_0;
    let s3 = apply_fixups(x.c, s2, fixups, 0);
    let t = apply_all(x, s, fixups)->Ok_0;
    lemma_vregs_all_splits(x, s, 0);
    lemma_vregs_called(x, s, 0);
    law_stable_sort(s1.halves);
    assert forall|i: int| 0 <= i < sorted.len() implies is_called_for(x, #[trigger] sorted[i]) by {
        lemma_sorted_member(s1.halves, i);
    }
    let owners = lemma_pairs_owned(x, s1, sorted, 0);
    lemma_fixups(x.c, s2, fixups, 0);
    lemma_reuse(x.c.f, s3, s1.reuse, 0);
    let n = s1.moves.len() as int;
    assert forall|i: int| 0 <= i < t.moves.len() && on_edge(#[trigger] t.moves[i]) implies n <= i
        < s2.moves.len() && t.moves[i] == s2.moves[i] by {
        if i < s3.moves.len() {
            assert(t.moves[i] == s3.moves[i]);
            if i < s2.moves.len() {
                assert(s3.moves[i] == s2.moves[i]);
                if i < n {
                    assert(s2.moves[i] == s1.moves[i]);
                }
            }
        }
    }
    assert forall|i: int| 0 <= i < t.moves.len() && on_edge(#[trigger] t.moves[i]) implies exists|
        e: Crossing,
    |
        #[trigger] crossing_move(x, t.moves[i], e) by {
        let _ = owners[i - n];
        assert(n + (i - n) == i);
        assert(crossing_move(x, t.moves[i], owners[i - n]));
    }
    assert forall|i: int, j: int|
        #![trigger t.moves[i], t.moves[j]]
        0 <= i < j < t.moves.len() && on_edge(t.moves[i]) && on_edge(t.moves[j]) && t.moves[i].pos
            == t.moves[j].pos && t.moves[i].prio == t.moves[j].prio && t.moves[i].to_alloc
            == t.moves[j].to_alloc implies t.moves[i].from_alloc == t.moves[j].from_alloc by {
        let e = owners[i - n];
        let d = owners[j - n];
        assert(n + (i - n) == i && n + (j - n) == j);
        lemma_same_edge(x, t.moves[i].pos, t.moves[i].prio, e, d);
        if e.v == d.v {
            assert(e == d);
        } else {
            lemma_enter_apart(x, e, t.moves[i].to_alloc, d, t.moves[j].to_alloc);
        }
    }
}

/// Different registers come over an edge into different locations.
proof fn lemma_enter_apart(x: ApplyIn, e: Crossing, a: Allocation, d: Crossing, b: Allocation)
    requires
        apply_in_ok(x),
        kept_apart(x),
        e.to == d.to,
        e.v != d.v,
        entered_at(x, e, a),
        entered_at(x, d, b),
    ensures
        a != b,
{
    let i = choose|i: int| #[trigger] enters(x, e, i, a);
    let j = choose|j: int| #[trigger] enters(x, d, j, b);
    let r = x.g.in_vreg[e.v as int][i];
    let q = x.g.in_vreg[d.v as int][j];
    assert(x.g.ranges[r as int].range.meets(x.g.ranges[q as int].range));
    assert(range_alloc(x, x.g.in_vreg[e.v as int][i]) != range_alloc(
        x,
        x.g.in_vreg[d.v as int][j],
    ));
}

} // verus!
