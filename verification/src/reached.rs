//! The operands that the scan over the blocks has come to, each with one use.
use crate::cfg::cfg_ok;
use crate::data::{Def, Use};
use crate::dom::ssa_form;
use crate::func::{block_ok, func_ok, FuncModel};
use crate::graph::{graph_ok, mention_ok, GraphState};
use crate::liveness::{def_pos, Ctx};
use vstd::prelude::*;

verus! {

/// Has the scan come to operand `k` of instruction `i`, if it is in the block at position `at` of
/// the order and has entered its instructions from number `end` on, and of the one before them the
/// operands before `slot`?
pub open spec fn reached(c: Ctx, at: int, end: int, slot: int, i: int, k: int) -> bool {
    ||| exists|j: int|
        0 <= j < at && j < c.cfg.postorder.len() && c.f.insns[(
        #[trigger] c.cfg.postorder[j]).ix()].has(i)
    ||| 0 <= at < c.cfg.postorder.len() && c.f.insns[c.cfg.postorder[at].ix()].has(i) && (i >= end
        || i == end - 1 && k < slot)
}

/// Is there a use for operand `k` of instruction `i`?
pub open spec fn has_use(uses: Seq<Use>, i: int, k: int) -> bool {
    exists|u: int|
        0 <= u < uses.len() && (#[trigger] uses[u]).pos.inst.ix() == i && uses[u].slot == k
}

/// No two uses are for one operand.
pub open spec fn uses_distinct(uses: Seq<Use>) -> bool {
    forall|u: int, w: int|
        #![trigger uses[u], uses[w]]
        0 <= u < w < uses.len() ==> uses[u].pos.inst != uses[w].pos.inst || uses[u].slot
            != uses[w].slot
}

/// There is exactly one use for each operand that uses its register and that the scan has come to.
pub open spec fn scanned(c: Ctx, uses: Seq<Use>, at: int, end: int, slot: int) -> bool {
    &&& uses_distinct(uses)
    &&& forall|u: int|
        0 <= u < uses.len() ==> reached(
            c,
            at,
            end,
            slot,
            (#[trigger] uses[u]).pos.inst.ix(),
            uses[u].slot as int,
        )
    &&& forall|i: int, k: int|
        0 <= i < c.f.insts && 0 <= k < c.f.operands[i].len() && c.f.operands[i][k].kind is Use
            && reached(c, at, end, slot, i, k) ==> #[trigger] has_use(uses, i, k)
}

/// There is exactly one use for each operand that uses its register, of the blocks before position
/// `at` of the order.
pub open spec fn blocks_scanned(c: Ctx, uses: Seq<Use>, at: int) -> bool {
    scanned(c, uses, at, 0x1_0000_0000, 0)
}

/// A definition stands for an operand that defines its register, where it does and demanding what it
/// does.
pub open spec fn defs_named(f: FuncModel, defs: Seq<Def>) -> bool {
    forall|d: int|
        0 <= d < defs.len() ==> {
            let op = f.operands[(#[trigger] defs[d]).pos.inst.ix()][defs[d].slot as int];
            op.kind is Def && defs[d].operand == op && defs[d].pos == def_pos(op, defs[d].pos.inst)
        }
}

/// The uses are for the same operands.
pub open spec fn sites_kept(a: Seq<Use>, b: Seq<Use>) -> bool {
    &&& b.len() == a.len()
    &&& forall|u: int|
        0 <= u < a.len() ==> (#[trigger] b[u]).pos == a[u].pos && b[u].slot == a[u].slot
}

pub proof fn lemma_sites_scanned(
    c: Ctx,
    a: Seq<Use>,
    b: Seq<Use>,
    at: int,
    end: int,
    slot: int,
)
    requires
        scanned(c, a, at, end, slot),
        sites_kept(a, b),
    ensures
        scanned(c, b, at, end, slot),
{
    assert forall|u: int, w: int|
        #![trigger b[u], b[w]]
        0 <= u < w < b.len() implies b[u].pos.inst != b[w].pos.inst || b[u].slot != b[w].slot by {
        let _ = (a[u], a[w]);
    }
    assert forall|i: int, k: int|
        0 <= i < c.f.insts && 0 <= k < c.f.operands[i].len() && c.f.operands[i][k].kind is Use
            && reached(c, at, end, slot, i, k) implies #[trigger] has_use(b, i, k) by {
        assert(has_use(a, i, k));
        let u = choose|u: int|
            0 <= u < a.len() && (#[trigger] a[u]).pos.inst.ix() == i && a[u].slot == k;
        assert(b[u].pos.inst.ix() == i);
    }
}

/// An instruction is in one block of the order.
pub proof fn lemma_one_block(c: Ctx, i: int, a: int, b: int)
    requires
        func_ok(c.f),
        cfg_ok(c.f, c.cfg),
        0 <= a < c.cfg.postorder.len(),
        0 <= b < c.cfg.postorder.len(),
        c.f.insns[c.cfg.postorder[a].ix()].has(i),
        c.f.insns[c.cfg.postorder[b].ix()].has(i),
    ensures
        a == b,
{
    let x = c.cfg.postorder[a];
    let y = c.cfg.postorder[b];
    assert(x.0 < c.f.blocks && y.0 < c.f.blocks);
    if x.ix() < y.ix() {
        assert(c.f.insns[x.ix()].to.0 <= c.f.insns[y.ix()].from.0);
    }
    if y.ix() < x.ix() {
        assert(c.f.insns[y.ix()].to.0 <= c.f.insns[x.ix()].from.0);
    }
    assert(x == y);
}

/// Nothing has been entered yet.
pub proof fn lemma_nothing_scanned(c: Ctx, uses: Seq<Use>)
    requires
        uses.len() == 0,
        func_ok(c.f),
    ensures
        blocks_scanned(c, uses, 0),
{
}

/// Uses are at operands that exist.
pub proof fn lemma_sites_exist(f: FuncModel, g: GraphState)
    requires
        graph_ok(f, g),
    ensures
        forall|u: int|
            0 <= u < g.uses.len() ==> (#[trigger] g.uses[u]).pos.inst.ix() < f.insts
                && g.uses[u].slot < f.operands[g.uses[u].pos.inst.ix()].len(),
{
    assert forall|u: int| 0 <= u < g.uses.len() implies (#[trigger] g.uses[u]).pos.inst.ix()
        < f.insts && g.uses[u].slot < f.operands[g.uses[u].pos.inst.ix()].len() by {
        assert(mention_ok(f, g.uses[u].pos, g.uses[u].slot));
    }
}

/// Another operand is entered.
pub proof fn lemma_operand_scanned(
    c: Ctx,
    a: Seq<Use>,
    b: Seq<Use>,
    at: int,
    i: int,
    slot: int,
)
    requires
        func_ok(c.f),
        cfg_ok(c.f, c.cfg),
        scanned(c, a, at, i + 1, slot),
        0 <= at < c.cfg.postorder.len(),
        c.f.insns[c.cfg.postorder[at].ix()].has(i),
        0 <= slot < c.f.operands[i].len(),
        if c.f.operands[i][slot].kind is Use {
            b.len() == a.len() + 1 && b.take(a.len() as int) == a && b.last().pos.inst.ix() == i
                && b.last().slot == slot
        } else {
            b == a
        },
    ensures
        scanned(c, b, at, i + 1, slot + 1),
{
    let n = a.len() as int;
    assert forall|u: int| 0 <= u < n implies #[trigger] b[u] == a[u] by {
        if c.f.operands[i][slot].kind is Use {
            assert(b.take(n)[u] == b[u]);
        }
    }
    assert forall|x: int, k: int|
        #![trigger reached(c, at, i + 1, slot + 1, x, k)]
        reached(c, at, i + 1, slot + 1, x, k) == (reached(c, at, i + 1, slot, x, k) || x == i && k
            == slot || (x == i && k < slot)) by {
        if x == i {
            assert(c.f.insns[c.cfg.postorder[at].ix()].has(x));
        }
    }
    assert(!reached(c, at, i + 1, slot, i, slot)) by {
        if exists|j: int|
            0 <= j < at && j < c.cfg.postorder.len() && c.f.insns[(
            #[trigger] c.cfg.postorder[j]).ix()].has(i) {
            let j = choose|j: int|
                0 <= j < at && j < c.cfg.postorder.len() && c.f.insns[(
                #[trigger] c.cfg.postorder[j]).ix()].has(i);
            lemma_one_block(c, i, j, at);
        }
    }
    assert forall|u: int| 0 <= u < b.len() implies reached(
        c,
        at,
        i + 1,
        slot + 1,
        (#[trigger] b[u]).pos.inst.ix(),
        b[u].slot as int,
    ) by {
        if u < n {
            assert(reached(c, at, i + 1, slot, a[u].pos.inst.ix(), a[u].slot as int));
        }
    }
    assert forall|u: int, w: int|
        #![trigger b[u], b[w]]
        0 <= u < w < b.len() implies b[u].pos.inst != b[w].pos.inst || b[u].slot != b[w].slot by {
        if w < n {
            let _ = (a[u], a[w]);
        } else {
            assert(reached(c, at, i + 1, slot, a[u].pos.inst.ix(), a[u].slot as int));
            assert(b[w] == b.last());
        }
    }
    assert forall|x: int, k: int|
        0 <= x < c.f.insts && 0 <= k < c.f.operands[x].len() && c.f.operands[x][k].kind is Use
            && reached(c, at, i + 1, slot + 1, x, k) implies #[trigger] has_use(b, x, k) by {
        if x == i && k == slot {
            assert(b[n] == b.last());
        } else {
            assert(reached(c, at, i + 1, slot, x, k));
            assert(has_use(a, x, k));
            let u = choose|u: int|
                0 <= u < a.len() && (#[trigger] a[u]).pos.inst.ix() == x && a[u].slot == k;
            assert(b[u] == a[u]);
        }
    }
}

proof fn lemma_same_reached(
    c: Ctx,
    uses: Seq<Use>,
    at: int,
    end: int,
    slot: int,
    at2: int,
    end2: int,
    slot2: int,
)
    requires
        scanned(c, uses, at, end, slot),
        forall|i: int, k: int|
            0 <= i < c.f.insts && 0 <= k < c.f.operands[i].len() ==> reached(c, at, end, slot, i, k)
                == #[trigger] reached(c, at2, end2, slot2, i, k),
        forall|u: int|
            0 <= u < uses.len() ==> (#[trigger] uses[u]).pos.inst.ix() < c.f.insts && uses[u].slot
                < c.f.operands[uses[u].pos.inst.ix()].len(),
    ensures
        scanned(c, uses, at2, end2, slot2),
{
    assert forall|u: int| 0 <= u < uses.len() implies reached(
        c,
        at2,
        end2,
        slot2,
        (#[trigger] uses[u]).pos.inst.ix(),
        uses[u].slot as int,
    ) by {
        assert(reached(c, at, end, slot, uses[u].pos.inst.ix(), uses[u].slot as int));
    }
}

/// All operands of an instruction have been entered.
pub proof fn lemma_inst_scanned(c: Ctx, uses: Seq<Use>, at: int, i: int)
    requires
        scanned(c, uses, at, i + 1, c.f.operands[i].len() as int),
        0 <= at < c.cfg.postorder.len(),
        c.f.insns[c.cfg.postorder[at].ix()].has(i),
        forall|u: int|
            0 <= u < uses.len() ==> (#[trigger] uses[u]).pos.inst.ix() < c.f.insts && uses[u].slot
                < c.f.operands[uses[u].pos.inst.ix()].len(),
    ensures
        scanned(c, uses, at, i, 0),
{
    lemma_same_reached(c, uses, at, i + 1, c.f.operands[i].len() as int, at, i, 0);
}

/// All instructions of a block have been entered.
pub proof fn lemma_block_scanned(c: Ctx, uses: Seq<Use>, at: int)
    requires
        0 <= at < c.cfg.postorder.len(),
        scanned(c, uses, at, c.f.insns[c.cfg.postorder[at].ix()].from.0 as int, 0),
        forall|u: int|
            0 <= u < uses.len() ==> (#[trigger] uses[u]).pos.inst.ix() < c.f.insts && uses[u].slot
                < c.f.operands[uses[u].pos.inst.ix()].len(),
    ensures
        blocks_scanned(c, uses, at + 1),
{
    let from = c.f.insns[c.cfg.postorder[at].ix()].from.0 as int;
    assert forall|i: int, k: int|
        0 <= i < c.f.insts && 0 <= k < c.f.operands[i].len() implies reached(c, at, from, 0, i, k)
        == #[trigger] reached(c, at + 1, 0x1_0000_0000, 0, i, k) by {
        if reached(c, at, from, 0, i, k) {
            if exists|j: int|
                0 <= j < at && j < c.cfg.postorder.len() && c.f.insns[(
                #[trigger] c.cfg.postorder[j]).ix()].has(i) {
            } else {
                assert(c.f.insns[c.cfg.postorder[at].ix()].has(i));
            }
        }
        if reached(c, at + 1, 0x1_0000_0000, 0, i, k) {
            let j = choose|j: int|
                0 <= j < at + 1 && j < c.cfg.postorder.len() && c.f.insns[(
                #[trigger] c.cfg.postorder[j]).ix()].has(i);
        }
    }
    lemma_same_reached(c, uses, at, from, 0, at + 1, 0x1_0000_0000, 0);
}

/// The scan begins with the end of a block.
pub proof fn lemma_block_begun(c: Ctx, uses: Seq<Use>, at: int)
    requires
        0 <= at < c.cfg.postorder.len(),
        func_ok(c.f),
        cfg_ok(c.f, c.cfg),
        blocks_scanned(c, uses, at),
        forall|u: int|
            0 <= u < uses.len() ==> (#[trigger] uses[u]).pos.inst.ix() < c.f.insts && uses[u].slot
                < c.f.operands[uses[u].pos.inst.ix()].len(),
    ensures
        scanned(c, uses, at, c.f.insns[c.cfg.postorder[at].ix()].to.0 as int, 0),
{
    let b = c.cfg.postorder[at];
    assert(b.0 < c.f.blocks);
    assert(block_ok(c.f, b.ix()));
    let to = c.f.insns[b.ix()].to.0 as int;
    lemma_same_reached(c, uses, at, 0x1_0000_0000, 0, at, to, 0);
}

/// Is there a definition for operand `k` of instruction `i`?
pub open spec fn has_def(defs: Seq<Def>, i: int, k: int) -> bool {
    exists|d: int|
        0 <= d < defs.len() && (#[trigger] defs[d]).pos.inst.ix() == i && defs[d].slot == k
}

/// There are definitions for the operands that define their registers and that the scan has come
/// to, and no others.
pub open spec fn defs_scanned(c: Ctx, defs: Seq<Def>, at: int, end: int, slot: int) -> bool {
    &&& forall|d: int|
        0 <= d < defs.len() ==> reached(
            c,
            at,
            end,
            slot,
            (#[trigger] defs[d]).pos.inst.ix(),
            defs[d].slot as int,
        )
    &&& forall|i: int, k: int|
        0 <= i < c.f.insts && 0 <= k < c.f.operands[i].len() && c.f.operands[i][k].kind is Def
            && reached(c, at, end, slot, i, k) ==> #[trigger] has_def(defs, i, k)
}

/// Another operand is entered.
pub proof fn lemma_defs_operand(
    c: Ctx,
    a: Seq<Def>,
    b: Seq<Def>,
    at: int,
    i: int,
    slot: int,
)
    requires
        defs_scanned(c, a, at, i + 1, slot),
        0 <= at < c.cfg.postorder.len(),
        c.f.insns[c.cfg.postorder[at].ix()].has(i),
        if c.f.operands[i][slot].kind is Def {
            b.len() == a.len() + 1 && b.take(a.len() as int) == a && b.last().pos.inst.ix() == i
                && b.last().slot == slot
        } else {
            b == a
        },
    ensures
        defs_scanned(c, b, at, i + 1, slot + 1),
{
    assert forall|x: int, k: int|
        0 <= x < c.f.insts && 0 <= k < c.f.operands[x].len() && c.f.operands[x][k].kind is Def
            && reached(c, at, i + 1, slot + 1, x, k) implies #[trigger] has_def(b, x, k) by {
        if x == i && k == slot {
            assert(b[a.len() as int] == b.last());
        } else {
            assert(reached(c, at, i + 1, slot, x, k));
            assert(has_def(a, x, k));
            let d = choose|d: int|
                0 <= d < a.len() && (#[trigger] a[d]).pos.inst.ix() == x && a[d].slot == k;
            if b != a {
                assert(b.take(a.len() as int)[d] == b[d]);
            }
            assert(b[d] == a[d]);
        }
    }
    assert forall|d: int| 0 <= d < b.len() implies reached(
        c,
        at,
        i + 1,
        slot + 1,
        (#[trigger] b[d]).pos.inst.ix(),
        b[d].slot as int,
    ) by {
        if d < a.len() {
            if b != a {
                assert(b.take(a.len() as int)[d] == b[d]);
            }
            assert(reached(c, at, i + 1, slot, a[d].pos.inst.ix(), a[d].slot as int));
        } else {
            assert(b[d] == b.last());
        }
    }
}

/// All operands of an instruction have been entered.
pub proof fn lemma_defs_inst(c: Ctx, defs: Seq<Def>, at: int, i: int, slot: int)
    requires
        defs_scanned(c, defs, at, i + 1, slot),
        slot == c.f.operands[i].len(),
    ensures
        defs_scanned(c, defs, at, i, 0),
{
    assert forall|x: int, k: int|
        0 <= x < c.f.insts && 0 <= k < c.f.operands[x].len() && c.f.operands[x][k].kind is Def
            && reached(c, at, i, 0, x, k) implies #[trigger] has_def(defs, x, k) by {
        assert(reached(c, at, i + 1, slot, x, k));
    }
    assert forall|d: int| 0 <= d < defs.len() implies reached(
        c,
        at,
        i,
        0,
        (#[trigger] defs[d]).pos.inst.ix(),
        defs[d].slot as int,
    ) by {
        assert(reached(c, at, i + 1, slot, defs[d].pos.inst.ix(), defs[d].slot as int));
    }
}

/// All instructions of a block have been entered.
pub proof fn lemma_defs_block(c: Ctx, defs: Seq<Def>, at: int, end: int)
    requires
        0 <= at < c.cfg.postorder.len(),
        func_ok(c.f),
        end == c.f.insns[c.cfg.postorder[at].ix()].from.0,
        defs_scanned(c, defs, at, end, 0),
    ensures
        defs_scanned(c, defs, at + 1, 0x1_0000_0000, 0),
{
    assert forall|x: int, k: int|
        0 <= x < c.f.insts && 0 <= k < c.f.operands[x].len() && c.f.operands[x][k].kind is Def
            && reached(c, at + 1, 0x1_0000_0000, 0, x, k) implies #[trigger] has_def(defs, x, k) by {
        let j = choose|j: int|
            0 <= j < at + 1 && j < c.cfg.postorder.len() && c.f.insns[(
            #[trigger] c.cfg.postorder[j]).ix()].has(x);
        assert(reached(c, at, end, 0, x, k));
    }
    assert forall|d: int| 0 <= d < defs.len() implies reached(
        c,
        at + 1,
        0x1_0000_0000,
        0,
        (#[trigger] defs[d]).pos.inst.ix(),
        defs[d].slot as int,
    ) by {
        let i = defs[d].pos.inst.ix();
        assert(reached(c, at, end, 0, i, defs[d].slot as int));
        if exists|j: int|
            0 <= j < at && j < c.cfg.postorder.len() && c.f.insns[(
            #[trigger] c.cfg.postorder[j]).ix()].has(i) {
        } else {
            assert(c.f.insns[c.cfg.postorder[at].ix()].has(i));
        }
    }
}

/// The scan begins with the end of a block.
pub proof fn lemma_defs_begun(c: Ctx, defs: Seq<Def>, at: int, to: int)
    requires
        defs_scanned(c, defs, at, 0x1_0000_0000, 0),
        to <= 0x1_0000_0000,
        to == c.f.insns[c.cfg.postorder[at].ix()].to.0,
    ensures
        defs_scanned(c, defs, at, to, 0),
{
    assert forall|x: int, k: int|
        0 <= x < c.f.insts && 0 <= k < c.f.operands[x].len() && c.f.operands[x][k].kind is Def
            && reached(c, at, to, 0, x, k) implies #[trigger] has_def(defs, x, k) by {
        assert(reached(c, at, 0x1_0000_0000, 0, x, k));
    }
    assert forall|d: int| 0 <= d < defs.len() implies reached(
        c,
        at,
        to,
        0,
        (#[trigger] defs[d]).pos.inst.ix(),
        defs[d].slot as int,
    ) by {
        assert(reached(c, at, 0x1_0000_0000, 0, defs[d].pos.inst.ix(), defs[d].slot as int));
    }
}

/// In a function in static single assignment form the register of a definition that the scan comes to
/// has none yet.
pub proof fn lemma_no_def_yet(c: Ctx, defs: Seq<Def>, at: int, i: int, slot: int)
    requires
        func_ok(c.f),
        cfg_ok(c.f, c.cfg),
        defs_named(c.f, defs),
        forall|d: int|
            0 <= d < defs.len() ==> mention_ok(c.f, (#[trigger] defs[d]).pos, defs[d].slot),
        defs_scanned(c, defs, at, i + 1, slot),
        0 <= at < c.cfg.postorder.len(),
        c.f.insns[c.cfg.postorder[at].ix()].has(i),
        0 <= i < c.f.insts,
        0 <= slot < c.f.operands[i].len(),
        c.f.operands[i][slot].kind is Def,
    ensures
        ssa_form(c.f) ==> forall|d: int|
            0 <= d < defs.len() ==> (#[trigger] defs[d]).operand.vreg.vreg
                != c.f.operands[i][slot].vreg.vreg,
{
    reveal(ssa_form);
    assert(!reached(c, at, i + 1, slot, i, slot)) by {
        if exists|j: int|
            0 <= j < at && j < c.cfg.postorder.len() && c.f.insns[(
            #[trigger] c.cfg.postorder[j]).ix()].has(i) {
            let j = choose|j: int|
                0 <= j < at && j < c.cfg.postorder.len() && c.f.insns[(
                #[trigger] c.cfg.postorder[j]).ix()].has(i);
            lemma_one_block(c, i, j, at);
        }
    }
    assert forall|d: int| 0 <= d < defs.len() && ssa_form(c.f) implies (
    #[trigger] defs[d]).operand.vreg.vreg != c.f.operands[i][slot].vreg.vreg by {
        let x = defs[d].pos.inst.ix();
        let k = defs[d].slot as int;
        assert(mention_ok(c.f, defs[d].pos, defs[d].slot));
        assert(reached(c, at, i + 1, slot, x, k));
        assert(c.f.operands[x][k].kind is Def);
    }
}

} // verus!
