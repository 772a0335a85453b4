//! Functions in static single assignment form.
use crate::cfg::reachable;
use crate::func::FuncModel;
use crate::index::Block;
use crate::tree::tree_ok;
use crate::uses::defined_first;
use vstd::prelude::*;

verus! {

/// Do the blocks lead from the entry to block `b`, each to the next one?
pub open spec fn path_to(f: FuncModel, path: Seq<Block>, b: Block) -> bool {
    &&& path.len() > 0
    &&& path[0] == f.entry
    &&& path.last() == b
    &&& forall|k: int|
        0 <= k < path.len() - 1 ==> (#[trigger] path[k]).0 < f.blocks && f.succs[path[k].ix()].contains(
            path[k + 1],
        )
}

/// Is block `d` on every way from the entry to block `b`?
pub open spec fn dominates(f: FuncModel, d: Block, b: Block) -> bool {
    forall|path: Seq<Block>| #[trigger] path_to(f, path, b) ==> path.contains(d)
}

/// Does an instruction of block `b` define register `v`?
pub open spec fn def_in(f: FuncModel, v: int, b: Block) -> bool {
    exists|i: int, k: int|
        f.insns[b.ix()].has(i) && 0 <= k < f.operands[i].len() && (
        #[trigger] f.operands[i][k]).kind is Def && f.operands[i][k].vreg.vreg == v
}

/// Does an instruction of block `b` use register `v`?
pub open spec fn use_in(f: FuncModel, v: int, b: Block) -> bool {
    exists|i: int, k: int|
        f.insns[b.ix()].has(i) && 0 <= k < f.operands[i].len() && (
        #[trigger] f.operands[i][k]).kind is Use && f.operands[i][k].vreg.vreg == v
}

/// No register is defined by two operands, or by an operand and as a parameter of a block.
pub open spec fn defined_once(f: FuncModel) -> bool {
    &&& forall|i: int, k: int, j: int, l: int|
        #![trigger f.operands[i][k], f.operands[j][l]]
        0 <= i < f.insts && 0 <= j < f.insts && 0 <= k < f.operands[i].len() && 0 <= l
            < f.operands[j].len() && f.operands[i][k].kind is Def && f.operands[j][l].kind is Def
            && f.operands[i][k].vreg.vreg == f.operands[j][l].vreg.vreg ==> i == j && k == l
    &&& forall|i: int, k: int, b: int, l: int|
        #![trigger f.operands[i][k], f.params[b][l]]
        0 <= i < f.insts && 0 <= k < f.operands[i].len() && f.operands[i][k].kind is Def && 0 <= b
            < f.blocks && 0 <= l < f.params[b].len() ==> f.params[b][l].vreg
            != f.operands[i][k].vreg.vreg
}

/// A block in which a register is defined is on every way to the blocks that use it.
pub open spec fn defs_dominate(f: FuncModel) -> bool {
    forall|v: int, d: Block, b: Block|
        #![trigger def_in(f, v, d), use_in(f, v, b)]
        d.0 < f.blocks && b.0 < f.blocks && def_in(f, v, d) && use_in(f, v, b) && reachable(f, b)
            ==> dominates(f, d, b)
}

/// Blocks name as predecessors only blocks that name them as successors.
pub open spec fn edges_agree(f: FuncModel) -> bool {
    forall|b: Block, k: int|
        b.0 < f.blocks && 0 <= k < f.preds[b.ix()].len() ==> f.succs[(
        #[trigger] f.preds[b.ix()][k]).ix()].contains(b)
}

/// Is the function in static single assignment form?
#[verifier::opaque]
pub open spec fn ssa_form(f: FuncModel) -> bool {
    &&& edges_agree(f)
    &&& defined_once(f)
    &&& defined_first(f)
    &&& defs_dominate(f)
}

/// A block that is on every way to a block is on every way to its predecessors.
pub proof fn lemma_dominates_pred(f: FuncModel, d: Block, p: Block, b: Block)
    requires
        dominates(f, d, b),
        d != b,
        p.0 < f.blocks,
        f.succs[p.ix()].contains(b),
    ensures
        dominates(f, d, p),
{
    assert forall|path: Seq<Block>| #[trigger] path_to(f, path, p) implies path.contains(d) by {
        let longer = path.push(b);
        assert(path_to(f, longer, b)) by {
            assert forall|k: int| 0 <= k < longer.len() - 1 implies (#[trigger] longer[k]).0 < f.blocks
                && f.succs[longer[k].ix()].contains(longer[k + 1]) by {
                assert(longer[k] == path[k]);
                if k < path.len() - 1 {
                    assert(longer[k + 1] == path[k + 1]);
                }
            }
        }
        assert(longer.contains(d));
        let k = choose|k: int| 0 <= k < longer.len() && longer[k] == d;
        assert(path[k] == d);
    }
}

/// Is everything that was left from position `j` up to position `d` below the block at `d`?
pub open spec fn within(up: Seq<int>, j: int, d: int) -> bool {
    &&& 0 <= j <= d
    &&& forall|m: int| j <= m < d ==> (#[trigger] up[m]) <= d
}

pub proof fn lemma_within_trans(up: Seq<int>, y: int, x: int, d: int)
    requires
        within(up, y, x),
        within(up, x, d),
    ensures
        within(up, y, d),
{
}

/// A way to a block over blocks that are left after it.
proof fn lemma_path_above(f: FuncModel, order: Seq<Block>, up: Seq<int>, j: int) -> (path: Seq<Block>)
    requires
        tree_ok(f, order, up),
        0 <= j < order.len(),
        forall|i: int| 0 <= i < order.len() ==> (#[trigger] order[i]).0 < f.blocks,
    ensures
        path_to(f, path, order[j]),
        forall|k: int|
            0 <= k < path.len() ==> exists|q: int|
                j <= q < order.len() && #[trigger] order[q] == #[trigger] path[k],
    decreases order.len() - j,
{
    if j == order.len() - 1 {
        let path = seq![f.entry];
        assert(order[j] == path[0]);
        path
    } else {
        let q = up[j];
        let first = lemma_path_above(f, order, up, q);
        let path = first.push(order[j]);
        assert forall|k: int| 0 <= k < path.len() - 1 implies (#[trigger] path[k]).0 < f.blocks
            && f.succs[path[k].ix()].contains(path[k + 1]) by {
            assert(path[k] == first[k]);
            if k < first.len() - 1 {
                assert(path[k + 1] == first[k + 1]);
            } else {
                assert(first[k] == order[q]);
            }
        }
        assert forall|k: int| 0 <= k < path.len() implies exists|i: int|
            j <= i < order.len() && #[trigger] order[i] == #[trigger] path[k] by {
            if k < first.len() {
                assert(path[k] == first[k]);
                let i = choose|i: int|
                    q <= i < order.len() && #[trigger] order[i] == #[trigger] first[k];
                assert(order[i] == path[k]);
            } else {
                assert(order[j] == path[k]);
            }
        }
        path
    }
}

/// A block that is on every way to another one is above it in the tree.
pub proof fn lemma_dominates_within(f: FuncModel, order: Seq<Block>, up: Seq<int>, at: int, d: int)
    requires
        tree_ok(f, order, up),
        order.no_duplicates(),
        forall|i: int| 0 <= i < order.len() ==> (#[trigger] order[i]).0 < f.blocks,
        0 <= at < order.len(),
        0 <= d < order.len(),
        dominates(f, order[d], order[at]),
    ensures
        within(up, at, d),
    decreases order.len() - at,
{
    if at > d {
        let path = lemma_path_above(f, order, up, at);
        assert(path.contains(order[d]));
        let k = choose|k: int| 0 <= k < path.len() && path[k] == order[d];
        let q = choose|q: int|
            at <= q < order.len() && #[trigger] order[q] == #[trigger] path[k];
        assert(order[q] == order[d]);
    } else if at < d {
        let q = up[at];
        assert(order[at] != order[d]);
        lemma_dominates_pred(f, order[d], order[q], order[at]);
        lemma_dominates_within(f, order, up, q, d);
        assert(within(up, at, q));
        lemma_within_trans(up, at, q, d);
    }
}

} // verus!
