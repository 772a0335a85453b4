//! What is derived from the shape of a function: the order of its blocks and the places of its
//! instructions.
use crate::func::{block_ok, func_ok, inst_ok, FuncModel, Function};
use crate::index::{Block, Inst};
use crate::reg::ProgPoint;
use crate::tree::{keys_pushed, lemma_tree_done, lemma_tree_pop, lemma_tree_push, tree_inv, tree_ok};
use vstd::prelude::*;

verus! {

/// The derived facts.
#[derive(Debug)]
pub struct CFGInfo {
    /// The blocks that can be reached, each after the blocks that were first reached through it.
    pub postorder: Vec<Block>,
    /// For each instruction, the block it belongs to.
    pub insn_block: Vec<Block>,
    /// For each virtual register, the block it is a parameter of and its position there.
    pub vreg_def_blockparam: Vec<(Block, u32)>,
    /// For each block, its first point.
    pub block_entry: Vec<ProgPoint>,
    /// For each block, its last point.
    pub block_exit: Vec<ProgPoint>,
}

/// The mathematical value of a `CFGInfo`.
pub struct CfgModel {
    pub postorder: Seq<Block>,
    pub insn_block: Seq<Block>,
    pub vreg_def_blockparam: Seq<(Block, u32)>,
    pub block_entry: Seq<ProgPoint>,
    pub block_exit: Seq<ProgPoint>,
}

impl View for CFGInfo {
    type V = CfgModel;

    open spec fn view(&self) -> CfgModel {
        CfgModel {
            postorder: self.postorder@,
            insn_block: self.insn_block@,
            vreg_def_blockparam: self.vreg_def_blockparam@,
            block_entry: self.block_entry@,
            block_exit: self.block_exit@,
        }
    }
}

/// Can the block be reached from the entry over at most `n` edges?
pub open spec fn reachable_in(f: FuncModel, b: Block, n: nat) -> bool
    decreases n,
{
    ||| b == f.entry
    ||| n > 0 && exists|p: Block|
        #![trigger f.succs[p.ix()]]
        reachable_in(f, p, (n - 1) as nat) && p.0 < f.blocks && f.succs[p.ix()].contains(b)
}

/// Can the block be reached from the entry?
pub open spec fn reachable(f: FuncModel, b: Block) -> bool {
    exists|n: nat| reachable_in(f, b, n)
}

/// How a depth-first walk goes on that takes successors in their order: `stack` holds the blocks
/// that were entered and not left yet, each with the number of its successors that were looked at,
/// and `order` the blocks that were left.
pub open spec fn walk(
    f: FuncModel,
    visited: Seq<bool>,
    stack: Seq<(Block, usize)>,
    order: Seq<Block>,
) -> Seq<Block>
    decreases count_false(visited), stack_work(f, stack),
{
    if stack.len() == 0 {
        order
    } else {
        let (block, next) = stack.last();
        let succs = f.succs[block.ix()];
        if next < succs.len() && next < usize::MAX {
            let succ = succs[next as int];
            let stack1 = stack.drop_last().push((block, (next + 1) as usize));
            if succ.0 < visited.len() && !visited[succ.ix()] {
                proof {
                    lemma_count_false_update(visited, succ.ix());
                }
                walk(f, visited.update(succ.ix(), true), stack1.push((succ, 0)), order)
            } else {
                proof {
                    assert(stack1.drop_last() =~= stack.drop_last());
                }
                walk(f, visited, stack1, order)
            }
        } else {
            walk(f, visited, stack.drop_last(), order.push(block))
        }
    }
}

/// The blocks that can be reached, in the order in which a depth-first walk from the entry leaves
/// them.
pub open spec fn postorder_of(f: FuncModel) -> Seq<Block> {
    let visited = Seq::new(f.blocks, |i: int| i == f.entry.ix());
    walk(f, visited, seq![(f.entry, 0usize)], Seq::empty())
}

/// The listed blocks are distinct and are those that can be reached from the entry, in the order
/// of a depth-first walk.
pub open spec fn postorder_ok(f: FuncModel, order: Seq<Block>) -> bool {
    &&& order == postorder_of(f)
    &&& forall|i: int| 0 <= i < order.len() ==> (#[trigger] order[i]).0 < f.blocks
    &&& order.no_duplicates()
    &&& forall|b: Block| b.0 < f.blocks ==> (#[trigger] order.contains(b) <==> reachable(f, b))
    &&& exists|up: Seq<int>| tree_ok(f, order, up)
}

/// The block parameter that a virtual register is: the last one that names it.
pub open spec fn blockparam_ok(f: FuncModel, v: int, p: (Block, u32)) -> bool {
    blockparam_upto(f, v, p, f.blocks as int, 0)
}

/// The last one of the parameters before position `i` of block `b` that names a virtual register.
pub open spec fn blockparam_upto(f: FuncModel, v: int, p: (Block, u32), b: int, i: int) -> bool {
    if p.0.is_valid() {
        &&& p.0.0 < f.blocks
        &&& p.1 < f.params[p.0.ix()].len()
        &&& p.0.0 < b || p.0.0 == b && p.1 < i
        &&& f.params[p.0.ix()][p.1 as int].vreg == v
        &&& forall|c: int, j: int|
            0 <= c < f.blocks && 0 <= j < f.params[c].len() && (c < b || (c == b && j < i)) && (c
                > p.0.ix() || (c == p.0.ix() && j > p.1)) ==> (#[trigger] f.params[c][j]).vreg != v
    } else {
        &&& p == (Block::invalid(), 0u32)
        &&& forall|c: int, j: int|
            0 <= c < f.blocks && 0 <= j < f.params[c].len() && (c < b || (c == b && j < i)) ==> (
            #[trigger] f.params[c][j]).vreg != v
    }
}

/// The facts belong to the function.
pub open spec fn cfg_ok(f: FuncModel, c: CfgModel) -> bool {
    &&& postorder_ok(f, c.postorder)
    &&& c.insn_block.len() == f.insts
    &&& forall|i: int|
        0 <= i < f.insts ==> (#[trigger] c.insn_block[i]).0 < f.blocks
            && f.insns[c.insn_block[i].ix()].has(i)
    &&& c.vreg_def_blockparam.len() == f.num_vregs
    &&& forall|v: int|
        0 <= v < f.num_vregs ==> blockparam_ok(f, v, #[trigger] c.vreg_def_blockparam[v])
    &&& c.block_entry.len() == f.blocks
    &&& c.block_exit.len() == f.blocks
    &&& forall|b: int|
        0 <= b < f.blocks ==> #[trigger] c.block_entry[b] == ProgPoint::before(f.insns[b].from)
    &&& forall|b: int|
        0 <= b < f.blocks ==> #[trigger] c.block_exit[b] == ProgPoint::after(
            Inst((f.insns[b].to.0 - 1) as u32),
        )
}

pub proof fn lemma_reachable_step(f: FuncModel, p: Block, b: Block)
    requires
        reachable(f, p),
        p.0 < f.blocks,
        f.succs[p.ix()].contains(b),
    ensures
        reachable(f, b),
{
    let n = choose|n: nat| reachable_in(f, p, n);
    assert(reachable_in(f, b, n + 1)) by {
        assert(f.succs[p.ix()].contains(b));
    }
}

proof fn lemma_closed_contains_reachable(f: FuncModel, order: Seq<Block>, b: Block, n: nat)
    requires
        order.contains(f.entry),
        forall|p: Block, k: int|
            #![trigger order.contains(p), f.succs[p.ix()][k]]
            order.contains(p) && 0 <= k < f.succs[p.ix()].len() ==> order.contains(
                f.succs[p.ix()][k],
            ),
        reachable_in(f, b, n),
    ensures
        order.contains(b),
    decreases n,
{
    if b != f.entry {
        let p = choose|p: Block|
            #![trigger f.succs[p.ix()]]
            reachable_in(f, p, (n - 1) as nat) && p.0 < f.blocks && f.succs[p.ix()].contains(b);
        lemma_closed_contains_reachable(f, order, p, (n - 1) as nat);
        let k = choose|k: int| 0 <= k < f.succs[p.ix()].len() && f.succs[p.ix()][k] == b;
        assert(order.contains(f.succs[p.ix()][k]));
    }
}

/// The successors that are still to be looked at, over all blocks on the stack.
pub open spec fn stack_work(f: FuncModel, stack: Seq<(Block, usize)>) -> nat
    decreases stack.len(),
{
    if stack.len() == 0 {
        0
    } else {
        let t = stack.last();
        stack_work(f, stack.drop_last()) + 1 + if t.1 <= f.succs[t.0.ix()].len() {
            (f.succs[t.0.ix()].len() - t.1) as nat
        } else {
            0
        }
    }
}

/// The number of places that are not set.
pub open spec fn count_false(s: Seq<bool>) -> nat
    decreases s.len(),
{
    if s.len() == 0 {
        0
    } else {
        count_false(s.drop_last()) + if s.last() {
            0nat
        } else {
            1nat
        }
    }
}

pub proof fn lemma_count_false_update(s: Seq<bool>, i: int)
    requires
        0 <= i < s.len(),
        !s[i],
    ensures
        count_false(s.update(i, true)) + 1 == count_false(s),
    decreases s.len(),
{
    let t = s.update(i, true);
    if i == s.len() - 1 {
        assert(t.drop_last() =~= s.drop_last());
    } else {
        assert(t.drop_last() =~= s.drop_last().update(i, true));
        lemma_count_false_update(s.drop_last(), i);
    }
}

/// Is the block on the stack?
pub open spec fn on_stack(stack: Seq<(Block, usize)>, b: Block) -> bool {
    exists|i: int| 0 <= i < stack.len() && (#[trigger] stack[i]).0 == b
}

/// What a depth-first walk keeps: a block was visited if it is on the stack or listed, and not
/// both; the successors of listed blocks, and those already looked at of blocks on the stack,
/// were visited.
pub open spec fn walk_inv(
    f: FuncModel,
    visited: Seq<bool>,
    stack: Seq<(Block, usize)>,
    order: Seq<Block>,
) -> bool {
    &&& visited.len() == f.blocks
    &&& forall|i: int|
        0 <= i < stack.len() ==> (#[trigger] stack[i]).0.0 < f.blocks && stack[i].1
            <= f.succs[stack[i].0.ix()].len()
    &&& forall|i: int| 0 <= i < order.len() ==> (#[trigger] order[i]).0 < f.blocks
    &&& order.no_duplicates()
    &&& forall|i: int, j: int|
        #![trigger stack[i], stack[j]]
        0 <= i < j < stack.len() ==> stack[i].0 != stack[j].0
    &&& forall|b: Block|
        b.0 < f.blocks ==> (#[trigger] visited[b.ix()] <==> on_stack(stack, b) || order.contains(b))
    &&& forall|b: Block| #[trigger] order.contains(b) ==> !on_stack(stack, b)
    &&& forall|b: Block| b.0 < f.blocks && #[trigger] visited[b.ix()] ==> reachable(f, b)
    &&& visited[f.entry.ix()]
    &&& forall|b: Block, k: int|
        #![trigger order.contains(b), f.succs[b.ix()][k]]
        order.contains(b) && 0 <= k < f.succs[b.ix()].len() ==> visited[f.succs[b.ix()][k].ix()]
    &&& forall|i: int, k: int|
        #![trigger stack[i], f.succs[stack[i].0.ix()][k]]
        0 <= i < stack.len() && 0 <= k < stack[i].1 ==> visited[f.succs[stack[i].0.ix()][k].ix()]
}

/// The blocks that can be reached, in the order in which a depth-first walk that takes
/// successors in their order leaves them.
fn postorder<F: Function>(func: &F) -> (order: Vec<Block>)
    requires
        func_ok(func.model()),
    ensures
        postorder_ok(func.model(), order@),
{
    let ghost f = func.model();
    let n = func.blocks();
    let entry = func.entry_block();
    let mut visited: Vec<bool> = Vec::new();
    while visited.len() < n
        invariant
            visited@.len() <= n,
            forall|i: int| 0 <= i < visited@.len() ==> !(#[trigger] visited@[i]),
        decreases n - visited@.len(),
    {
        visited.push(false);
    }
    let mut order: Vec<Block> = Vec::new();
    let mut stack: Vec<(Block, usize)> = Vec::new();
    visited.set(entry.index(), true);
    stack.push((entry, 0));
    let ghost mut keys: Seq<int> = Seq::empty();
    let ghost mut par: Seq<Block> = Seq::empty();
    proof {
        assert(reachable_in(f, entry, 0));
        assert(stack@[0].0 == entry);
        assert(on_stack(stack@, entry));
        assert forall|b: Block| b.0 < f.blocks implies (#[trigger] visited@[b.ix()] <==> on_stack(
            stack@,
            b,
        ) || order@.contains(b)) by {
            if on_stack(stack@, b) {
                assert(b == entry);
            }
            if b.0 == entry.0 {
                assert(b == entry);
            }
        }
        assert(walk_inv(f, visited@, stack@, order@));
        keys = Seq::new(f.blocks, |i: int| 0int);
        assert(tree_inv(f, visited@, stack@, order@, keys, par));
        assert(visited@ =~= Seq::new(f.blocks, |i: int| i == f.entry.ix()));
        assert(stack@ =~= seq![(f.entry, 0usize)]);
        assert(order@ =~= Seq::empty());
    }
    while stack.len() > 0
        invariant
            func_ok(f),
            f == func.model(),
            walk_inv(f, visited@, stack@, order@),
            tree_inv(f, visited@, stack@, order@, keys, par),
            postorder_of(f) == walk(f, visited@, stack@, order@),
        decreases count_false(visited@), stack_work(f, stack@),
    {
        let top: usize = stack.len() - 1;
        let (block, next) = stack[top];
        let ghost stack0 = stack@;
        let ghost order0 = order@;
        let ghost visited0 = visited@;
        assert(block_ok(f, block.ix()));
        let succs = func.block_succs(block);
        assert(stack0 == stack0.drop_last().push((block, next)));
        assert(on_stack(stack0, block)) by {
            assert(stack0[top as int].0 == block);
        }
        if next < succs.len() {
            let succ = succs[next];
            stack.set(top, (block, next + 1));
            let ghost stack1 = stack@;
            proof {
                assert(stack1 =~= stack0.drop_last().push((block, (next + 1) as usize)));
                assert(stack1.drop_last() =~= stack0.drop_last());
                assert(stack_work(f, stack1) < stack_work(f, stack0));
                assert forall|b: Block| on_stack(stack1, b) == on_stack(stack0, b) by {
                    if on_stack(stack0, b) {
                        let i = choose|i: int| 0 <= i < stack0.len() && (#[trigger] stack0[i]).0 == b;
                        assert(stack1[i].0 == b);
                    }
                    if on_stack(stack1, b) {
                        let i = choose|i: int| 0 <= i < stack1.len() && (#[trigger] stack1[i]).0 == b;
                        assert(stack0[i].0 == b);
                    }
                }
                assert(f.succs[block.ix()][next as int] == succ);
            }
            if !visited[succ.index()] {
                visited.set(succ.index(), true);
                stack.push((succ, 0));
                proof {
                    lemma_count_false_update(visited0, succ.ix());
                    assert(f.succs[block.ix()].contains(succ));
                    assert(visited0[block.ix()]);
                    lemma_reachable_step(f, block, succ);
                    lemma_tree_push(f, visited0, stack0, order0, keys, par, stack@, succ);
                    keys = keys_pushed(keys, order0.len() as int, succ);
                    assert forall|b: Block| on_stack(stack@, b) == (on_stack(stack0, b) || b == succ) by {
                        if on_stack(stack1, b) {
                            let i = choose|i: int|
                                0 <= i < stack1.len() && (#[trigger] stack1[i]).0 == b;
                            assert(stack@[i].0 == b);
                        }
                        if b == succ {
                            assert(stack@[stack1.len() as int].0 == b);
                        }
                        if on_stack(stack@, b) {
                            let i = choose|i: int|
                                0 <= i < stack@.len() && (#[trigger] stack@[i]).0 == b;
                            if i < stack1.len() {
                                assert(stack1[i].0 == b);
                            }
                        }
                    }
                    assert(!on_stack(stack0, succ) && !order0.contains(succ));
                    assert forall|b: Block| b.0 < f.blocks implies (#[trigger] visited@[b.ix()]
                        <==> on_stack(stack@, b) || order@.contains(b)) by {
                        assert(visited0[b.ix()] <==> on_stack(stack0, b) || order0.contains(b));
                        if b.0 == succ.0 {
                            assert(b == succ);
                        }
                    }
                    assert forall|b: Block| b.0 < f.blocks && #[trigger] visited@[b.ix()] implies reachable(
                        f,
                        b,
                    ) by {
                        if b.0 == succ.0 {
                            assert(b == succ);
                        } else {
                            assert(visited0[b.ix()]);
                        }
                    }
                    assert forall|i: int, j: int|
                        #![trigger stack@[i], stack@[j]]
                        0 <= i < j < stack@.len() implies stack@[i].0 != stack@[j].0 by {
                        if j == stack1.len() {
                            assert(stack0[i].0 == stack@[i].0);
                            assert(on_stack(stack0, stack0[i].0));
                        } else {
                            assert(stack0[i].0 != stack0[j].0);
                        }
                    }
                    assert forall|b: Block, k: int|
                        #![trigger order@.contains(b), f.succs[b.ix()][k]]
                        order@.contains(b) && 0 <= k < f.succs[b.ix()].len() implies visited@[f.succs[b.ix()][k].ix()] by {
                        assert(order0.contains(b));
                        assert(block_ok(f, b.ix()));
                        assert(visited0[f.succs[b.ix()][k].ix()]);
                    }
                    assert forall|i: int, k: int|
                        #![trigger stack@[i], f.succs[stack@[i].0.ix()][k]]
                        0 <= i < stack@.len() && 0 <= k < stack@[i].1 implies visited@[f.succs[stack@[i].0.ix()][k].ix()] by {
                        assert(i < stack0.len() ==> stack0[i].0 == stack@[i].0);
                        assert(block_ok(f, stack@[i].0.ix()));
                        if i == top {
                            if k < next {
                                assert(stack0[i].0 == block);
                                assert(visited0[f.succs[stack0[i].0.ix()][k].ix()]);
                            }
                        } else if i < top {
                            assert(stack0[i] == stack@[i]);
                            assert(visited0[f.succs[stack0[i].0.ix()][k].ix()]);
                        }
                    }
                    assert forall|i: int| 0 <= i < stack@.len() implies (#[trigger] stack@[i]).0.0
                        < f.blocks && stack@[i].1 <= f.succs[stack@[i].0.ix()].len() by {
                        if i < top {
                            assert(stack0[i] == stack@[i]);
                        }
                    }
                    assert(walk_inv(f, visited@, stack@, order@));
                }
            } else {
                proof {
                    assert forall|i: int, k: int|
                        #![trigger stack@[i], f.succs[stack@[i].0.ix()][k]]
                        0 <= i < stack@.len() && 0 <= k < stack@[i].1 implies visited@[f.succs[stack@[i].0.ix()][k].ix()] by {
                        if i == top {
                            if k < next {
                                assert(stack0[i].0 == block);
                                assert(visited0[f.succs[stack0[i].0.ix()][k].ix()]);
                            }
                        } else if i < top {
                            assert(stack0[i] == stack@[i]);
                        }
                    }
                    assert forall|i: int, j: int|
                        #![trigger stack@[i], stack@[j]]
                        0 <= i < j < stack@.len() implies stack@[i].0 != stack@[j].0 by {
                        assert(stack0[i].0 != stack0[j].0);
                    }
                    assert(walk_inv(f, visited@, stack@, order@));
                    assert(tree_inv(f, visited@, stack@, order@, keys, par)) by {
                        assert forall|i: int| 0 <= i < stack@.len() implies (
                        #[trigger] stack@[i]).0 == stack0[i].0 by {}
                        assert forall|i: int| 0 < i < stack@.len() implies f.succs[stack@[i
                            - 1].0.ix()].contains((#[trigger] stack@[i]).0) by {
                            assert(f.succs[stack0[i - 1].0.ix()].contains(stack0[i].0));
                        }
                    }
                }
            }
        } else {
            proof {
                lemma_tree_pop(f, visited0, stack0, order0, keys, par);
                par = par.push(
                    if stack0.len() > 1 {
                        stack0[stack0.len() - 2].0
                    } else {
                        stack0.last().0
                    },
                );
            }
            stack.pop();
            order.push(block);
            proof {
                assert(stack@ =~= stack0.drop_last());
                assert(!order0.contains(block));
                assert forall|b: Block| on_stack(stack@, b) == (on_stack(stack0, b) && b != block) by {
                    if on_stack(stack@, b) {
                        let i = choose|i: int| 0 <= i < stack@.len() && (#[trigger] stack@[i]).0 == b;
                        assert(stack0[i].0 == b);
                        assert(stack0[i].0 != stack0[top as int].0);
                    }
                    if on_stack(stack0, b) && b != block {
                        let i = choose|i: int| 0 <= i < stack0.len() && (#[trigger] stack0[i]).0 == b;
                        assert(stack@[i].0 == b);
                    }
                }
                assert forall|b: Block| order@.contains(b) == (order0.contains(b) || b == block) by {
                    if order0.contains(b) {
                        let i = choose|i: int| 0 <= i < order0.len() && order0[i] == b;
                        assert(order@[i] == b);
                    }
                    if b == block {
                        assert(order@[order0.len() as int] == b);
                    }
                    if order@.contains(b) {
                        let i = choose|i: int| 0 <= i < order@.len() && order@[i] == b;
                        if i < order0.len() {
                            assert(order0[i] == b);
                        }
                    }
                }
                assert forall|b: Block, k: int|
                    #![trigger order@.contains(b), f.succs[b.ix()][k]]
                    order@.contains(b) && 0 <= k < f.succs[b.ix()].len() implies visited@[f.succs[b.ix()][k].ix()] by {
                    if b == block {
                        assert(stack0[top as int].0 == block);
                        assert(visited0[f.succs[stack0[top as int].0.ix()][k].ix()]);
                    } else {
                        assert(order0.contains(b));
                    }
                }
                assert forall|i: int, k: int|
                    #![trigger stack@[i], f.succs[stack@[i].0.ix()][k]]
                    0 <= i < stack@.len() && 0 <= k < stack@[i].1 implies visited@[f.succs[stack@[i].0.ix()][k].ix()] by {
                    assert(stack0[i] == stack@[i]);
                }
                assert forall|i: int, j: int|
                    #![trigger stack@[i], stack@[j]]
                    0 <= i < j < stack@.len() implies stack@[i].0 != stack@[j].0 by {
                    assert(stack0[i].0 != stack0[j].0);
                }
                assert forall|i: int| 0 <= i < stack@.len() implies (#[trigger] stack@[i]).0.0
                    < f.blocks && stack@[i].1 <= f.succs[stack@[i].0.ix()].len() by {
                    assert(stack0[i] == stack@[i]);
                }
                assert forall|b: Block| b.0 < f.blocks implies (#[trigger] visited@[b.ix()]
                    <==> on_stack(stack@, b) || order@.contains(b)) by {
                    assert(visited0[b.ix()] <==> on_stack(stack0, b) || order0.contains(b));
                }
                assert forall|b: Block| #[trigger] order@.contains(b) implies !on_stack(stack@, b) by {
                    if b != block {
                        assert(order0.contains(b));
                    }
                }
                assert(order@.no_duplicates()) by {
                    assert forall|i: int, j: int|
                        0 <= i < order@.len() && 0 <= j < order@.len() && i != j implies order@[i]
                        != order@[j] by {
                        if i == order0.len() {
                            assert(order0.contains(order0[j]));
                        } else if j == order0.len() {
                            assert(order0.contains(order0[i]));
                        } else {
                            assert(order0[i] != order0[j]);
                        }
                    }
                }
                assert(walk_inv(f, visited@, stack@, order@));
            }
        }
    }
    proof {
        assert(stack@ =~= Seq::empty());
        lemma_tree_done(f, visited@, order@, keys, par);
        assert forall|b: Block| b.0 < f.blocks implies (#[trigger] order@.contains(b) <==> reachable(
            f,
            b,
        )) by {
            assert(!on_stack(stack@, b));
            assert(visited@[b.ix()] <==> order@.contains(b));
            if reachable(f, b) {
                assert(!on_stack(stack@, f.entry));
                assert(visited@[f.entry.ix()]);
                assert(order@.contains(f.entry));
                assert forall|p: Block, k: int|
                    #![trigger order@.contains(p), f.succs[p.ix()][k]]
                    order@.contains(p) && 0 <= k < f.succs[p.ix()].len() implies order@.contains(
                    f.succs[p.ix()][k],
                ) by {
                    let s = f.succs[p.ix()][k];
                    assert(block_ok(f, p.ix()));
                    assert(visited@[s.ix()]);
                    assert(!on_stack(stack@, s));
                }
                let n = choose|n: nat| reachable_in(f, b, n);
                lemma_closed_contains_reachable(f, order@, b, n);
            }
        }
    }
    order
}

impl CFGInfo {
    /// Derive the facts of a function.
    pub fn new<F: Function>(func: &F) -> (r: CFGInfo)
        requires
            func_ok(func.model()),
        ensures
            cfg_ok(func.model(), r@),
    {
        let ghost f = func.model();
        let n = func.blocks();
        let insts = func.insts();
        let num_vregs = func.num_vregs();
        let postorder = postorder(func);
        let mut insn_block: Vec<Block> = Vec::new();
        while insn_block.len() < insts
            invariant
                insn_block@.len() <= insts,
                forall|i: int|
                    0 <= i < insn_block@.len() ==> #[trigger] insn_block@[i] == Block::invalid(),
            decreases insts - insn_block@.len(),
        {
            insn_block.push(Block::invalid());
        }
        let mut vreg_def_blockparam: Vec<(Block, u32)> = Vec::new();
        while vreg_def_blockparam.len() < num_vregs
            invariant
                vreg_def_blockparam@.len() <= num_vregs,
                forall|i: int|
                    0 <= i < vreg_def_blockparam@.len() ==> #[trigger] vreg_def_blockparam@[i] == (
                        Block::invalid(),
                        0u32,
                    ),
            decreases num_vregs - vreg_def_blockparam@.len(),
        {
            vreg_def_blockparam.push((Block::invalid(), 0));
        }
        let mut block_entry: Vec<ProgPoint> = Vec::new();
        let mut block_exit: Vec<ProgPoint> = Vec::new();
        let mut b: usize = 0;
        while b < n
            invariant
                func_ok(f),
                f == func.model(),
                n == f.blocks,
                b <= n,
                insn_block@.len() == f.insts,
                vreg_def_blockparam@.len() == f.num_vregs,
                block_entry@.len() == b,
                block_exit@.len() == b,
                forall|i: int|
                    0 <= i < b ==> #[trigger] block_entry@[i] == ProgPoint::before(f.insns[i].from),
                forall|i: int|
                    0 <= i < b ==> #[trigger] block_exit@[i] == ProgPoint::after(
                        Inst((f.insns[i].to.0 - 1) as u32),
                    ),
                forall|i: int|
                    #![trigger insn_block@[i]]
                    0 <= i < f.insts ==> {
                        if insn_block@[i].is_valid() {
                            insn_block@[i].0 < f.blocks && f.insns[insn_block@[i].ix()].has(i)
                        } else {
                            forall|c: int| 0 <= c < b ==> !(#[trigger] f.insns[c]).has(i)
                        }
                    },
                forall|v: int|
                    #![trigger vreg_def_blockparam@[v]]
                    0 <= v < f.num_vregs ==> blockparam_upto(
                        f,
                        v,
                        vreg_def_blockparam@[v],
                        b as int,
                        0,
                    ),
            decreases n - b,
        {
            let block = Block::new(b);
            assert(block_ok(f, b as int));
            let params = func.block_params(block);
            let mut i: usize = 0;
            while i < params.len()
                invariant
                    func_ok(f),
                    b < f.blocks,
                    block.0 == b,
                    params@ == f.params[b as int],
                    block_ok(f, b as int),
                    i <= params@.len(),
                    vreg_def_blockparam@.len() == f.num_vregs,
                    forall|v: int|
                        #![trigger vreg_def_blockparam@[v]]
                        0 <= v < f.num_vregs ==> blockparam_upto(
                            f,
                            v,
                            vreg_def_blockparam@[v],
                            b as int,
                            i as int,
                        ),
                decreases params@.len() - i,
            {
                let v = params[i].vreg();
                let ghost before = vreg_def_blockparam@;
                assert(f.params[b as int][i as int].vreg == v);
                vreg_def_blockparam.set(v, (block, i as u32));
                proof {
                    assert forall|w: int|
                        #![trigger vreg_def_blockparam@[w]]
                        0 <= w < f.num_vregs implies blockparam_upto(
                        f,
                        w,
                        vreg_def_blockparam@[w],
                        b as int,
                        i + 1,
                    ) by {
                        assert(blockparam_upto(f, w, before[w], b as int, i as int));
                    }
                }
                i += 1;
            }
            let insns = func.block_insns(block);
            let mut k: usize = insns.from.index();
            let ghost before = insn_block@;
            while k < insns.to.index()
                invariant
                    insns == f.insns[b as int],
                    b < f.blocks,
                    block.0 == b,
                    f.blocks <= 0x1fff_ffff,
                    insns.from.0 <= k <= insns.to.0,
                    insns.to.0 <= f.insts,
                    f.insts <= 0x7fff_fff0,
                    insn_block@.len() == f.insts,
                    before.len() == f.insts,
                    forall|i: int|
                        #![trigger insn_block@[i]]
                        0 <= i < f.insts ==> insn_block@[i] == (if insns.from.0 <= i < k {
                            block
                        } else {
                            before[i]
                        }),
                decreases insns.to.0 - k,
            {
                insn_block.set(k, block);
                k += 1;
            }
            block_entry.push(ProgPoint::before(insns.first()));
            block_exit.push(ProgPoint::after(insns.last()));
            proof {
                assert forall|i: int| #![trigger insn_block@[i]] 0 <= i < f.insts implies {
                    if insn_block@[i].is_valid() {
                        insn_block@[i].0 < f.blocks && f.insns[insn_block@[i].ix()].has(i)
                    } else {
                        forall|c: int| 0 <= c < b + 1 ==> !(#[trigger] f.insns[c]).has(i)
                    }
                } by {
                    assert(before[i] == before[i]);
                }
                assert forall|v: int|
                    #![trigger vreg_def_blockparam@[v]]
                    0 <= v < f.num_vregs implies blockparam_upto(
                    f,
                    v,
                    vreg_def_blockparam@[v],
                    b + 1,
                    0,
                ) by {
                    assert(blockparam_upto(f, v, vreg_def_blockparam@[v], b as int, i as int));
                    assert(i == f.params[b as int].len());
                }
            }
            b += 1;
        }
        let r = CFGInfo { postorder, insn_block, vreg_def_blockparam, block_entry, block_exit };
        proof {
            assert forall|i: int| 0 <= i < f.insts implies (#[trigger] r@.insn_block[i]).0 < f.blocks
                && f.insns[r@.insn_block[i].ix()].has(i) by {
                assert(inst_ok(f, i));
            }
            assert forall|v: int| 0 <= v < f.num_vregs implies blockparam_ok(
                f,
                v,
                #[trigger] r@.vreg_def_blockparam[v],
            ) by {
                assert(blockparam_upto(f, v, vreg_def_blockparam@[v], n as int, 0));
            }
        }
        r
    }
}

/// The facts of a function.
pub open spec fn cfg_of(f: FuncModel) -> CfgModel {
    choose|c: CfgModel| cfg_ok(f, c)
}

/// A function has one set of facts.
pub proof fn law_cfg_unique(f: FuncModel, c: CfgModel)
    requires
        func_ok(f),
        cfg_ok(f, c),
    ensures
        c == cfg_of(f),
{
    let d = cfg_of(f);
    assert(cfg_ok(f, d));
    assert forall|i: int| 0 <= i < f.insts implies #[trigger] c.insn_block[i] == d.insn_block[i] by {
        let a = c.insn_block[i].ix();
        let b = d.insn_block[i].ix();
        let _ = (f.insns[a], f.insns[b]);
        if a < b {
            assert(f.insns[a].to.0 <= f.insns[b].from.0);
        } else if b < a {
            assert(f.insns[b].to.0 <= f.insns[a].from.0);
        }
    }
    assert(c.insn_block =~= d.insn_block);
    assert forall|v: int| 0 <= v < f.num_vregs implies #[trigger] c.vreg_def_blockparam[v]
        == d.vreg_def_blockparam[v] by {
        let p = c.vreg_def_blockparam[v];
        let q = d.vreg_def_blockparam[v];
        assert(blockparam_ok(f, v, p));
        assert(blockparam_ok(f, v, q));
        if p.0.is_valid() {
            assert(f.params[p.0.ix()][p.1 as int].vreg == v);
        }
        if q.0.is_valid() {
            assert(f.params[q.0.ix()][q.1 as int].vreg == v);
        }
    }
    assert(c.vreg_def_blockparam =~= d.vreg_def_blockparam);
    assert(c.block_entry =~= d.block_entry);
    assert(c.block_exit =~= d.block_exit);
}

} // verus!
