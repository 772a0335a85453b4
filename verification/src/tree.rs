//! The tree of a depth-first walk over the blocks.
use crate::cfg::{on_stack, walk_inv};
use crate::func::{block_ok, func_ok, FuncModel};
use crate::index::Block;
use vstd::prelude::*;

verus! {

/// How far a depth-first walk has come with its tree: `keys` numbers the blocks that were entered,
/// those that were left by their positions and those on the stack in the order in which they will
/// be left, and `par` holds the block from which each block that was left was entered. What was
/// left between a block and its parent, or between a block and a successor that is left later, was
/// entered below the latter.
pub open spec fn tree_inv(
    f: FuncModel,
    visited: Seq<bool>,
    stack: Seq<(Block, usize)>,
    order: Seq<Block>,
    keys: Seq<int>,
    par: Seq<Block>,
) -> bool {
    let left = order.len() as int;
    let n = stack.len() as int;
    &&& keys.len() == f.blocks
    &&& par.len() == left
    &&& forall|j: int| 0 <= j < left ==> keys[(#[trigger] order[j]).ix()] == j
    &&& forall|i: int| 0 <= i < n ==> keys[(#[trigger] stack[i]).0.ix()] == left + n - 1 - i
    &&& n > 0 ==> stack[0].0 == f.entry
    &&& n == 0 ==> left > 0 && order.last() == f.entry
    &&& forall|i: int|
        0 < i < n ==> f.succs[stack[i - 1].0.ix()].contains((#[trigger] stack[i]).0)
    &&& forall|j: int|
        0 <= j < left ==> {
            let p = #[trigger] par[j];
            &&& p.0 < f.blocks
            &&& visited[p.ix()]
            &&& j <= keys[p.ix()] < left + n || order[j] == f.entry && keys[p.ix()] == j
            &&& order[j] != f.entry ==> j < keys[p.ix()] && f.succs[p.ix()].contains(order[j])
        }
    &&& forall|j: int, m: int|
        #![trigger par[j], par[m]]
        0 <= j <= m < left && m < keys[par[j].ix()] ==> keys[par[m].ix()] <= keys[par[j].ix()]
    &&& forall|y: int, x: Block, m: int|
        #![trigger f.succs[order[y].ix()].contains(x), par[m]]
        0 <= y <= m < left && f.succs[order[y].ix()].contains(x) && m < keys[x.ix()]
            ==> keys[par[m].ix()] <= keys[x.ix()]
}

/// The numbers after another block is entered.
pub open spec fn keys_pushed(keys: Seq<int>, left: int, b: Block) -> Seq<int> {
    Seq::new(
        keys.len(),
        |i: int|
            if keys[i] >= left {
                keys[i] + 1
            } else {
                keys[i]
            },
    ).update(b.ix(), left)
}

/// Another block is entered.
pub proof fn lemma_tree_push(
    f: FuncModel,
    visited: Seq<bool>,
    stack: Seq<(Block, usize)>,
    order: Seq<Block>,
    keys: Seq<int>,
    par: Seq<Block>,
    new_stack: Seq<(Block, usize)>,
    b: Block,
)
    requires
        func_ok(f),
        walk_inv(f, visited, stack, order),
        tree_inv(f, visited, stack, order, keys, par),
        stack.len() > 0,
        b.0 < f.blocks,
        !visited[b.ix()],
        f.succs[stack.last().0.ix()].contains(b),
        new_stack.len() == stack.len() + 1,
        new_stack.last().0 == b,
        forall|i: int| 0 <= i < stack.len() ==> (#[trigger] new_stack[i]).0 == stack[i].0,
    ensures
        tree_inv(
            f,
            visited.update(b.ix(), true),
            new_stack,
            order,
            keys_pushed(keys, order.len() as int, b),
            par,
        ),
{
    let left = order.len() as int;
    let n = stack.len() as int;
    let more = keys_pushed(keys, left, b);
    let now = visited.update(b.ix(), true);
    // Blocks that were entered before are not the new one.
    assert forall|c: Block| c.0 < f.blocks && visited[c.ix()] implies #[trigger] more[c.ix()] == (
    if keys[c.ix()] >= left {
        keys[c.ix()] + 1
    } else {
        keys[c.ix()]
    }) by {}
    assert forall|j: int| 0 <= j < left implies more[(#[trigger] order[j]).ix()] == j by {
        assert(order.contains(order[j]));
        assert(visited[order[j].ix()]);
        assert(keys[order[j].ix()] == j);
    }
    assert forall|i: int| 0 <= i < n + 1 implies more[(#[trigger] new_stack[i]).0.ix()] == left + n
        - i by {
        if i < n {
            assert(new_stack[i].0 == stack[i].0);
            assert(on_stack(stack, stack[i].0));
            assert(visited[stack[i].0.ix()]);
            assert(keys[stack[i].0.ix()] == left + n - 1 - i);
        }
    }
    assert(new_stack[0].0 == stack[0].0);
    assert forall|i: int| 0 < i < n + 1 implies f.succs[new_stack[i - 1].0.ix()].contains(
        (#[trigger] new_stack[i]).0,
    ) by {
        assert(new_stack[i - 1].0 == stack[i - 1].0);
        if i < n {
            assert(new_stack[i].0 == stack[i].0);
        }
    }
    assert forall|j: int| 0 <= j < left implies {
        let p = #[trigger] par[j];
        &&& p.0 < f.blocks
        &&& now[p.ix()]
        &&& j <= more[p.ix()] < left + n + 1 || order[j] == f.entry && more[p.ix()] == j
        &&& order[j] != f.entry ==> j < more[p.ix()] && f.succs[p.ix()].contains(order[j])
    } by {
        assert(visited[par[j].ix()]);
    }
    assert forall|j: int, m: int|
        #![trigger par[j], par[m]]
        0 <= j <= m < left && m < more[par[j].ix()] implies more[par[m].ix()]
        <= more[par[j].ix()] by {
        assert(visited[par[j].ix()] && visited[par[m].ix()]);
        assert(m < keys[par[j].ix()]);
    }
    assert forall|y: int, x: Block, m: int|
        #![trigger f.succs[order[y].ix()].contains(x), par[m]]
        0 <= y <= m < left && f.succs[order[y].ix()].contains(x) && m
            < more[x.ix()] implies more[par[m].ix()] <= more[x.ix()] by {
        assert(order.contains(order[y]));
        assert(block_ok(f, order[y].ix()));
        let k = choose|k: int|
            0 <= k < f.succs[order[y].ix()].len() && f.succs[order[y].ix()][k] == x;
        assert(f.succs[order[y].ix()][k].0 < f.blocks);
        assert(visited[f.succs[order[y].ix()][k].ix()]);
        assert(visited[par[m].ix()]);
    }
}

/// The block on top of the stack is left.
pub proof fn lemma_tree_pop(
    f: FuncModel,
    visited: Seq<bool>,
    stack: Seq<(Block, usize)>,
    order: Seq<Block>,
    keys: Seq<int>,
    par: Seq<Block>,
)
    requires
        func_ok(f),
        walk_inv(f, visited, stack, order),
        tree_inv(f, visited, stack, order, keys, par),
        stack.len() > 0,
    ensures
        tree_inv(
            f,
            visited,
            stack.drop_last(),
            order.push(stack.last().0),
            keys,
            par.push(
                if stack.len() > 1 {
                    stack[stack.len() - 2].0
                } else {
                    stack.last().0
                },
            ),
        ),
{
    let left = order.len() as int;
    let n = stack.len() as int;
    let b = stack.last().0;
    let p = if n > 1 {
        stack[n - 2].0
    } else {
        b
    };
    let more = par.push(p);
    let done = order.push(b);
    let rest = stack.drop_last();
    assert(stack[n - 1].0 == b);
    assert(keys[stack[n - 1].0.ix()] == left);
    assert(on_stack(stack, stack[n - 1].0));
    assert(visited[b.ix()]);
    if n > 1 {
        assert(keys[stack[n - 2].0.ix()] == left + 1);
        assert(on_stack(stack, stack[n - 2].0));
        assert(visited[p.ix()]);
        assert(f.succs[stack[n - 1 - 1].0.ix()].contains(stack[n - 1].0));
        if b == f.entry {
            assert(stack[0].0 != stack[n - 1].0);
        }
    }
    assert forall|i: int| 0 <= i < rest.len() implies keys[(#[trigger] rest[i]).0.ix()] == left + 1
        + rest.len() - 1 - i by {
        assert(rest[i] == stack[i]);
    }
    assert forall|i: int| 0 < i < rest.len() implies f.succs[rest[i - 1].0.ix()].contains(
        (#[trigger] rest[i]).0,
    ) by {
        assert(rest[i] == stack[i]);
        assert(rest[i - 1] == stack[i - 1]);
    }
    assert forall|j: int| 0 <= j < left + 1 implies keys[(#[trigger] done[j]).ix()] == j by {
        if j < left {
            assert(done[j] == order[j]);
        }
    }
    assert forall|j: int| 0 <= j < left + 1 implies {
        let q = #[trigger] more[j];
        &&& q.0 < f.blocks
        &&& visited[q.ix()]
        &&& j <= keys[q.ix()] < left + 1 + rest.len() || done[j] == f.entry && keys[q.ix()] == j
        &&& done[j] != f.entry ==> j < keys[q.ix()] && f.succs[q.ix()].contains(done[j])
    } by {
        if j < left {
            assert(more[j] == par[j]);
            assert(done[j] == order[j]);
        }
    }
    assert forall|j: int, m: int|
        #![trigger more[j], more[m]]
        0 <= j <= m < left + 1 && m < keys[more[j].ix()] implies keys[more[m].ix()]
        <= keys[more[j].ix()] by {
        if m < left {
            assert(more[m] == par[m] && more[j] == par[j]);
        }
    }
    assert forall|y: int, x: Block, m: int|
        #![trigger f.succs[done[y].ix()].contains(x), more[m]]
        0 <= y <= m < left + 1 && f.succs[done[y].ix()].contains(x) && m
            < keys[x.ix()] implies keys[more[m].ix()] <= keys[x.ix()] by {
        if m < left {
            assert(more[m] == par[m] && done[y] == order[y]);
            assert(f.succs[order[y].ix()].contains(x));
        }
    }
}

/// The tree of the walk that left the blocks in this order: `up` holds the position of the parent
/// of each block. What was left between a block and its parent, or between a block and a successor
/// that was left later, is below the latter.
pub open spec fn tree_ok(f: FuncModel, order: Seq<Block>, up: Seq<int>) -> bool {
    let n = order.len() as int;
    &&& n > 0
    &&& order.last() == f.entry
    &&& up.len() == n
    &&& forall|j: int|
        0 <= j < n - 1 ==> j < (#[trigger] up[j]) < n && f.succs[order[up[j]].ix()].contains(
            order[j],
        )
    &&& forall|j: int, m: int|
        #![trigger up[j], up[m]]
        0 <= j <= m < n - 1 && m < up[j] ==> up[m] <= up[j]
    &&& forall|y: int, z: int, m: int|
        #![trigger f.succs[order[y].ix()].contains(order[z]), up[m]]
        0 <= y <= m < z < n && f.succs[order[y].ix()].contains(order[z]) ==> up[m] <= z
}

/// The walk is over.
pub proof fn lemma_tree_done(
    f: FuncModel,
    visited: Seq<bool>,
    order: Seq<Block>,
    keys: Seq<int>,
    par: Seq<Block>,
)
    requires
        func_ok(f),
        walk_inv(f, visited, Seq::empty(), order),
        tree_inv(f, visited, Seq::empty(), order, keys, par),
    ensures
        exists|up: Seq<int>| tree_ok(f, order, up),
{
    let n = order.len() as int;
    let up = Seq::new(order.len(), |j: int| keys[par[j].ix()]);
    assert forall|b: Block| b.0 < f.blocks && #[trigger] visited[b.ix()] implies 0 <= keys[b.ix()] < n
        && order[keys[b.ix()]] == b by {
        assert(!on_stack(Seq::<(Block, usize)>::empty(), b));
        assert(order.contains(b));
        let j = choose|j: int| 0 <= j < n && order[j] == b;
        assert(keys[order[j].ix()] == j);
    }
    assert forall|j: int| 0 <= j < n - 1 implies j < (#[trigger] up[j]) < n
        && f.succs[order[up[j]].ix()].contains(order[j]) by {
        let p = par[j];
        assert(visited[p.ix()]);
        assert(order[j] != order[n - 1]);
    }
    assert forall|j: int, m: int|
        #![trigger up[j], up[m]]
        0 <= j <= m < n - 1 && m < up[j] implies up[m] <= up[j] by {
        let _ = (par[j], par[m]);
    }
    assert forall|y: int, z: int, m: int|
        #![trigger f.succs[order[y].ix()].contains(order[z]), up[m]]
        0 <= y <= m < z < n && f.succs[order[y].ix()].contains(order[z]) implies up[m] <= z by {
        let _ = par[m];
        assert(keys[order[z].ix()] == z);
    }
    assert(tree_ok(f, order, up));
}

} // verus!
