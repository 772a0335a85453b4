//! Where the parameters of blocks are said to live.
use crate::apply::{
    apply_abutting, apply_all, apply_dests, apply_fixups, apply_in_ok, apply_list, apply_pairs,
    apply_param, apply_range, apply_set_alloc, apply_sources, apply_uses, apply_vregs,
    defining_block, first_start, lemma_fixups_keep, lemma_pairs_keep, lemma_reuse_keep, range_alloc,
    ApplyIn, ApplyState, BlockparamAlloc,
};
use crate::carried::{
    found, found_edits, found_moves, lemma_in_order_at, lemma_orders, lemma_points_fit,
};
use crate::carry::lemma_kinds;
use crate::cfg::{blockparam_ok, reachable};
use crate::copied::range_of;
use crate::data::{InsertMovePrio, InsertedMove, VRegData};
use crate::dom::ssa_form;
use crate::func::{block_ok, FuncModel};
use crate::groups::{edits_at, lemma_edits_moves, points_fit, run_edits};
use crate::index::Block;
use crate::liveness::{ctx_ok, takes_param, Ctx, Fixup};
use crate::moves::{in_sequence, MovePair};
use crate::names::{law_entry_names, named_alike};
use crate::needed::{early, lemma_block_ends, lemma_covered_sits, lemma_fits, sits, succeeds};
use crate::operands::{lemma_dests_keep, lemma_sources_keep};
use crate::order::{in_order, vregs_in_order};
use crate::parts::covers;
use crate::reg::{Allocation, EditModel, ProgPoint};
use crate::resolve::{
    edits_add, edits_add_moves, edits_moves, edits_params, group_end, group_pairs, params_edit,
    params_end, place_key, PlacedModel,
};
use crate::run::{allocated, applied, apply_start, edit_points, located};
use crate::sort::{
    has_key, law_sort_is_stable, law_stable_sort, lemma_filter_none, lemma_lower_position,
    lemma_sorted_has, lemma_sorted_member, lower_position, stable_sort, HasKey,
};
use crate::spans::edges_live;
use vstd::prelude::*;

verus! {

/// Is live range `y` of register `v` there at the entry of the block that takes the register as a
/// parameter?
pub open spec fn at_entry(x: ApplyIn, v: int, y: int) -> bool {
    let b = x.c.cfg.vreg_def_blockparam[v].0;
    b.is_valid() && x.g.ranges[x.g.in_vreg[v][y] as int].range.has(x.c.cfg.block_entry[b.ix()])
}

/// Is the entry that of live range `y` of its register?
pub open spec fn is_entry(x: ApplyIn, p: BlockparamAlloc, y: int) -> bool {
    let v = p.2.ix();
    &&& v < x.c.f.num_vregs
    &&& 0 <= y < x.g.in_vreg[v].len()
    &&& at_entry(x, v, y)
    &&& x.c.cfg.vreg_def_blockparam[v] == (p.0, p.1)
    &&& range_alloc(x, x.g.in_vreg[v][y]) == Some(p.3)
}

/// Is the entry that of a live range before position `i` of register `v`?
pub open spec fn stems(x: ApplyIn, p: BlockparamAlloc, v: int, i: int) -> bool {
    exists|y: int| #[trigger] is_entry(x, p, y) && (p.2.ix() < v || p.2.ix() == v && y < i)
}

/// The entries are those of the live ranges before position `i` of register `v`, one for each
/// register.
#[verifier::opaque]
pub open spec fn listed(x: ApplyIn, params: Seq<BlockparamAlloc>, v: int, i: int) -> bool {
    &&& forall|n: int| 0 <= n < params.len() ==> stems(x, #[trigger] params[n], v, i)
    &&& forall|n: int, m: int|
        #![trigger params[n], params[m]]
        0 <= n < m < params.len() ==> params[n].2 != params[m].2
    &&& forall|w: int, y: int|
        0 <= w < x.c.f.num_vregs && 0 <= y < x.g.in_vreg[w].len() && #[trigger] at_entry(x, w, y)
            && (w < v || w == v && y < i) ==> exists|n: int|
            0 <= n < params.len() && (#[trigger] params[n]).2.ix() == w
}

proof fn lemma_uses_params(x: ApplyIn, s: ApplyState, list: Seq<u32>, j: int, alloc: Allocation)
    ensures
        apply_uses(x, s, list, j, alloc).params == s.params,
    decreases list.len() - j,
{
    if 0 <= j < list.len() {
        let u = x.g.uses[list[j] as int];
        lemma_uses_params(
            x,
            apply_set_alloc(x.c.f, s, u.pos.inst, u.slot as int, alloc),
            list,
            j + 1,
            alloc,
        );
    }
}

proof fn lemma_range_params(
    x: ApplyIn,
    s: ApplyState,
    v: u32,
    defining: Block,
    prev: Option<(u32, Allocation)>,
    r: u32,
    alloc: Allocation,
)
    ensures
        apply_range(x, s, v, defining, prev, r, alloc) matches Ok(t) ==> t.params == apply_param(
            x,
            s,
            v,
            x.g.ranges[r as int].range,
            alloc,
        ).params,
{
    let range = x.g.ranges[r as int].range;
    let first = x.c.cfg.insn_block[range.from.inst.ix()].ix();
    if let Ok(s1) = apply_abutting(x, s, prev, r, alloc) {
        assert(s1.params == s.params);
        lemma_sources_keep(x, s1, v, range, alloc, first);
        if let Ok(s2) = apply_sources(x, s1, v, range, alloc, first) {
            lemma_dests_keep(x, s2, v, range, alloc, defining, first_start(x.c, range));
            if let Ok(s3) = apply_dests(x, s2, v, range, alloc, defining, first_start(x.c, range)) {
                let s4 = apply_param(x, s3, v, range, alloc);
                let d = x.g.ranges[r as int].def;
                let def = x.g.defs[d.ix()];
                let t = if d.is_valid() {
                    let u = apply_set_alloc(
                        x.c.f,
                        s4,
                        def.pos.inst,
                        def.slot as int,
                        alloc,
                    );
                    if def.operand.policy is Reuse {
                        ApplyState { reuse: u.reuse.push(def.pos.inst), ..u }
                    } else {
                        u
                    }
                } else {
                    s4
                };
                lemma_uses_params(x, t, x.g.in_range[r as int], 0, alloc);
            }
        }
    }
}

proof fn lemma_listed_more(x: ApplyIn, s: ApplyState, v: u32, i: int, alloc: Allocation)
    requires
        vregs_in_order(x.g),
        v < x.c.f.num_vregs,
        v < x.g.in_vreg.len(),
        0 <= i < x.g.in_vreg[v as int].len(),
        range_alloc(x, x.g.in_vreg[v as int][i]) == Some(alloc),
        listed(x, s.params, v as int, i),
    ensures
        listed(
            x,
            apply_param(
                x,
                s,
                v,
                x.g.ranges[x.g.in_vreg[v as int][i] as int].range,
                alloc,
            ).params,
            v as int,
            i + 1,
        ),
{
    reveal(listed);
    let list = x.g.in_vreg[v as int];
    let range = x.g.ranges[list[i] as int].range;
    let t = apply_param(x, s, v, range, alloc).params;
    assert(in_order(x.g.ranges, x.g.in_vreg[v as int]));
    assert forall|n: int| 0 <= n < t.len() implies stems(x, #[trigger] t[n], v as int, i + 1) by {
        if n < s.params.len() {
            assert(t[n] == s.params[n]);
            assert(stems(x, s.params[n], v as int, i));
        } else {
            assert(is_entry(x, t[n], i));
        }
    }
    assert forall|n: int, m: int|
        #![trigger t[n], t[m]]
        0 <= n < m < t.len() implies t[n].2 != t[m].2 by {
        assert(t[n] == s.params[n]);
        if m < s.params.len() {
            assert(t[m] == s.params[m]);
        } else if s.params[n].2.ix() == v {
            assert(stems(x, s.params[n], v as int, i));
            let y = choose|y: int| #[trigger]
                is_entry(x, s.params[n], y) && (s.params[n].2.ix() < v || s.params[n].2.ix() == v
                    && y < i);
            let _ = (list[y], list[i]);
            assert(false);
        }
    }
    assert forall|w: int, y: int|
        0 <= w < x.c.f.num_vregs && 0 <= y < x.g.in_vreg[w].len() && #[trigger] at_entry(x, w, y)
            && (w < v || w == v && y < i + 1) implies exists|n: int|
        0 <= n < t.len() && (#[trigger] t[n]).2.ix() == w by {
        if w == v && y == i {
            assert(t[s.params.len() as int].2.ix() == w);
        } else {
            let n = choose|n: int| 0 <= n < s.params.len() && (#[trigger] s.params[n]).2.ix() == w;
            assert(t[n] == s.params[n]);
        }
    }
}

proof fn lemma_list_params(
    x: ApplyIn,
    s: ApplyState,
    v: u32,
    defining: Block,
    prev: Option<(u32, Allocation)>,
    i: int,
)
    requires
        vregs_in_order(x.g),
        v < x.c.f.num_vregs,
        v < x.g.in_vreg.len(),
        0 <= i <= x.g.in_vreg[v as int].len(),
        listed(x, s.params, v as int, i),
    ensures
        apply_list(x, s, v, defining, prev, i) matches Ok(t) ==> listed(
            x,
            t.params,
            v as int,
            x.g.in_vreg[v as int].len() as int,
        ),
    decreases x.g.in_vreg[v as int].len() - i,
{
    let list = x.g.in_vreg[v as int];
    if i < list.len() {
        if let Some(alloc) = range_alloc(x, list[i]) {
            lemma_range_params(x, s, v, defining, prev, list[i], alloc);
            lemma_listed_more(x, s, v, i, alloc);
            if let Ok(t) = apply_range(x, s, v, defining, prev, list[i], alloc) {
                lemma_list_params(x, t, v, defining, Some((list[i], alloc)), i + 1);
            }
        }
    }
}

proof fn lemma_vregs_params(x: ApplyIn, s: ApplyState, v: int)
    requires
        vregs_in_order(x.g),
        x.c.f.num_vregs <= x.g.in_vreg.len(),
        x.c.f.num_vregs <= u32::MAX,
        0 <= v <= x.c.f.num_vregs,
        listed(x, s.params, v, 0),
    ensures
        apply_vregs(x, s, v) matches Ok(t) ==> listed(x, t.params, x.c.f.num_vregs as int, 0),
    decreases x.c.f.num_vregs - v,
{
    if v < x.c.f.num_vregs {
        lemma_list_params(x, s, v as u32, defining_block(x, v), None, 0);
        if let Ok(t) = apply_list(x, s, v as u32, defining_block(x, v), None, 0) {
            assert(listed(x, t.params, v + 1, 0)) by {
                reveal(listed);
                assert forall|n: int| 0 <= n < t.params.len() implies stems(
                    x,
                    #[trigger] t.params[n],
                    v + 1,
                    0,
                ) by {
                    assert(stems(x, t.params[n], v, x.g.in_vreg[v].len() as int));
                }
            }
            lemma_vregs_params(x, t, v + 1);
        }
    }
}

/// One entry for each parameter that has a live range at the entry of its block.
proof fn lemma_all_params(x: ApplyIn, s: ApplyState, fixups: Seq<Fixup>)
    requires
        vregs_in_order(x.g),
        x.c.f.num_vregs <= x.g.in_vreg.len(),
        x.c.f.num_vregs <= u32::MAX,
        s.params.len() == 0,
    ensures
        apply_all(x, s, fixups) matches Ok(t) ==> listed(
            x,
            t.params,
            x.c.f.num_vregs as int,
            0,
        ),
{
    assert(listed(x, s.params, 0, 0)) by {
        reveal(listed);
    }
    lemma_vregs_params(x, s, 0);
    if let Ok(s1) = apply_vregs(x, s, 0) {
        lemma_pairs_keep(x.c.f, s1, stable_sort(s1.halves), 0);
        if let Ok(s2) = apply_pairs(x.c.f, s1, stable_sort(s1.halves), 0) {
            lemma_fixups_keep(x.c, s2, fixups, 0);
            let s3 = apply_fixups(x.c, s2, fixups, 0);
            lemma_reuse_keep(x.c.f, s3, s1.reuse, 0);
        }
    }
}

/// The keys grow from one item to the next.
pub open spec fn keys_grow(params: Seq<BlockparamAlloc>) -> bool {
    forall|i: int, j: int|
        #![trigger params[i], params[j]]
        0 <= i < j < params.len() ==> params[i].key() < params[j].key()
}

proof fn lemma_key(p: BlockparamAlloc, q: BlockparamAlloc)
    ensures
        p.key() == q.key() ==> p.0 == q.0 && p.1 == q.1,
        p.key() < q.key() ==> p.0.0 < q.0.0 || p.0 == q.0 && p.1 < q.1,
{
}

/// Sorted by block and position, each of the entries is for another parameter.
proof fn lemma_sorted_params(x: ApplyIn, params: Seq<BlockparamAlloc>)
    requires
        apply_in_ok(x),
        listed(x, params, x.c.f.num_vregs as int, 0),
    ensures
        keys_grow(stable_sort(params)),
{
    reveal(listed);
    let sorted = stable_sort(params);
    law_stable_sort(params);
    assert(params.no_duplicates());
    params.lemma_multiset_has_no_duplicates();
    sorted.lemma_multiset_has_no_duplicates_conv();
    assert forall|i: int, j: int|
        #![trigger sorted[i], sorted[j]]
        0 <= i < j < sorted.len() implies sorted[i].key() < sorted[j].key() by {
        if sorted[i].key() == sorted[j].key() {
            lemma_key(sorted[i], sorted[j]);
            lemma_sorted_member(params, i);
            lemma_sorted_member(params, j);
            let n = choose|n: int| 0 <= n < params.len() && params[n] == sorted[i];
            let m = choose|m: int| 0 <= m < params.len() && params[m] == sorted[j];
            assert(stems(x, params[n], x.c.f.num_vregs as int, 0));
            assert(stems(x, params[m], x.c.f.num_vregs as int, 0));
            assert(blockparam_ok(
                x.c.f,
                params[n].2.ix(),
                x.c.cfg.vreg_def_blockparam[params[n].2.ix()],
            ));
            assert(blockparam_ok(
                x.c.f,
                params[m].2.ix(),
                x.c.cfg.vreg_def_blockparam[params[m].2.ix()],
            ));
            assert(params[n].2 == params[m].2);
            assert(n == m) by {
                let _ = (params[n], params[m]);
            }
            assert(sorted[i] == sorted[j]);
        }
    }
}

proof fn lemma_params_end(params: Seq<BlockparamAlloc>, b: Block, j: int)
    requires
        0 <= j <= params.len(),
    ensures
        j <= params_end(params, b, j) <= params.len(),
        forall|k: int| j <= k < params_end(params, b, j) ==> (#[trigger] params[k]).0 == b,
        params_end(params, b, j) < params.len() ==> params[params_end(params, b, j)].0 != b,
    decreases params.len() - j,
{
    if j < params.len() && params[j].0 == b {
        lemma_params_end(params, b, j + 1);
    }
}

/// The end of the entries of one block that begin at position `j`.
spec fn group_stop(params: Seq<BlockparamAlloc>, j: int) -> int {
    params_end(params, params[j].0, j + 1)
}

/// The edit for the entries of one block that begin at position `j`.
spec fn group_edit(c: Ctx, vregs: Seq<VRegData>, params: Seq<BlockparamAlloc>, j: int) -> PlacedModel {
    PlacedModel {
        pos: c.cfg.block_entry[params[j].0.ix()].ix() as u32,
        prio: InsertMovePrio::BlockParam,
        edit: params_edit(vregs, params, j, group_stop(params, j)),
    }
}

spec fn group_edits(
    c: Ctx,
    vregs: Seq<VRegData>,
    params: Seq<BlockparamAlloc>,
    starts: Seq<int>,
) -> Seq<PlacedModel> {
    Seq::new(starts.len(), |m: int| group_edit(c, vregs, params, starts[m]))
}

/// Is the entry at position `j` in one of the groups?
spec fn in_group(params: Seq<BlockparamAlloc>, starts: Seq<int>, j: int) -> bool {
    exists|m: int|
        0 <= m < starts.len() && #[trigger] starts[m] <= j < group_stop(params, starts[m])
}

/// From position `i` on the entries fall into groups, one for each block, that begin at the
/// positions.
spec fn grouped(c: Ctx, params: Seq<BlockparamAlloc>, i: int, starts: Seq<int>) -> bool {
    &&& forall|m: int|
        0 <= m < starts.len() ==> i <= #[trigger] starts[m] < params.len() && group_stop(
            params,
            starts[m],
        ) - starts[m] == c.f.params[params[starts[m]].0.ix()].len()
    &&& forall|m: int, n: int|
        #![trigger starts[m], starts[n]]
        0 <= m < n < starts.len() ==> group_stop(params, starts[m]) <= starts[n]
    &&& forall|j: int| i <= j < params.len() ==> #[trigger] in_group(params, starts, j)
}

/// The edits for the entries are those of their groups.
proof fn lemma_groups(
    c: Ctx,
    vregs: Seq<VRegData>,
    params: Seq<BlockparamAlloc>,
    i: int,
    edits: Seq<PlacedModel>,
) -> (starts: Seq<int>)
    requires
        0 <= i <= params.len(),
        edits_params(c, vregs, params, i, edits) is Ok,
    ensures
        grouped(c, params, i, starts),
        edits_params(c, vregs, params, i, edits)->Ok_0 == edits + group_edits(
            c,
            vregs,
            params,
            starts,
        ),
    decreases params.len() - i,
{
    if i == params.len() {
        let none = Seq::<int>::empty();
        assert(edits + group_edits(c, vregs, params, none) =~= edits);
        none
    } else {
        let b = params[i].0;
        let n = params_end(params, b, i + 1);
        lemma_params_end(params, b, i + 1);
        let t = edits.push(group_edit(c, vregs, params, i));
        let rest = lemma_groups(c, vregs, params, n, t);
        let starts = seq![i] + rest;
        assert forall|m: int| 0 <= m < starts.len() implies i <= #[trigger] starts[m]
            < params.len() && group_stop(params, starts[m]) - starts[m]
            == c.f.params[params[starts[m]].0.ix()].len() by {
            if m > 0 {
                assert(starts[m] == rest[m - 1]);
            }
        }
        assert forall|m: int, l: int|
            #![trigger starts[m], starts[l]]
            0 <= m < l < starts.len() implies group_stop(params, starts[m]) <= starts[l] by {
            assert(starts[l] == rest[l - 1]);
            if m > 0 {
                assert(starts[m] == rest[m - 1]);
            }
        }
        assert forall|j: int| i <= j < params.len() implies #[trigger] in_group(
            params,
            starts,
            j,
        ) by {
            if j < n {
                assert(starts[0] <= j);
            } else {
                assert(in_group(params, rest, j));
                let m = choose|m: int|
                    0 <= m < rest.len() && #[trigger] rest[m] <= j < group_stop(params, rest[m]);
                assert(starts[m + 1] == rest[m]);
            }
        }
        assert(t + group_edits(c, vregs, params, rest) =~= edits + group_edits(
            c,
            vregs,
            params,
            starts,
        )) by {
            let all = group_edits(c, vregs, params, starts);
            assert forall|m: int| 0 < m < all.len() implies #[trigger] all[m] == group_edits(
                c,
                vregs,
                params,
                rest,
            )[m - 1] by {
                assert(starts[m] == rest[m - 1]);
            }
        }
        starts
    }
}

/// The positions in a full group count up from the first parameter.
proof fn lemma_count_up(params: Seq<BlockparamAlloc>, b: Block, j: int, n: int, k: int)
    requires
        keys_grow(params),
        0 <= j <= k < n <= params.len(),
        forall|l: int| j <= l < n ==> (#[trigger] params[l]).0 == b && params[l].1 < n - j,
    ensures
        params[k].1 == k - j,
{
    lemma_at_least(params, b, j, n, k);
    lemma_at_most(params, b, j, n, k);
}

proof fn lemma_at_least(params: Seq<BlockparamAlloc>, b: Block, j: int, n: int, k: int)
    requires
        keys_grow(params),
        0 <= j <= k < n <= params.len(),
        forall|l: int| j <= l < n ==> (#[trigger] params[l]).0 == b,
    ensures
        params[k].1 >= k - j,
    decreases k,
{
    if k > j {
        lemma_at_least(params, b, j, n, k - 1);
        lemma_key(params[k - 1], params[k]);
        assert(params[k - 1].key() < params[k].key());
    }
}

proof fn lemma_at_most(params: Seq<BlockparamAlloc>, b: Block, j: int, n: int, k: int)
    requires
        keys_grow(params),
        0 <= j <= k < n <= params.len(),
        forall|l: int| j <= l < n ==> (#[trigger] params[l]).0 == b && params[l].1 < n - j,
    ensures
        params[k].1 <= k - j,
    decreases n - k,
{
    if k + 1 < n {
        lemma_at_most(params, b, j, n, k + 1);
        lemma_key(params[k], params[k + 1]);
        assert(params[k].key() < params[k + 1].key());
    }
}

/// Only one group is for a block.
proof fn lemma_one_group(c: Ctx, params: Seq<BlockparamAlloc>, starts: Seq<int>, m: int, n: int)
    requires
        keys_grow(params),
        grouped(c, params, 0, starts),
        0 <= m < n < starts.len(),
    ensures
        params[starts[m]].0.0 < params[starts[n]].0.0,
{
    let (i, j) = (starts[m], starts[n]);
    let e = group_stop(params, i);
    lemma_params_end(params, params[i].0, i + 1);
    assert(e <= j);
    lemma_key(params[i], params[e]);
    lemma_key(params[i], params[j]);
    lemma_key(params[e], params[j]);
    if e < j {
        assert(params[e].key() < params[j].key());
    }
    assert(params[i].key() < params[e].key());
}

/// As many items have a property after sorting as before.
proof fn lemma_sorted_count<T: HasKey>(s: Seq<T>, f: spec_fn(T) -> bool)
    ensures
        stable_sort(s).filter(f).len() == s.filter(f).len(),
    decreases s.len(),
{
    if s.len() > 0 {
        let r = s.drop_first();
        let t = stable_sort(r);
        lemma_sorted_count(r, f);
        let x = s[0];
        lemma_lower_position(t, x.key(), 0);
        let p = lower_position(t, x.key(), 0);
        let a = t.subrange(0, p);
        let b = t.subrange(p, t.len() as int);
        assert(t =~= a + b);
        assert(t.insert(p, x) =~= a + (seq![x] + b));
        assert(s =~= seq![x] + r);
        Seq::filter_distributes_over_add(a, b, f);
        Seq::filter_distributes_over_add(a, seq![x] + b, f);
        Seq::filter_distributes_over_add(seq![x], b, f);
        Seq::filter_distributes_over_add(seq![x], r, f);
    }
}

/// Where at most one item has a property, no two have it.
proof fn lemma_count_two<T>(s: Seq<T>, f: spec_fn(T) -> bool, i: int, j: int)
    requires
        0 <= i < j < s.len(),
        f(s[i]),
        f(s[j]),
    ensures
        s.filter(f).len() >= 2,
{
    let a = s.subrange(0, i + 1);
    let b = s.subrange(i + 1, s.len() as int);
    assert(s =~= a + b);
    Seq::filter_distributes_over_add(a, b, f);
    broadcast use vstd::seq_lib::group_filter_ensures;

    assert(a[i] == s[i] && b[j - i - 1] == s[j]);
    assert(a.filter(f).contains(a[i]));
    assert(b.filter(f).contains(b[j - i - 1]));
}

/// One item has the property.
proof fn lemma_count_one<T>(s: Seq<T>, f: spec_fn(T) -> bool, m: int)
    requires
        0 <= m < s.len(),
        forall|i: int| 0 <= i < s.len() ==> (f(#[trigger] s[i]) <==> i == m),
    ensures
        s.filter(f).len() == 1,
{
    let a = s.subrange(0, m);
    let b = s.subrange(m + 1, s.len() as int);
    assert(s =~= (a + seq![s[m]]) + b);
    Seq::filter_distributes_over_add(a + seq![s[m]], b, f);
    Seq::filter_distributes_over_add(a, seq![s[m]], f);
    lemma_filter_none(a, f);
    lemma_filter_none(b, f);
    reveal_with_fuel(Seq::filter, 2);
    assert(seq![s[m]].drop_last() =~= Seq::<T>::empty());
}

proof fn lemma_add_only_moves(
    edits: Seq<PlacedModel>,
    pos: ProgPoint,
    prio: InsertMovePrio,
    list: Seq<MovePair>,
    k: int,
)
    requires
        only_moves(edits),
    ensures
        only_moves(edits_add_moves(edits, pos, prio, list, k)),
    decreases list.len() - k,
{
    if 0 <= k < list.len() {
        let t = edits_add(edits, pos, prio, EditModel::Move { from: list[k].0, to: list[k].1 });
        lemma_add_only_moves(t, pos, prio, list, k + 1);
    }
}

/// None of the edits states where parameters live.
spec fn only_moves(edits: Seq<PlacedModel>) -> bool {
    forall|i: int| 0 <= i < edits.len() ==> (#[trigger] edits[i]).edit is Move
}

proof fn lemma_only_moves(c: Ctx, moves: Seq<InsertedMove>, i: int, edits: Seq<PlacedModel>)
    requires
        only_moves(edits),
    ensures
        edits_moves(c, moves, i, edits) matches Ok(t) ==> only_moves(t),
    decreases moves.len() - i,
{
    let n = group_end(moves, i, i + 1);
    if 0 <= i < moves.len() {
        if let Some(class) = moves[i].from_alloc.class() {
            let list = in_sequence(
                group_pairs(moves, i, n),
                Allocation::Reg(c.m.scratch_by_class[class.ix()]),
            );
            let t = edits_add_moves(edits, moves[i].pos, moves[i].prio, list, 0);
            lemma_add_only_moves(edits, moves[i].pos, moves[i].prio, list, 0);
            if i < n <= moves.len() {
                lemma_only_moves(c, moves, n, t);
            }
        }
    }
}

/// No register is a parameter twice.
pub open spec fn params_once(f: FuncModel) -> bool {
    forall|b: int, k: int, d: int, l: int|
        #![trigger f.params[b][k], f.params[d][l]]
        0 <= b < f.blocks && 0 <= d < f.blocks && 0 <= k < f.params[b].len() && 0 <= l
            < f.params[d].len() && f.params[b][k].vreg == f.params[d][l].vreg ==> b == d && k == l
}

/// What is noted of parameters, by block and position.
spec fn entries(c: Ctx) -> Seq<BlockparamAlloc> {
    let (u, a, t) = located(c)->Ok_0;
    stable_sort(applied(c, u, a, t).params)
}

/// The edits that are for moves.
spec fn moves_part(c: Ctx) -> Seq<PlacedModel> {
    edits_moves(c, stable_sort(found_moves(c)), 0, Seq::empty())->Ok_0
}

spec fn params_part(c: Ctx, starts: Seq<int>) -> Seq<PlacedModel> {
    group_edits(c, found(c).g.vregs, entries(c), starts)
}

/// The edits are moves and one edit for each group of entries.
proof fn lemma_shape(c: Ctx) -> (starts: Seq<int>)
    requires
        succeeds(c),
    ensures
        keys_grow(entries(c)),
        grouped(c, entries(c), 0, starts),
        only_moves(moves_part(c)),
        found_edits(c) == stable_sort(moves_part(c) + params_part(c, starts)),
        allocated(c)->Ok_0.edits == edit_points(found_edits(c)),
        forall|j: int|
            0 <= j < entries(c).len() ==> stems(
                found(c),
                #[trigger] entries(c)[j],
                c.f.num_vregs as int,
                0,
            ),
        forall|v: int, y: int|
            0 <= v < c.f.num_vregs && 0 <= y < found(c).g.in_vreg[v].len() && #[trigger] at_entry(
                found(c),
                v,
                y,
            ) ==> exists|j: int| 0 <= j < entries(c).len() && (#[trigger] entries(c)[j]).2.ix() == v,
{
    reveal(succeeds);
    let (u, a, t) = located(c)->Ok_0;
    let x = found(c);
    let params = applied(c, u, a, t).params;
    lemma_orders(c);
    lemma_all_params(x, apply_start(c.f), u.fixups);
    lemma_sorted_params(x, params);
    let none = Seq::<PlacedModel>::empty();
    lemma_only_moves(c, stable_sort(found_moves(c)), 0, none);
    let starts = lemma_groups(c, a.g.vregs, entries(c), 0, moves_part(c));
    reveal(listed);
    assert forall|j: int| 0 <= j < entries(c).len() implies stems(
        x,
        #[trigger] entries(c)[j],
        c.f.num_vregs as int,
        0,
    ) by {
        lemma_sorted_member(params, j);
    }
    assert forall|v: int, y: int|
        0 <= v < c.f.num_vregs && 0 <= y < x.g.in_vreg[v].len() && #[trigger] at_entry(
            x,
            v,
            y,
        ) implies exists|j: int| 0 <= j < entries(c).len() && (#[trigger] entries(c)[j]).2.ix() == v by {
        let n = choose|n: int| 0 <= n < params.len() && (#[trigger] params[n]).2.ix() == v;
        lemma_sorted_has(params, n);
        let j = choose|j: int| 0 <= j < entries(c).len() && entries(c)[j] == params[n];
        assert(entries(c)[j].2.ix() == v);
    }
    starts
}

/// An entry is for the parameter that it names, and says where the register is at the entry of the
/// block.
proof fn lemma_entry(c: Ctx, p: BlockparamAlloc)
    requires
        succeeds(c),
        stems(found(c), p, c.f.num_vregs as int, 0),
    ensures
        p.0.0 < c.f.blocks,
        p.1 < c.f.params[p.0.ix()].len(),
        c.f.params[p.0.ix()][p.1 as int].vreg == p.2.ix(),
        sits(c, p.2.ix(), early(c.f.insns[p.0.ix()].from.0 as int), p.3),
{
    let x = found(c);
    let v = p.2.ix();
    let y = choose|y: int| #[trigger]
        is_entry(x, p, y) && (v < c.f.num_vregs || v == c.f.num_vregs && y < 0);
    lemma_fits(c);
    assert(x.c == c);
    assert(blockparam_ok(c.f, v, c.cfg.vreg_def_blockparam[v]));
    lemma_block_ends(c, p.0);
    assert(x.g.in_vreg.len() == c.f.num_vregs) by {
        reveal(succeeds);
    }
    assert(range_of(c, v, y).from.ix() <= c.cfg.block_entry[p.0.ix()].ix() < range_of(
        c,
        v,
        y,
    ).to.ix());
}

/// The register of a parameter is the one that the function names there.
proof fn lemma_param_name(c: Ctx, b: Block, k: int)
    requires
        succeeds(c),
        ssa_form(c.f),
        params_once(c.f),
        b.0 < c.f.blocks,
        reachable(c.f, b),
        0 <= k < c.f.params[b.ix()].len(),
    ensures
        found(c).g.vregs[c.f.params[b.ix()][k].ix()].reg == c.f.params[b.ix()][k],
{
    let reg = c.f.params[b.ix()][k];
    lemma_fits(c);
    assert(block_ok(c.f, b.ix()));
    assert(named_alike(c.f, reg.ix(), reg)) by {
        reveal(ssa_form);
        assert forall|i: int, l: int|
            0 <= i < c.f.insts && 0 <= l < c.f.operands[i].len() && (
            #[trigger] c.f.operands[i][l]).kind is Def && c.f.operands[i][l].vreg.vreg
                == reg.ix() implies c.f.operands[i][l].vreg == reg by {
            let _ = c.f.params[b.ix()][k];
        }
    }
    assert(takes_param(c.f, b, reg.vreg));
    law_entry_names(c, b, reg.ix(), reg);
    reveal(succeeds);
}

/// A parameter is one of its block.
proof fn lemma_param_block(c: Ctx, b: Block, k: int)
    requires
        ctx_ok(c),
        params_once(c.f),
        b.0 < c.f.blocks,
        0 <= k < c.f.params[b.ix()].len(),
    ensures
        c.f.params[b.ix()][k].vreg < c.f.num_vregs,
        c.cfg.vreg_def_blockparam[c.f.params[b.ix()][k].ix()].0 == b,
{
    assert(block_ok(c.f, b.ix()));
    let v = c.f.params[b.ix()][k].ix();
    let q = c.cfg.vreg_def_blockparam[v];
    assert(blockparam_ok(c.f, v, q));
    let _ = (c.f.params[b.ix()][k], c.f.params[q.0.ix()][q.1 as int]);
}

/// A parameter of a block that can be reached has a location where the block begins.
proof fn lemma_param_sits(c: Ctx, b: Block, k: int) -> (loc: Allocation)
    requires
        succeeds(c),
        b.0 < c.f.blocks,
        reachable(c.f, b),
        0 <= k < c.f.params[b.ix()].len(),
        c.f.params[b.ix()][k].vreg < c.f.num_vregs,
    ensures
        sits(c, c.f.params[b.ix()][k].ix(), early(c.f.insns[b.ix()].from.0 as int), loc),
{
    let v = c.f.params[b.ix()][k].vreg;
    lemma_fits(c);
    lemma_block_ends(c, b);
    let p = early(c.f.insns[b.ix()].from.0 as int);
    assert(covers(located(c)->Ok_0.0.g, v as int, p)) by {
        reveal(succeeds);
        reveal(edges_live);
        let j = lemma_in_order_at(c, b);
        let _ = c.f.params[c.cfg.postorder[j].ix()][k];
    }
    lemma_covered_sits(c, v, p);
    choose|loc: Allocation| sits(c, v as int, p, loc)
}

/// A register that has a location where the block begins that takes it as a parameter has a live
/// range there.
proof fn lemma_sits_at_entry(c: Ctx, b: Block, v: int, loc: Allocation) -> (y: int)
    requires
        ctx_ok(c),
        b.0 < c.f.blocks,
        sits(c, v, early(c.f.insns[b.ix()].from.0 as int), loc),
        c.cfg.vreg_def_blockparam[v].0 == b,
    ensures
        0 <= y < found(c).g.in_vreg[v].len(),
        at_entry(found(c), v, y),
{
    let p = early(c.f.insns[b.ix()].from.0 as int);
    lemma_block_ends(c, b);
    let y = choose|y: int|
        0 <= y < found(c).g.in_vreg[v].len() && #[trigger] range_of(c, v, y).from.ix() <= p
            < range_of(c, v, y).to.ix() && range_alloc(found(c), found(c).g.in_vreg[v][y]) == Some(
            loc,
        );
    let b = found(c).c.cfg.vreg_def_blockparam[v].0;
    assert(range_of(c, v, y).has(c.cfg.block_entry[b.ix()]));
    y
}

/// Does the edit at position `n` of those that come out say, at the entry of block `b`, where the
/// parameters of the block live: each of them, in order?
pub open spec fn announces(c: Ctx, n: int, b: Block) -> bool {
    let out = allocated(c)->Ok_0;
    let first = c.f.insns[b.ix()].from;
    &&& 0 <= n < out.edits.len()
    &&& out.edits[n].0.inst == first
    &&& out.edits[n].0.pos is Before
    &&& out.edits[n].1 matches EditModel::BlockParams { vregs, allocs } && {
        &&& vregs == c.f.params[b.ix()]
        &&& allocs.len() == c.f.params[b.ix()].len()
        &&& forall|k: int|
            0 <= k < allocs.len() ==> sits(
                c,
                c.f.params[b.ix()][k].ix(),
                early(first.0 as int),
                #[trigger] allocs[k],
            )
    }
}

/// The edit of a group says where the parameters of its block live.
proof fn lemma_group_said(c: Ctx, starts: Seq<int>, m: int, b: Block)
    requires
        succeeds(c),
        ssa_form(c.f),
        params_once(c.f),
        keys_grow(entries(c)),
        grouped(c, entries(c), 0, starts),
        forall|j: int|
            0 <= j < entries(c).len() ==> stems(
                found(c),
                #[trigger] entries(c)[j],
                c.f.num_vregs as int,
                0,
            ),
        0 <= m < starts.len(),
        entries(c)[starts[m]].0 == b,
        reachable(c.f, b),
    ensures
        params_part(c, starts)[m].edit matches EditModel::BlockParams { vregs, allocs } && {
            &&& vregs == c.f.params[b.ix()]
            &&& allocs.len() == c.f.params[b.ix()].len()
            &&& forall|k: int|
                0 <= k < allocs.len() ==> sits(
                    c,
                    c.f.params[b.ix()][k].ix(),
                    early(c.f.insns[b.ix()].from.0 as int),
                    #[trigger] allocs[k],
                )
        },
{
    let params = entries(c);
    let j = starts[m];
    let n = group_stop(params, j);
    let vregs = Seq::new((n - j) as nat, |k: int| found(c).g.vregs[params[j + k].2.ix()].reg);
    let allocs = Seq::new((n - j) as nat, |k: int| params[j + k].3);
    assert(params_part(c, starts)[m].edit == EditModel::BlockParams { vregs, allocs });
    lemma_params_end(params, b, j + 1);
    assert forall|l: int| j <= l < n implies (#[trigger] params[l]).0 == b && params[l].1 < n - j by {
        lemma_entry(c, params[l]);
    }
    assert forall|k: int| 0 <= k < n - j implies #[trigger] vregs[k] == c.f.params[b.ix()][k]
        && sits(
        c,
        c.f.params[b.ix()][k].ix(),
        early(c.f.insns[b.ix()].from.0 as int),
        allocs[k],
    ) by {
        lemma_entry(c, params[j + k]);
        lemma_count_up(params, b, j, n, j + k);
        lemma_param_name(c, b, k);
    }
    assert(vregs =~= c.f.params[b.ix()]);
    assert forall|k: int| 0 <= k < allocs.len() implies sits(
        c,
        c.f.params[b.ix()][k].ix(),
        early(c.f.insns[b.ix()].from.0 as int),
        #[trigger] allocs[k],
    ) by {
        let _ = vregs[k];
    }
}

/// The point of an edit of a group.
proof fn lemma_group_point(c: Ctx, starts: Seq<int>, m: int)
    requires
        succeeds(c),
        grouped(c, entries(c), 0, starts),
        forall|j: int|
            0 <= j < entries(c).len() ==> stems(
                found(c),
                #[trigger] entries(c)[j],
                c.f.num_vregs as int,
                0,
            ),
        0 <= m < starts.len(),
    ensures
        entries(c)[starts[m]].0.0 < c.f.blocks,
        params_part(c, starts)[m].pos == early(
            c.f.insns[entries(c)[starts[m]].0.ix()].from.0 as int,
        ),
        params_part(c, starts)[m].edit is BlockParams,
        c.f.params[entries(c)[starts[m]].0.ix()].len() > 0,
{
    let p = entries(c)[starts[m]];
    lemma_entry(c, p);
    lemma_fits(c);
    lemma_block_ends(c, p.0);
}

/// Does the edit say where parameters live, at place `p`?
spec fn says_at(p: int) -> spec_fn(PlacedModel) -> bool {
    |e: PlacedModel| e.edit is BlockParams && e.pos == p
}

/// One edit says at the entry of a block where its parameters live.
proof fn lemma_said_once(c: Ctx, starts: Seq<int>, m: int, p: int)
    requires
        succeeds(c),
        keys_grow(entries(c)),
        grouped(c, entries(c), 0, starts),
        only_moves(moves_part(c)),
        found_edits(c) == stable_sort(moves_part(c) + params_part(c, starts)),
        forall|j: int|
            0 <= j < entries(c).len() ==> stems(
                found(c),
                #[trigger] entries(c)[j],
                c.f.num_vregs as int,
                0,
            ),
        0 <= m < starts.len(),
        params_part(c, starts)[m].pos == p,
    ensures
        found_edits(c).filter(says_at(p)).len() == 1,
{
    let f = says_at(p);
    let more = params_part(c, starts);
    lemma_fits(c);
    lemma_sorted_count(moves_part(c) + more, f);
    Seq::filter_distributes_over_add(moves_part(c), more, f);
    lemma_filter_none(moves_part(c), f);
    lemma_group_point(c, starts, m);
    assert forall|i: int| 0 <= i < more.len() implies (f(#[trigger] more[i]) <==> i == m) by {
        lemma_group_point(c, starts, i);
        let (a, b) = (entries(c)[starts[m]].0, entries(c)[starts[i]].0);
        if i < m {
            lemma_one_group(c, entries(c), starts, i, m);
        } else if m < i {
            lemma_one_group(c, entries(c), starts, m, i);
        }
        assert(block_ok(c.f, a.ix()) && block_ok(c.f, b.ix()));
        let _ = (c.f.insns[a.ix()], c.f.insns[b.ix()]);
    }
    lemma_count_one(more, f, m);
}

/// The group of a block.
proof fn lemma_group_of(c: Ctx, starts: Seq<int>, b: Block) -> (m: int)
    requires
        succeeds(c),
        params_once(c.f),
        grouped(c, entries(c), 0, starts),
        forall|j: int|
            0 <= j < entries(c).len() ==> stems(
                found(c),
                #[trigger] entries(c)[j],
                c.f.num_vregs as int,
                0,
            ),
        forall|v: int, y: int|
            0 <= v < c.f.num_vregs && 0 <= y < found(c).g.in_vreg[v].len() && #[trigger] at_entry(
                found(c),
                v,
                y,
            ) ==> exists|j: int| 0 <= j < entries(c).len() && (#[trigger] entries(c)[j]).2.ix() == v,
        b.0 < c.f.blocks,
        reachable(c.f, b),
        c.f.params[b.ix()].len() > 0,
    ensures
        0 <= m < starts.len(),
        entries(c)[starts[m]].0 == b,
{
    let params = entries(c);
    let v = c.f.params[b.ix()][0].ix();
    lemma_fits(c);
    lemma_param_block(c, b, 0);
    let loc = lemma_param_sits(c, b, 0);
    let y = lemma_sits_at_entry(c, b, v, loc);
    let j = choose|j: int| 0 <= j < params.len() && (#[trigger] params[j]).2.ix() == v;
    assert(stems(found(c), params[j], c.f.num_vregs as int, 0));
    assert(params[j].0 == b);
    assert(in_group(params, starts, j));
    let m = choose|m: int|
        0 <= m < starts.len() && #[trigger] starts[m] <= j < group_stop(params, starts[m]);
    lemma_params_end(params, params[starts[m]].0, starts[m] + 1);
    m
}

/// At the entry of every block with parameters that can be reached, one edit and no other says where
/// the parameters live: all of them, in order, each in the location that its register has there.
pub proof fn law_params_announced(c: Ctx, b: Block)
    requires
        succeeds(c),
        ssa_form(c.f),
        params_once(c.f),
        b.0 < c.f.blocks,
        reachable(c.f, b),
        c.f.params[b.ix()].len() > 0,
    ensures
        exists|n: int| #[trigger] announces(c, n, b),
        forall|n: int, m: int|
            #![trigger announces(c, n, b), allocated(c)->Ok_0.edits[m]]
            announces(c, n, b) && 0 <= m < allocated(c)->Ok_0.edits.len() && allocated(
                c,
            )->Ok_0.edits[m].1 is BlockParams && allocated(c)->Ok_0.edits[m].0 == allocated(
                c,
            )->Ok_0.edits[n].0 ==> m == n,
{
    let starts = lemma_shape(c);
    let m = lemma_group_of(c, starts, b);
    lemma_group_said(c, starts, m, b);
    lemma_group_point(c, starts, m);
    lemma_said_once(c, starts, m, early(c.f.insns[b.ix()].from.0 as int));
    lemma_announced(c, starts, m, b);
    let out = allocated(c)->Ok_0;
    assert forall|n: int, m: int|
        #![trigger announces(c, n, b), out.edits[m]]
        announces(c, n, b) && 0 <= m < out.edits.len() && out.edits[m].1 is BlockParams
            && out.edits[m].0 == out.edits[n].0 implies m == n by {
        lemma_announced_once(c, b, n, m);
    }
}

proof fn lemma_announced(c: Ctx, starts: Seq<int>, m: int, b: Block)
    requires
        found_edits(c) == stable_sort(moves_part(c) + params_part(c, starts)),
        allocated(c)->Ok_0.edits == edit_points(found_edits(c)),
        0 <= m < starts.len(),
        params_part(c, starts)[m].pos == early(c.f.insns[b.ix()].from.0 as int),
        params_part(c, starts)[m].edit matches EditModel::BlockParams { vregs, allocs } && {
            &&& vregs == c.f.params[b.ix()]
            &&& allocs.len() == c.f.params[b.ix()].len()
            &&& forall|k: int|
                0 <= k < allocs.len() ==> sits(
                    c,
                    c.f.params[b.ix()][k].ix(),
                    early(c.f.insns[b.ix()].from.0 as int),
                    #[trigger] allocs[k],
                )
        },
    ensures
        exists|n: int| #[trigger] announces(c, n, b),
{
    let all = moves_part(c) + params_part(c, starts);
    let at = moves_part(c).len() + m;
    assert(all[at] == params_part(c, starts)[m]);
    lemma_sorted_has(all, at);
    let n = choose|n: int| 0 <= n < found_edits(c).len() && found_edits(c)[n] == all[at];
    assert(allocated(c)->Ok_0.edits[n].1 == all[at].edit);
    assert(announces(c, n, b));
}

proof fn lemma_announced_once(c: Ctx, b: Block, n: int, m: int)
    requires
        allocated(c)->Ok_0.edits == edit_points(found_edits(c)),
        found_edits(c).filter(says_at(early(c.f.insns[b.ix()].from.0 as int))).len() == 1,
        announces(c, n, b),
        0 <= m < allocated(c)->Ok_0.edits.len(),
        allocated(c)->Ok_0.edits[m].1 is BlockParams,
        allocated(c)->Ok_0.edits[m].0 == allocated(c)->Ok_0.edits[n].0,
    ensures
        m == n,
{
    let edits = found_edits(c);
    let f = says_at(early(c.f.insns[b.ix()].from.0 as int));
    assert(ProgPoint::at(edits[n].pos as int).ix() == edits[n].pos);
    assert(ProgPoint::at(edits[m].pos as int).ix() == edits[m].pos);
    assert(allocated(c)->Ok_0.edits[n].0 == ProgPoint::at(edits[n].pos as int));
    assert(allocated(c)->Ok_0.edits[m].0 == ProgPoint::at(edits[m].pos as int));
    assert(f(edits[n]) && f(edits[m]));
    if n < m {
        lemma_count_two(edits, f, n, m);
    } else if m < n {
        lemma_count_two(edits, f, m, n);
    }
}

/// An edit that says where parameters live stands at the entry of a block that has parameters.
pub proof fn law_only_params_announced(c: Ctx, n: int)
    requires
        succeeds(c),
        0 <= n < allocated(c)->Ok_0.edits.len(),
        allocated(c)->Ok_0.edits[n].1 is BlockParams,
    ensures
        exists|b: Block|
            b.0 < c.f.blocks && #[trigger] c.f.params[b.ix()].len() > 0 && allocated(
                c,
            )->Ok_0.edits[n].0.ix() == early(c.f.insns[b.ix()].from.0 as int),
{
    let starts = lemma_shape(c);
    let all = moves_part(c) + params_part(c, starts);
    let edits = found_edits(c);
    lemma_sorted_member(all, n);
    let i = choose|i: int| 0 <= i < all.len() && all[i] == edits[n];
    let m = i - moves_part(c).len();
    assert(m >= 0) by {
        if m < 0 {
            assert(moves_part(c)[i] == all[i]);
        }
    }
    assert(all[i] == params_part(c, starts)[m]);
    lemma_group_point(c, starts, m);
    assert(ProgPoint::at(edits[n].pos as int).ix() == edits[n].pos);
    assert(c.f.params[entries(c)[starts[m]].0.ix()].len() > 0);
}

proof fn lemma_run_said(edits: Seq<PlacedModel>, held: spec_fn(Allocation) -> int)
    requires
        forall|i: int| 0 <= i < edits.len() ==> (#[trigger] edits[i]).edit is BlockParams,
    ensures
        run_edits(edits, held) == held,
    decreases edits.len(),
{
    if edits.len() > 0 {
        lemma_run_said(edits.drop_last(), held);
        let _ = edits[edits.len() - 1];
    }
}

/// Edits that say where parameters live move nothing.
pub proof fn lemma_said_moves_nothing(c: Ctx, pos: int, held: spec_fn(Allocation) -> int)
    requires
        succeeds(c),
    ensures
        run_edits(
            edits_at(found_edits(c), place_key(pos, InsertMovePrio::BlockParam)),
            held,
        ) == held,
{
    let starts = lemma_shape(c);
    let k = place_key(pos, InsertMovePrio::BlockParam);
    let (m, p) = (moves_part(c), params_part(c, starts));
    let f = has_key::<PlacedModel>(k);
    law_sort_is_stable(m + p, k);
    Seq::filter_distributes_over_add(m, p, f);
    lemma_no_move_said(c, k);
    assert(edits_at(m, k) + edits_at(p, k) =~= edits_at(p, k));
    let edits = edits_at(p, k);
    assert forall|i: int| 0 <= i < edits.len() implies (#[trigger] edits[i]).edit is BlockParams by {
        p.lemma_filter_contains_rev(f, edits[i]);
        let n = choose|n: int| 0 <= n < p.len() && p[n] == edits[i];
    }
    lemma_run_said(edits, held);
}

/// No move stands among the edits that say where parameters live.
proof fn lemma_no_move_said(c: Ctx, k: int)
    requires
        succeeds(c),
        k % 8 == 1,
    ensures
        edits_at(moves_part(c), k) == Seq::<PlacedModel>::empty(),
{
    reveal(succeeds);
    let (u, a, t) = located(c)->Ok_0;
    let moves = found_moves(c);
    let sorted = stable_sort(moves);
    let none = Seq::<PlacedModel>::empty();
    lemma_points_fit(c);
    lemma_kinds(found(c), apply_start(c.f), u.fixups);
    law_stable_sort(moves);
    assert(points_fit(sorted)) by {
        assert forall|i: int| 0 <= i < sorted.len() implies (#[trigger] sorted[i]).pos.ix()
            <= u32::MAX by {
            lemma_sorted_member(moves, i);
        }
    }
    lemma_edits_moves(c, sorted, 0, none, k);
    lemma_filter_none(none, has_key::<PlacedModel>(k));
    let f = has_key::<InsertedMove>(k);
    let all = sorted.subrange(0, sorted.len() as int);
    assert forall|i: int| 0 <= i < all.len() implies !f(#[trigger] all[i]) by {
        lemma_sorted_member(moves, i);
        let n = choose|n: int| 0 <= n < moves.len() && moves[n] == sorted[i];
        assert(!(moves[n].prio is BlockParam));
    }
    lemma_filter_none(all, f);
    assert(none + none =~= none);
}

} // verus!
