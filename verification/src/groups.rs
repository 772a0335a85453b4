//! The moves of one point and priority come out as edits that do them in parallel.
use crate::apply::BlockparamAlloc;
use crate::data::{InsertMovePrio, InsertedMove, VRegData};
use crate::liveness::Ctx;
use crate::moves::{
    after_move, dests_ok, in_sequence, law_sequence_is_parallel, law_sequence_within, moved,
    run_moves, MovePair,
};
use crate::reg::{Allocation, EditModel, ProgPoint, RegClass};
use crate::resolve::{
    edits_add, edits_add_moves, edits_all, edits_moves, edits_params, group_end, group_pairs,
    params_edit, params_end, place_key, PlacedModel,
};
use crate::sort::{
    has_key, keys_sorted, law_sort_is_stable, law_stable_sort, lemma_filter_none,
    lemma_sorted_member, stable_sort, HasKey,
};
use vstd::prelude::*;

verus! {

/// The moves of a place.
pub open spec fn moves_at(moves: Seq<InsertedMove>, k: int) -> Seq<InsertedMove> {
    moves.filter(has_key(k))
}

/// The edits of a place.
pub open spec fn edits_at(edits: Seq<PlacedModel>, k: int) -> Seq<PlacedModel> {
    edits.filter(has_key(k))
}

/// Sources and destinations of the moves that are not from a location to itself.
pub open spec fn pairs_of(moves: Seq<InsertedMove>) -> Seq<MovePair> {
    group_pairs(moves, 0, moves.len() as int)
}

/// The register that is free while the moves are done.
pub open spec fn scratch_of(c: Ctx, moves: Seq<InsertedMove>) -> Allocation {
    Allocation::Reg(c.m.scratch_by_class[moves[0].from_alloc.class()->Some_0.ix()])
}

/// The edits that the moves of one place become.
pub open spec fn edits_of(c: Ctx, moves: Seq<InsertedMove>) -> Seq<PlacedModel> {
    if moves.len() == 0 {
        Seq::empty()
    } else {
        edits_add_moves(
            Seq::empty(),
            moves[0].pos,
            moves[0].prio,
            in_sequence(pairs_of(moves), scratch_of(c, moves)),
            0,
        )
    }
}

/// The points of the moves can be counted.
pub open spec fn points_fit(moves: Seq<InsertedMove>) -> bool {
    forall|i: int| 0 <= i < moves.len() ==> (#[trigger] moves[i]).pos.ix() <= u32::MAX
}

/// What the locations hold after the edits.
pub open spec fn run_edits(edits: Seq<PlacedModel>, held: spec_fn(Allocation) -> int) -> spec_fn(
    Allocation,
) -> int
    decreases edits.len(),
{
    if edits.len() == 0 {
        held
    } else {
        let after = run_edits(edits.drop_last(), held);
        match edits.last().edit {
            EditModel::Move { from, to } => after_move((from, to), after),
            _ => after,
        }
    }
}

/// A place tells its point and its priority.
pub proof fn lemma_place_key(a: InsertedMove, b: InsertedMove)
    requires
        a.key() == b.key(),
    ensures
        a.pos == b.pos,
        a.prio == b.prio,
{
    assert(a.pos.ix() == b.pos.ix());
    assert(a.prio.rank() == b.prio.rank());
    assert(a.pos.inst == b.pos.inst);
    assert(a.pos.pos is Before == b.pos.pos is Before);
}

proof fn lemma_filter_all<T>(s: Seq<T>, f: spec_fn(T) -> bool)
    requires
        forall|i: int| 0 <= i < s.len() ==> f(#[trigger] s[i]),
    ensures
        s.filter(f) == s,
    decreases s.len(),
{
    reveal(Seq::filter);
    if s.len() > 0 {
        lemma_filter_all(s.drop_last(), f);
        assert(s.drop_last().push(s.last()) =~= s);
    }
}

/// What is found by looking for the end of a group.
proof fn lemma_group_end(moves: Seq<InsertedMove>, i: int, j: int)
    requires
        0 <= i < j <= moves.len(),
    ensures
        ({
            let n = group_end(moves, i, j);
            &&& j <= n <= moves.len()
            &&& forall|k: int|
                j <= k < n ==> (#[trigger] moves[k]).pos == moves[i].pos && moves[k].prio
                    == moves[i].prio
            &&& n < moves.len() ==> moves[n].pos != moves[i].pos || moves[n].prio != moves[i].prio
        }),
    decreases moves.len() - j,
{
    if j < moves.len() && moves[j].pos == moves[i].pos && moves[j].prio == moves[i].prio {
        lemma_group_end(moves, i, j + 1);
    }
}

proof fn lemma_group_pairs(moves: Seq<InsertedMove>, i: int, n: int, m: int)
    requires
        0 <= i <= m <= n <= moves.len(),
    ensures
        group_pairs(moves.subrange(i, n), 0, m - i) == group_pairs(moves, i, m),
    decreases m - i,
{
    if i < m {
        lemma_group_pairs(moves, i, n, m - 1);
        assert(moves.subrange(i, n)[m - i - 1] == moves[m - 1]);
    }
}

/// Edits are added behind those that are there, and all of them are of the place.
proof fn lemma_add_moves(
    edits: Seq<PlacedModel>,
    pos: ProgPoint,
    prio: InsertMovePrio,
    list: Seq<MovePair>,
    k: int,
)
    requires
        0 <= k,
        pos.ix() <= u32::MAX,
    ensures
        ({
            let more = edits_add_moves(Seq::empty(), pos, prio, list, k);
            &&& edits_add_moves(edits, pos, prio, list, k) == edits + more
            &&& forall|i: int|
                0 <= i < more.len() ==> (#[trigger] more[i]).key() == place_key(pos.ix(), prio)
        }),
    decreases list.len() - k,
{
    if k < list.len() {
        let edit = EditModel::Move { from: list[k].0, to: list[k].1 };
        let none = Seq::<PlacedModel>::empty();
        let one = edits_add(none, pos, prio, edit);
        lemma_add_moves(edits_add(edits, pos, prio, edit), pos, prio, list, k + 1);
        lemma_add_moves(one, pos, prio, list, k + 1);
        let rest = edits_add_moves(none, pos, prio, list, k + 1);
        assert(edits_add(edits, pos, prio, edit) =~= edits + one);
        assert(edits + one + rest =~= edits + (one + rest));
    } else {
        assert(edits + Seq::<PlacedModel>::empty() =~= edits);
    }
}

/// The moves of a place are one group.
proof fn lemma_one_group(moves: Seq<InsertedMove>, i: int, k: int)
    requires
        keys_sorted(moves),
        0 <= i < moves.len(),
    ensures
        ({
            let n = group_end(moves, i, i + 1);
            let all = moves_at(moves.subrange(i, moves.len() as int), k);
            let rest = moves_at(moves.subrange(n, moves.len() as int), k);
            &&& i < n <= moves.len()
            &&& n < moves.len() ==> moves[n - 1].key() < moves[n].key()
            &&& moves[i].key() == k ==> all == moves.subrange(i, n) && rest.len() == 0
            &&& moves[i].key() != k ==> all == rest
        }),
{
    let len = moves.len() as int;
    let f = has_key::<InsertedMove>(k);
    lemma_group_end(moves, i, i + 1);
    let n = group_end(moves, i, i + 1);
    let here = moves.subrange(i, n);
    let rest = moves.subrange(n, len);
    assert(moves.subrange(i, len) =~= here + rest);
    Seq::filter_distributes_over_add(here, rest, f);
    if n < len {
        if moves[n - 1].key() == moves[n].key() {
            lemma_place_key(moves[n - 1], moves[n]);
        }
        assert(moves[n - 1].key() <= moves[n].key());
    }
    if moves[i].key() == k {
        assert forall|j: int| 0 <= j < here.len() implies f(#[trigger] here[j]) by {
            assert(here[j] == moves[i + j]);
        }
        lemma_filter_all(here, f);
        assert forall|j: int| 0 <= j < rest.len() implies !f(#[trigger] rest[j]) by {
            assert(rest[j] == moves[n + j]);
            if j > 0 {
                assert(moves[n].key() <= moves[n + j].key());
            }
            assert(moves[n - 1].key() == k);
        }
        lemma_filter_none(rest, f);
        assert(here + Seq::<InsertedMove>::empty() =~= here);
    } else {
        assert forall|j: int| 0 <= j < here.len() implies !f(#[trigger] here[j]) by {
            assert(here[j] == moves[i + j]);
        }
        lemma_filter_none(here, f);
        assert(Seq::<InsertedMove>::empty() + rest.filter(f) =~= rest.filter(f));
    }
}

/// Further edits of one place.
proof fn lemma_more_edits(edits: Seq<PlacedModel>, more: Seq<PlacedModel>, key: int, k: int)
    requires
        forall|i: int| 0 <= i < more.len() ==> (#[trigger] more[i]).key() == key,
    ensures
        edits_at(edits + more, k) == edits_at(edits, k) + if key == k {
            more
        } else {
            Seq::empty()
        },
{
    let f = has_key::<PlacedModel>(k);
    Seq::filter_distributes_over_add(edits, more, f);
    if key == k {
        lemma_filter_all(more, f);
    } else {
        lemma_filter_none(more, f);
    }
}

/// The edits of one place are those that its moves become.
pub proof fn lemma_edits_moves(
    c: Ctx,
    moves: Seq<InsertedMove>,
    i: int,
    edits: Seq<PlacedModel>,
    k: int,
)
    requires
        keys_sorted(moves),
        points_fit(moves),
        0 <= i <= moves.len(),
        edits_moves(c, moves, i, edits) is Ok,
    ensures
        edits_at(edits_moves(c, moves, i, edits)->Ok_0, k) == edits_at(edits, k) + edits_of(
            c,
            moves_at(moves.subrange(i, moves.len() as int), k),
        ),
    decreases moves.len() - i,
{
    let len = moves.len() as int;
    let none = Seq::<PlacedModel>::empty();
    if i == len {
        lemma_filter_none(moves.subrange(i, len), has_key::<InsertedMove>(k));
        assert(edits_at(edits, k) + none =~= edits_at(edits, k));
    } else {
        lemma_one_group(moves, i, k);
        let n = group_end(moves, i, i + 1);
        let here = moves.subrange(i, n);
        let pos = moves[i].pos;
        let prio = moves[i].prio;
        let list = in_sequence(
            group_pairs(moves, i, n),
            Allocation::Reg(c.m.scratch_by_class[moves[i].from_alloc.class()->Some_0.ix()]),
        );
        let more = edits_add_moves(none, pos, prio, list, 0);
        let t = edits_add_moves(edits, pos, prio, list, 0);
        lemma_add_moves(edits, pos, prio, list, 0);
        lemma_more_edits(edits, more, moves[i].key(), k);
        lemma_edits_moves(c, moves, n, t, k);
        if moves[i].key() == k {
            lemma_group_pairs(moves, i, n, n);
            assert(here[0] == moves[i]);
            assert(edits_of(c, here) == more);
            assert(edits_at(t, k) + none =~= edits_at(edits, k) + more);
        } else {
            assert(edits_at(edits, k) + none =~= edits_at(edits, k));
        }
    }
}

/// Edits that state where block parameters live are of places of their own.
proof fn lemma_edits_params(
    c: Ctx,
    vregs: Seq<VRegData>,
    params: Seq<BlockparamAlloc>,
    i: int,
    edits: Seq<PlacedModel>,
    k: int,
)
    requires
        k % 8 != 1,
        edits_params(c, vregs, params, i, edits) is Ok,
    ensures
        edits_at(edits_params(c, vregs, params, i, edits)->Ok_0, k) == edits_at(edits, k),
    decreases params.len() - i,
{
    let b = params[i].0;
    let n = params_end(params, b, i + 1);
    if !(i < 0 || i >= params.len()) {
        let edit = params_edit(vregs, params, i, n);
        let t = edits_add(edits, c.cfg.block_entry[b.ix()], InsertMovePrio::BlockParam, edit);
        assert(t.drop_last() =~= edits);
        assert(t.last().key() % 8 == 1);
        reveal(Seq::filter);
        assert(edits_at(t, k) == edits_at(edits, k));
        if i < n <= params.len() {
            lemma_edits_params(c, vregs, params, n, t, k);
        }
    }
}

/// The edits of one place are the moves of that place, in an order in which they can be done one at
/// a time.
pub proof fn law_group_edits(
    c: Ctx,
    vregs: Seq<VRegData>,
    moves: Seq<InsertedMove>,
    params: Seq<BlockparamAlloc>,
    k: int,
)
    requires
        points_fit(moves),
        k % 8 != 1,
        edits_all(c, vregs, moves, params) is Ok,
    ensures
        edits_at(edits_all(c, vregs, moves, params)->Ok_0, k) == edits_of(c, moves_at(moves, k)),
{
    let sorted = stable_sort(moves);
    let t = edits_moves(c, sorted, 0, Seq::empty())->Ok_0;
    let u = edits_params(c, vregs, stable_sort(params), 0, t)->Ok_0;
    law_stable_sort(moves);
    assert(points_fit(sorted)) by {
        assert forall|i: int| 0 <= i < sorted.len() implies (#[trigger] sorted[i]).pos.ix()
            <= u32::MAX by {
            lemma_sorted_member(moves, i);
        }
    }
    lemma_edits_moves(c, sorted, 0, Seq::empty(), k);
    lemma_edits_params(c, vregs, stable_sort(params), 0, t, k);
    law_sort_is_stable(u, k);
    law_sort_is_stable(moves, k);
    assert(sorted.subrange(0, sorted.len() as int) =~= sorted);
    let none = Seq::<PlacedModel>::empty();
    lemma_filter_none(none, has_key::<PlacedModel>(k));
    assert(none + edits_of(c, moves_at(moves, k)) =~= edits_of(c, moves_at(moves, k)));
}

proof fn lemma_run_concat(
    a: Seq<PlacedModel>,
    b: Seq<PlacedModel>,
    held: spec_fn(Allocation) -> int,
)
    ensures
        run_edits(a + b, held) == run_edits(b, run_edits(a, held)),
    decreases b.len(),
{
    if b.len() == 0 {
        assert(a + b =~= a);
    } else {
        assert((a + b).drop_last() =~= a + b.drop_last());
        assert((a + b).last() == b.last());
        lemma_run_concat(a, b.drop_last(), held);
    }
}

/// The edits do what the moves do.
proof fn lemma_run_added(
    pos: ProgPoint,
    prio: InsertMovePrio,
    list: Seq<MovePair>,
    k: int,
    held: spec_fn(Allocation) -> int,
)
    requires
        0 <= k <= list.len(),
        pos.ix() <= u32::MAX,
    ensures
        run_edits(edits_add_moves(Seq::empty(), pos, prio, list, k), held) == run_moves(
            list.subrange(k, list.len() as int),
            held,
        ),
    decreases list.len() - k,
{
    let none = Seq::<PlacedModel>::empty();
    let len = list.len() as int;
    let sub = list.subrange(k, len);
    if k < len {
        let edit = EditModel::Move { from: list[k].0, to: list[k].1 };
        let one = edits_add(none, pos, prio, edit);
        let rest = edits_add_moves(none, pos, prio, list, k + 1);
        lemma_add_moves(one, pos, prio, list, k + 1);
        let after = after_move(list[k], held);
        lemma_run_concat(one, rest, held);
        assert(sub.drop_first() =~= list.subrange(k + 1, len));
        assert(sub[0] == list[k]);
        if list[k].0 == list[k].1 {
            assert(after =~= held);
            assert(run_edits(one, held) == after);
        } else {
            assert(one.drop_last() =~= none);
            assert(one.last().edit == edit);
            assert(run_edits(none, held) == held);
            assert(run_edits(one, held) == after);
        }
        lemma_run_added(pos, prio, list, k + 1, after);
    }
}

/// Done in their order, the edits of one place have the effect of the moves of that place happening
/// in parallel, whatever the locations hold.
pub proof fn law_group_in_parallel(
    c: Ctx,
    vregs: Seq<VRegData>,
    moves: Seq<InsertedMove>,
    params: Seq<BlockparamAlloc>,
    k: int,
    held: spec_fn(Allocation) -> int,
)
    requires
        points_fit(moves),
        k % 8 != 1,
        edits_all(c, vregs, moves, params) is Ok,
        dests_ok(pairs_of(moves_at(moves, k)), scratch_of(c, moves_at(moves, k))),
    ensures
        moved(
            pairs_of(moves_at(moves, k)),
            scratch_of(c, moves_at(moves, k)),
            held,
            run_edits(edits_at(edits_all(c, vregs, moves, params)->Ok_0, k), held),
        ),
{
    let group = moves_at(moves, k);
    law_group_edits(c, vregs, moves, params, k);
    if group.len() > 0 {
        let list = in_sequence(pairs_of(group), scratch_of(c, group));
        assert(group.contains(group[0]));
        moves.lemma_filter_contains_rev(has_key(k), group[0]);
        let i = choose|i: int| 0 <= i < moves.len() && moves[i] == group[0];
        assert(moves[i].pos.ix() <= u32::MAX);
        law_sequence_is_parallel(pairs_of(group), scratch_of(c, group), held);
        lemma_run_added(group[0].pos, group[0].prio, list, 0, held);
        assert(list.subrange(0, list.len() as int) =~= list);
    }
}

/// The pairs of a place are those of its moves that are not from a location to itself. Where moves
/// with one destination have one source, pairs have.
pub proof fn lemma_pairs_at(moves: Seq<InsertedMove>, k: int)
    ensures
        ({
            let pairs = pairs_of(moves_at(moves, k));
            &&& forall|a: int|
                0 <= a < pairs.len() ==> exists|i: int|
                    #![trigger moves[i]]
                    0 <= i < moves.len() && moves[i].key() == k && moves[i].from_alloc
                        != moves[i].to_alloc && #[trigger] pairs[a] == (
                        moves[i].from_alloc,
                        moves[i].to_alloc,
                    )
            &&& forall|i: int|
                0 <= i < moves.len() && (#[trigger] moves[i]).key() == k && moves[i].from_alloc
                    != moves[i].to_alloc ==> pairs.contains(
                    (moves[i].from_alloc, moves[i].to_alloc),
                )
            &&& (forall|i: int, j: int|
                #![trigger moves[i], moves[j]]
                0 <= i < j < moves.len() && moves[i].key() == k && moves[j].key() == k
                    && moves[i].to_alloc == moves[j].to_alloc ==> moves[i].from_alloc
                    == moves[j].from_alloc) ==> (forall|a: int, b: int|
                #![trigger pairs[a], pairs[b]]
                0 <= a < b < pairs.len() && pairs[a].1 == pairs[b].1 ==> pairs[a].0 == pairs[b].0)
        }),
    decreases moves.len(),
{
    reveal(Seq::filter);
    let pairs = pairs_of(moves_at(moves, k));
    if moves.len() > 0 {
        let init = moves.drop_last();
        let m = moves.last();
        let n = moves.len() - 1;
        lemma_pairs_at(init, k);
        let old = pairs_of(moves_at(init, k));
        assert(forall|i: int| 0 <= i < init.len() ==> #[trigger] init[i] == moves[i]);
        if m.key() == k {
            let g = moves_at(init, k);
            let h = g.push(m);
            assert(moves_at(moves, k) == h);
            lemma_group_pairs(h, 0, g.len() as int, g.len() as int);
            assert(h.subrange(0, g.len() as int) =~= g);
            assert(group_pairs(h, 0, g.len() as int) == old);
            if m.from_alloc != m.to_alloc {
                assert(pairs == old.push((m.from_alloc, m.to_alloc)));
                assert(pairs[old.len() as int] == (m.from_alloc, m.to_alloc));
                assert(moves[n] == m);
            } else {
                assert(pairs == old);
            }
        } else {
            assert(pairs == old);
        }
        assert forall|a: int| 0 <= a < pairs.len() implies exists|i: int|
            #![trigger moves[i]]
            0 <= i < moves.len() && moves[i].key() == k && moves[i].from_alloc != moves[i].to_alloc
                && #[trigger] pairs[a] == (moves[i].from_alloc, moves[i].to_alloc) by {
            if a < old.len() {
                assert(pairs[a] == old[a]);
                let i = choose|i: int|
                    #![trigger init[i]]
                    0 <= i < init.len() && init[i].key() == k && init[i].from_alloc
                        != init[i].to_alloc && old[a] == (init[i].from_alloc, init[i].to_alloc);
                assert(moves[i] == init[i]);
            } else {
                assert(moves[n] == m);
            }
        }
        assert forall|i: int|
            0 <= i < moves.len() && (#[trigger] moves[i]).key() == k && moves[i].from_alloc
                != moves[i].to_alloc implies pairs.contains(
            (moves[i].from_alloc, moves[i].to_alloc),
        ) by {
            if i < n {
                assert(init[i] == moves[i]);
                let a = choose|a: int|
                    0 <= a < old.len() && old[a] == (moves[i].from_alloc, moves[i].to_alloc);
                assert(pairs[a] == old[a]);
            }
        }
        if forall|i: int, j: int|
            #![trigger moves[i], moves[j]]
            0 <= i < j < moves.len() && moves[i].key() == k && moves[j].key() == k
                && moves[i].to_alloc == moves[j].to_alloc ==> moves[i].from_alloc
                == moves[j].from_alloc {
            assert forall|i: int, j: int|
                #![trigger init[i], init[j]]
                0 <= i < j < init.len() && init[i].key() == k && init[j].key() == k
                    && init[i].to_alloc == init[j].to_alloc implies init[i].from_alloc
                == init[j].from_alloc by {
                assert(moves[i] == init[i] && moves[j] == init[j]);
            }
            assert forall|a: int, b: int|
                #![trigger pairs[a], pairs[b]]
                0 <= a < b < pairs.len() && pairs[a].1 == pairs[b].1 implies pairs[a].0
                == pairs[b].0 by {
                assert(pairs[a] == old[a]);
                if b < old.len() {
                    assert(pairs[b] == old[b]);
                } else {
                    let i = choose|i: int|
                        #![trigger init[i]]
                        0 <= i < init.len() && init[i].key() == k && init[i].from_alloc
                            != init[i].to_alloc && old[a] == (init[i].from_alloc, init[i].to_alloc);
                    assert(moves[i] == init[i]);
                    assert(moves[n] == m);
                }
            }
        }
    }
}

/// No pair of a place goes to the location that a move from it to itself is for, where moves with one
/// destination have one source.
pub proof fn lemma_self_kept(moves: Seq<InsertedMove>, k: int, i: int)
    requires
        0 <= i < moves.len(),
        moves[i].key() == k,
        moves[i].from_alloc == moves[i].to_alloc,
        forall|j: int|
            0 <= j < moves.len() && (#[trigger] moves[j]).key() == k && moves[j].to_alloc
                == moves[i].to_alloc ==> moves[j].from_alloc == moves[i].from_alloc,
    ensures
        forall|n: int|
            0 <= n < pairs_of(moves_at(moves, k)).len() ==> (#[trigger] pairs_of(
                moves_at(moves, k),
            )[n]).1 != moves[i].to_alloc,
{
    let pairs = pairs_of(moves_at(moves, k));
    lemma_pairs_at(moves, k);
    assert forall|n: int| 0 <= n < pairs.len() implies (#[trigger] pairs[n]).1
        != moves[i].to_alloc by {
        let j = choose|j: int|
            #![trigger moves[j]]
            0 <= j < moves.len() && moves[j].key() == k && moves[j].from_alloc != moves[j].to_alloc
                && pairs[n] == (moves[j].from_alloc, moves[j].to_alloc);
        assert(moves[j].key() == k);
    }
}

proof fn lemma_added_move(
    edits: Seq<PlacedModel>,
    pos: ProgPoint,
    prio: InsertMovePrio,
    list: Seq<MovePair>,
    k: int,
    n: int,
)
    requires
        0 <= k <= list.len(),
        edits.len() <= n < edits_add_moves(edits, pos, prio, list, k).len(),
    ensures
        exists|j: int|
            k <= j < list.len() && edits_add_moves(edits, pos, prio, list, k)[n].edit == (
            EditModel::Move { from: (#[trigger] list[j]).0, to: list[j].1 }),
    decreases list.len() - k,
{
    if k < list.len() {
        let t = edits_add(edits, pos, prio, EditModel::Move { from: list[k].0, to: list[k].1 });
        if n < t.len() {
            lemma_added_stay(t, pos, prio, list, k + 1, n);
            assert(t[n].edit == EditModel::Move { from: list[k].0, to: list[k].1 });
        } else {
            lemma_added_move(t, pos, prio, list, k + 1, n);
        }
    }
}

proof fn lemma_added_stay(
    edits: Seq<PlacedModel>,
    pos: ProgPoint,
    prio: InsertMovePrio,
    list: Seq<MovePair>,
    k: int,
    n: int,
)
    requires
        0 <= n < edits.len(),
    ensures
        n < edits_add_moves(edits, pos, prio, list, k).len(),
        edits_add_moves(edits, pos, prio, list, k)[n] == edits[n],
    decreases list.len() - k,
{
    if 0 <= k < list.len() {
        let t = edits_add(edits, pos, prio, EditModel::Move { from: list[k].0, to: list[k].1 });
        lemma_added_stay(t, pos, prio, list, k + 1, n);
    }
}

/// Where the moves of one place are all between locations of one class, and the scratch register of
/// the class is of the class, the edits of the place are.
pub proof fn law_moves_keep_class(
    c: Ctx,
    vregs: Seq<VRegData>,
    moves: Seq<InsertedMove>,
    params: Seq<BlockparamAlloc>,
    k: int,
    class: RegClass,
    n: int,
)
    requires
        points_fit(moves),
        k % 8 != 1,
        edits_all(c, vregs, moves, params) is Ok,
        c.m.scratch_by_class[class.ix()].class == class,
        forall|i: int|
            0 <= i < moves.len() && (#[trigger] moves[i]).key() == k ==> moves[i].from_alloc.class()
                == Some(class) && moves[i].to_alloc.class() == Some(class),
        0 <= n < edits_at(edits_all(c, vregs, moves, params)->Ok_0, k).len(),
    ensures
        edits_at(edits_all(c, vregs, moves, params)->Ok_0, k)[n].edit matches EditModel::Move {
            from,
            to,
        } && from != to && from.class() == Some(class) && to.class() == Some(class),
{
    law_group_edits(c, vregs, moves, params, k);
    let group = moves_at(moves, k);
    let pairs = pairs_of(group);
    let kind = |a: Allocation| a.class() == Some(class);
    lemma_pairs_at(moves, k);
    assert(group.len() > 0);
    let f = has_key::<InsertedMove>(k);
    moves.lemma_filter_contains_rev(f, group[0]);
    let i = choose|i: int| 0 <= i < moves.len() && moves[i] == group[0];
    broadcast use vstd::seq_lib::group_filter_ensures;

    assert(f(group[0]));
    assert(moves[i].key() == k);
    let scratch = scratch_of(c, group);
    assert(kind(scratch));
    assert forall|j: int| 0 <= j < pairs.len() implies kind((#[trigger] pairs[j]).0) && kind(
        pairs[j].1,
    ) by {
        let m = choose|m: int|
            #![trigger moves[m]]
            0 <= m < moves.len() && moves[m].key() == k && moves[m].from_alloc != moves[m].to_alloc
                && pairs[j] == (moves[m].from_alloc, moves[m].to_alloc);
    }
    let list = in_sequence(pairs, scratch);
    let none = Seq::<PlacedModel>::empty();
    lemma_added_move(none, group[0].pos, group[0].prio, list, 0, n);
    let j = choose|j: int|
        0 <= j < list.len() && edits_add_moves(none, group[0].pos, group[0].prio, list, 0)[n].edit
            == (EditModel::Move { from: (#[trigger] list[j]).0, to: list[j].1 });
    law_sequence_within(pairs, scratch, kind, j);
    lemma_added_differ(none, group[0].pos, group[0].prio, list, 0);
}

/// No edit moves a value from a location to itself.
proof fn lemma_added_differ(
    edits: Seq<PlacedModel>,
    pos: ProgPoint,
    prio: InsertMovePrio,
    list: Seq<MovePair>,
    k: int,
)
    requires
        forall|i: int|
            0 <= i < edits.len() ==> ((#[trigger] edits[i]).edit matches EditModel::Move { from, to }
                ==> from != to),
    ensures
        forall|i: int|
            0 <= i < edits_add_moves(edits, pos, prio, list, k).len() ==> ((
            #[trigger] edits_add_moves(edits, pos, prio, list, k)[i]).edit matches EditModel::Move {
                from,
                to,
            } ==> from != to),
    decreases list.len() - k,
{
    if 0 <= k < list.len() {
        lemma_added_differ(
            edits_add(edits, pos, prio, EditModel::Move { from: list[k].0, to: list[k].1 }),
            pos,
            prio,
            list,
            k + 1,
        );
    }
}

/// None of the edits moves a value from a location to itself.
spec fn no_idle(edits: Seq<PlacedModel>) -> bool {
    forall|i: int|
        0 <= i < edits.len() ==> ((#[trigger] edits[i]).edit matches EditModel::Move { from, to }
            ==> from != to)
}

proof fn lemma_moves_not_idle(c: Ctx, moves: Seq<InsertedMove>, i: int, edits: Seq<PlacedModel>)
    requires
        no_idle(edits),
    ensures
        edits_moves(c, moves, i, edits) matches Ok(t) ==> no_idle(t),
    decreases moves.len() - i,
{
    let n = group_end(moves, i, i + 1);
    if 0 <= i < moves.len() {
        if let Some(class) = moves[i].from_alloc.class() {
            let list = in_sequence(
                group_pairs(moves, i, n),
                Allocation::Reg(c.m.scratch_by_class[class.ix()]),
            );
            let t = edits_add_moves(edits, moves[i].pos, moves[i].prio, list, 0);
            lemma_added_differ(edits, moves[i].pos, moves[i].prio, list, 0);
            if i < n <= moves.len() {
                lemma_moves_not_idle(c, moves, n, t);
            }
        }
    }
}

proof fn lemma_params_not_idle(
    c: Ctx,
    vregs: Seq<VRegData>,
    params: Seq<BlockparamAlloc>,
    i: int,
    edits: Seq<PlacedModel>,
)
    requires
        no_idle(edits),
    ensures
        edits_params(c, vregs, params, i, edits) matches Ok(t) ==> no_idle(t),
    decreases params.len() - i,
{
    let b = params[i].0;
    let n = params_end(params, b, i + 1);
    if 0 <= i < params.len() && n - i == c.f.params[b.ix()].len() {
        let edit = params_edit(vregs, params, i, n);
        let t = edits_add(edits, c.cfg.block_entry[b.ix()], InsertMovePrio::BlockParam, edit);
        if i < n <= params.len() {
            lemma_params_not_idle(c, vregs, params, n, t);
        }
    }
}

/// No edit moves a value from a location to itself.
pub proof fn law_no_idle_moves(
    c: Ctx,
    vregs: Seq<VRegData>,
    moves: Seq<InsertedMove>,
    params: Seq<BlockparamAlloc>,
    n: int,
)
    requires
        edits_all(c, vregs, moves, params) is Ok,
        0 <= n < edits_all(c, vregs, moves, params)->Ok_0.len(),
    ensures
        edits_all(c, vregs, moves, params)->Ok_0[n].edit matches EditModel::Move { from, to }
            ==> from != to,
{
    let none = Seq::<PlacedModel>::empty();
    lemma_moves_not_idle(c, stable_sort(moves), 0, none);
    let t = edits_moves(c, stable_sort(moves), 0, none)->Ok_0;
    lemma_params_not_idle(c, vregs, stable_sort(params), 0, t);
    let u = edits_params(c, vregs, stable_sort(params), 0, t)->Ok_0;
    lemma_sorted_member(u, n);
}

} // verus!
