//! Moves that happen in parallel, in an order in which they can be done one at a time.
use crate::reg::Allocation;
use vstd::prelude::*;

verus! {

/// A move: source and destination.
pub type MovePair = (Allocation, Allocation);

/// Is the location a source of a move other than the one at `except`?
pub open spec fn is_read(moves: Seq<MovePair>, a: Allocation, except: int) -> bool {
    exists|j: int| 0 <= j < moves.len() && j != except && (#[trigger] moves[j]).0 == a
}

/// The first position from `i` on whose move overwrites no source of another one; the length if
/// there is none.
pub open spec fn first_free(moves: Seq<MovePair>, i: int) -> int
    decreases moves.len() - i,
{
    if i < 0 || i >= moves.len() {
        moves.len() as int
    } else if !is_read(moves, moves[i].1, i) {
        i
    } else {
        first_free(moves, i + 1)
    }
}

/// The moves with `to` for every source `from`.
pub open spec fn redirect(moves: Seq<MovePair>, from: Allocation, to: Allocation) -> Seq<MovePair> {
    Seq::new(
        moves.len(),
        |j: int|
            if moves[j].0 == from {
                (to, moves[j].1)
            } else {
                moves[j]
            },
    )
}

/// The moves one at a time: a move goes first that overwrites no source of another one. Where there
/// is none, what the first move overwrites is saved in `scratch`, and read there from then on.
pub open spec fn in_sequence(moves: Seq<MovePair>, scratch: Allocation) -> Seq<MovePair>
    decreases moves.len(),
{
    let i = first_free(moves, 0);
    if moves.len() == 0 {
        Seq::empty()
    } else if 0 <= i < moves.len() {
        seq![moves[i]] + in_sequence(moves.remove(i), scratch)
    } else {
        let m = moves[0];
        seq![(m.1, scratch), m] + in_sequence(redirect(moves.remove(0), m.1, scratch), scratch)
    }
}

/// What the locations hold after one move.
pub open spec fn after_move(m: MovePair, held: spec_fn(Allocation) -> int) -> spec_fn(Allocation) -> int {
    |a: Allocation|
        if a == m.1 {
            held(m.0)
        } else {
            held(a)
        }
}

/// What the locations hold after the moves were done one at a time.
pub open spec fn run_moves(
    moves: Seq<MovePair>,
    held: spec_fn(Allocation) -> int,
) -> spec_fn(Allocation) -> int
    decreases moves.len(),
{
    if moves.len() == 0 {
        held
    } else {
        run_moves(moves.drop_first(), after_move(moves[0], held))
    }
}

/// No two moves from different sources have one destination, and none of them is `scratch`.
pub open spec fn dests_ok(moves: Seq<MovePair>, scratch: Allocation) -> bool {
    &&& forall|i: int, j: int|
        #![trigger moves[i], moves[j]]
        0 <= i < j < moves.len() && moves[i].1 == moves[j].1 ==> moves[i].0 == moves[j].0
    &&& forall|i: int| 0 <= i < moves.len() ==> (#[trigger] moves[i]).1 != scratch
}

/// After a move every destination holds what its source held before, and every other location but
/// `scratch` what it held.
pub open spec fn moved(
    moves: Seq<MovePair>,
    scratch: Allocation,
    before: spec_fn(Allocation) -> int,
    after: spec_fn(Allocation) -> int,
) -> bool {
    &&& forall|i: int| 0 <= i < moves.len() ==> after((#[trigger] moves[i]).1) == before(moves[i].0)
    &&& forall|a: Allocation|
        a != scratch && (forall|i: int| 0 <= i < moves.len() ==> (#[trigger] moves[i]).1 != a)
            ==> #[trigger] after(a) == before(a)
}

proof fn lemma_first_free(moves: Seq<MovePair>, i: int)
    requires
        0 <= i <= moves.len(),
    ensures
        i <= first_free(moves, i) <= moves.len(),
        first_free(moves, i) < moves.len() ==> !is_read(
            moves,
            moves[first_free(moves, i)].1,
            first_free(moves, i),
        ),
        forall|j: int|
            i <= j < first_free(moves, i) ==> #[trigger] is_read(moves, moves[j].1, j),
    decreases moves.len() - i,
{
    if i < moves.len() && is_read(moves, moves[i].1, i) {
        lemma_first_free(moves, i + 1);
    }
}

proof fn lemma_no_scratch_if_stuck(moves: Seq<MovePair>, scratch: Allocation)
    requires
        dests_ok(moves, scratch),
        first_free(moves, 0) == moves.len(),
    ensures
        forall|j: int| 0 <= j < moves.len() ==> (#[trigger] moves[j]).0 != scratch,
{
    if exists|j: int| 0 <= j < moves.len() && (#[trigger] moves[j]).0 == scratch {
        let k = choose|j: int| 0 <= j < moves.len() && (#[trigger] moves[j]).0 == scratch;
        let dests = Seq::new(moves.len(), |j: int| moves[j].1);
        let source = |d: Allocation|
            moves[choose|j: int| 0 <= j < moves.len() && (#[trigger] moves[j]).1 == d].0;
        let all = dests.to_set();
        let sources = all.map(source);
        lemma_first_free(moves, 0);
        assert forall|j: int| 0 <= j < moves.len() implies sources.contains(
            (#[trigger] moves[j]).0,
        ) by {
            assert(dests[j] == moves[j].1);
            assert(all.contains(moves[j].1));
            let i = choose|i: int| 0 <= i < moves.len() && (#[trigger] moves[i]).1 == moves[j].1;
            assert(moves[i].0 == moves[j].0);
            assert(source(moves[j].1) == moves[j].0);
        }
        assert forall|a: Allocation| all.insert(scratch).contains(a) implies sources.contains(a) by {
            if a == scratch {
                assert(moves[k].0 == a);
            } else {
                assert(dests.contains(a));
                let i = choose|i: int| 0 <= i < dests.len() && dests[i] == a;
                assert(is_read(moves, moves[i].1, i));
                let j = choose|j: int|
                    0 <= j < moves.len() && j != i && (#[trigger] moves[j]).0 == a;
                assert(moves[j].0 == a);
            }
        }
        assert(!all.contains(scratch)) by {
            if dests.contains(scratch) {
                let i = choose|i: int| 0 <= i < dests.len() && dests[i] == scratch;
                assert(moves[i].1 == scratch);
            }
        }
        vstd::seq_lib::seq_to_set_is_finite(dests);
        vstd::set_lib::lemma_map_size_bound(all, sources, source);
        vstd::set_lib::lemma_len_subset(all.insert(scratch), sources);
    }
}

/// Done one at a time, the moves have the effect of moves that happen in parallel, whatever the
/// locations hold.
pub proof fn law_sequence_is_parallel(
    moves: Seq<MovePair>,
    scratch: Allocation,
    held: spec_fn(Allocation) -> int,
)
    requires
        dests_ok(moves, scratch),
    ensures
        moved(moves, scratch, held, run_moves(in_sequence(moves, scratch), held)),
    decreases moves.len(),
{
    let list = in_sequence(moves, scratch);
    let after = run_moves(list, held);
    lemma_first_free(moves, 0);
    let i = first_free(moves, 0);
    if moves.len() == 0 {
        assert(after == held);
    } else if i < moves.len() {
        let m = moves[i];
        let rest = moves.remove(i);
        let h1 = after_move(m, held);
        assert(list.drop_first() =~= in_sequence(rest, scratch));
        assert(list[0] == m);
        assert(dests_ok(rest, scratch)) by {
            assert forall|p: int, q: int|
                #![trigger rest[p], rest[q]]
                0 <= p < q < rest.len() && rest[p].1 == rest[q].1 implies rest[p].0 == rest[q].0 by {
                let p1 = if p < i { p } else { p + 1 };
                let q1 = if q < i { q } else { q + 1 };
                assert(moves[p1] == rest[p] && moves[q1] == rest[q]);
            }
        }
        law_sequence_is_parallel(rest, scratch, h1);
        assert(after == run_moves(in_sequence(rest, scratch), h1));
        assert forall|j: int| 0 <= j < moves.len() implies after((#[trigger] moves[j]).1) == held(
            moves[j].0,
        ) by {
            if j == i {
                assert(moves[i].1 != scratch);
                if exists|k: int| 0 <= k < rest.len() && (#[trigger] rest[k]).1 == m.1 {
                    let k = choose|k: int| 0 <= k < rest.len() && (#[trigger] rest[k]).1 == m.1;
                    let k1 = if k < i { k } else { k + 1 };
                    assert(moves[k1] == rest[k]);
                    assert(moves[k1].0 == moves[i].0);
                    assert(after(rest[k].1) == h1(rest[k].0));
                } else {
                    assert(after(m.1) == h1(m.1));
                }
            } else {
                let j1 = if j < i { j } else { j - 1 };
                assert(rest[j1] == moves[j]);
                assert(!is_read(moves, m.1, i));
                assert(moves[j].0 != m.1);
                assert(after(rest[j1].1) == h1(rest[j1].0));
            }
        }
        assert forall|a: Allocation|
            a != scratch && (forall|j: int| 0 <= j < moves.len() ==> (#[trigger] moves[j]).1
                != a) implies #[trigger] after(a) == held(a) by {
            assert(moves[i].1 != a);
            assert forall|j: int| 0 <= j < rest.len() implies (#[trigger] rest[j]).1 != a by {
                let j1 = if j < i { j } else { j + 1 };
                assert(moves[j1] == rest[j]);
            }
            assert(after(a) == h1(a));
        }
    } else {
        let m = moves[0];
        let others = moves.remove(0);
        let rest = redirect(others, m.1, scratch);
        let h1 = after_move((m.1, scratch), held);
        let h2 = after_move(m, h1);
        lemma_no_scratch_if_stuck(moves, scratch);
        assert(list.drop_first().drop_first() =~= in_sequence(rest, scratch));
        assert(list.drop_first()[0] == m);
        assert(list[0] == (m.1, scratch));
        assert(after == run_moves(list.drop_first(), h1));
        assert(after == run_moves(in_sequence(rest, scratch), h2));
        assert forall|j: int| 0 <= j < rest.len() implies #[trigger] rest[j].1 == moves[j + 1].1 by {
            assert(others[j] == moves[j + 1]);
        }
        assert(dests_ok(rest, scratch)) by {
            assert forall|p: int, q: int|
                #![trigger rest[p], rest[q]]
                0 <= p < q < rest.len() && rest[p].1 == rest[q].1 implies rest[p].0 == rest[q].0 by {
                assert(others[p] == moves[p + 1] && others[q] == moves[q + 1]);
                assert(moves[p + 1].0 == moves[q + 1].0);
            }
        }
        law_sequence_is_parallel(rest, scratch, h2);
        assert(h2(m.1) == held(m.0)) by {
            assert(moves[0].0 != scratch);
        }
        assert forall|j: int| 0 <= j < moves.len() implies after((#[trigger] moves[j]).1) == held(
            moves[j].0,
        ) by {
            if j == 0 {
                assert(moves[0].1 != scratch);
                if exists|k: int| 0 <= k < rest.len() && (#[trigger] rest[k]).1 == m.1 {
                    let k = choose|k: int| 0 <= k < rest.len() && (#[trigger] rest[k]).1 == m.1;
                    assert(others[k] == moves[k + 1]);
                    assert(moves[0].0 == moves[k + 1].0);
                    assert(after(rest[k].1) == h2(rest[k].0));
                    assert(moves[0].0 != scratch);
                } else {
                    assert(after(m.1) == h2(m.1));
                }
            } else {
                assert(others[j - 1] == moves[j]);
                assert(rest[j - 1].1 == moves[j].1);
                assert(after(rest[j - 1].1) == h2(rest[j - 1].0));
                assert(moves[0].1 != scratch);
                if moves[j].0 == m.1 {
                    assert(rest[j - 1].0 == scratch);
                    assert(h2(scratch) == held(m.1));
                } else {
                    assert(rest[j - 1].0 == moves[j].0);
                    assert(moves[j].0 != scratch);
                }
            }
        }
        assert forall|a: Allocation|
            a != scratch && (forall|j: int| 0 <= j < moves.len() ==> (#[trigger] moves[j]).1
                != a) implies #[trigger] after(a) == held(a) by {
            assert(moves[0].1 != a);
            assert forall|j: int| 0 <= j < rest.len() implies (#[trigger] rest[j]).1 != a by {
                assert(moves[j + 1].1 != a);
            }
            assert(after(a) == h2(a));
        }
    }
}

/// Moves that are to happen in parallel.
#[derive(Debug)]
pub struct ParallelMoves {
    pub parallel_moves: Vec<MovePair>,
    pub scratch: Allocation,
}

impl ParallelMoves {
    /// No moves yet; `scratch` is a location that is free.
    pub fn new(scratch: Allocation) -> (r: Self)
        ensures
            r.scratch == scratch,
            r.parallel_moves@ == Seq::<MovePair>::empty(),
    {
        ParallelMoves { parallel_moves: Vec::new(), scratch }
    }

    /// One more move.
    pub fn add(&mut self, from: Allocation, to: Allocation)
        ensures
            final(self).scratch == old(self).scratch,
            final(self).parallel_moves@ == old(self).parallel_moves@.push((from, to)),
    {
        self.parallel_moves.push((from, to));
    }

    /// Does the move at `i` overwrite no source of another one?
    fn is_free(moves: &Vec<MovePair>, i: usize) -> (r: bool)
        requires
            i < moves@.len(),
        ensures
            r == !is_read(moves@, moves@[i as int].1, i as int),
    {
        let dst = moves[i].1;
        let mut j: usize = 0;
        while j < moves.len()
            invariant
                j <= moves@.len(),
                i < moves@.len(),
                dst == moves@[i as int].1,
                forall|k: int| 0 <= k < j && k != i ==> (#[trigger] moves@[k]).0 != dst,
            decreases moves@.len() - j,
        {
            if j != i && moves[j].0 == dst {
                assert(moves@[j as int].0 == dst);
                return false;
            }
            j += 1;
        }
        true
    }

    /// The moves in an order in which they can be done one at a time.
    pub fn resolve(self) -> (r: Vec<MovePair>)
        ensures
            r@ == in_sequence(self.parallel_moves@, self.scratch),
    {
        let scratch = self.scratch;
        let ghost all = self.parallel_moves@;
        let mut moves = self.parallel_moves;
        let mut done: Vec<MovePair> = Vec::new();
        assert(done@ + in_sequence(moves@, scratch) =~= in_sequence(all, scratch));
        while moves.len() > 0
            invariant
                done@ + in_sequence(moves@, scratch) == in_sequence(all, scratch),
            decreases moves@.len(),
        {
            let mut i: usize = 0;
            while i < moves.len() && !Self::is_free(&moves, i)
                invariant
                    i <= moves@.len(),
                    first_free(moves@, 0) == first_free(moves@, i as int),
                decreases moves@.len() - i,
            {
                i += 1;
            }
            assert(first_free(moves@, 0) == i);
            let ghost before = moves@;
            let ghost d = done@;
            if i < moves.len() {
                let m = moves.remove(i);
                done.push(m);
                assert(moves@ =~= before.remove(i as int));
                assert(done@ + in_sequence(moves@, scratch) =~= d + (seq![m] + in_sequence(
                    moves@,
                    scratch,
                )));
            } else {
                let m = moves.remove(0);
                assert(moves@ =~= before.remove(0));
                let ghost others = moves@;
                done.push((m.1, scratch));
                done.push(m);
                let mut j: usize = 0;
                while j < moves.len()
                    invariant
                        j <= moves@.len(),
                        moves@.len() == others.len(),
                        forall|k: int|
                            0 <= k < j ==> #[trigger] moves@[k] == redirect(
                                others,
                                m.1,
                                scratch,
                            )[k],
                        forall|k: int| j <= k < moves@.len() ==> #[trigger] moves@[k] == others[k],
                    decreases moves@.len() - j,
                {
                    if moves[j].0 == m.1 {
                        let dst = moves[j].1;
                        moves.set(j, (scratch, dst));
                    }
                    j += 1;
                }
                assert(moves@ =~= redirect(others, m.1, scratch));
                assert(done@ + in_sequence(moves@, scratch) =~= d + (seq![(m.1, scratch), m]
                    + in_sequence(moves@, scratch)));
            }
        }
        assert(done@ + in_sequence(moves@, scratch) =~= done@);
        done
    }
}

/// Where all locations of the moves, and `scratch`, are of a kind, those that the moves go through one
/// at a time are.
pub proof fn law_sequence_within(
    moves: Seq<MovePair>,
    scratch: Allocation,
    kind: spec_fn(Allocation) -> bool,
    k: int,
)
    requires
        kind(scratch),
        forall|i: int| 0 <= i < moves.len() ==> kind((#[trigger] moves[i]).0) && kind(moves[i].1),
        0 <= k < in_sequence(moves, scratch).len(),
    ensures
        kind(in_sequence(moves, scratch)[k].0),
        kind(in_sequence(moves, scratch)[k].1),
    decreases moves.len(),
{
    let i = first_free(moves, 0);
    if 0 <= i < moves.len() {
        if k > 0 {
            law_sequence_within(moves.remove(i), scratch, kind, k - 1);
        } else {
            let _ = moves[i];
        }
    } else {
        let m = moves[0];
        let rest = redirect(moves.remove(0), m.1, scratch);
        if k > 1 {
            assert forall|j: int| 0 <= j < rest.len() implies kind((#[trigger] rest[j]).0) && kind(
                rest[j].1,
            ) by {
                let _ = moves[j + 1];
            }
            law_sequence_within(rest, scratch, kind, k - 2);
        }
    }
}

} // verus!
