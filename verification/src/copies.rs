//! The moves that copy reused inputs and further fixed-register demands.
use crate::apply::{
    apply_all, apply_fixups, apply_in_ok, apply_move, apply_moves_to, apply_pairs, apply_reuse,
    apply_reuse_operands, apply_set_alloc, apply_vregs, edge_place, lemma_place, next_source,
    operand_place, other_key, ApplyIn, ApplyState,
};
use crate::carry::{all_splits, lemma_vregs_all_splits};
use crate::data::{InsertMovePrio, InsertedMove};
use crate::func::{func_ok, inst_ok, operand_ok, operands_before, FuncModel};
use crate::halfmove::HalfMove;
use crate::index::Inst;
use crate::liveness::{Ctx, Fixup};
use crate::operands::{before_reuse, lemma_reuse_operands_other, reuse_clean};
use crate::reg::{Allocation, OperandPolicy, ProgPoint};
use crate::sort::stable_sort;
use vstd::prelude::*;

verus! {

/// None of the moves copies a reused input or meets a further fixed-register demand.
pub open spec fn no_copies(moves: Seq<InsertedMove>) -> bool {
    forall|i: int|
        0 <= i < moves.len() ==> !((#[trigger] moves[i]).prio is MultiFixedReg) && !(
        moves[i].prio is ReusedInput)
}

proof fn lemma_moves_to_plain(
    s: ApplyState,
    halves: Seq<HalfMove>,
    src: Allocation,
    place: (ProgPoint, InsertMovePrio),
    i: int,
    n: int,
)
    requires
        no_copies(s.moves),
        !(place.1 is MultiFixedReg),
        !(place.1 is ReusedInput),
    ensures
        no_copies(apply_moves_to(s, halves, src, place, i, n).moves),
    decreases n - i,
{
    if i < n {
        lemma_moves_to_plain(
            apply_move(s, place.0, place.1, src, halves[i].alloc),
            halves,
            src,
            place,
            i + 1,
            n,
        );
    }
}

proof fn lemma_pairs_plain(f: FuncModel, s: ApplyState, halves: Seq<HalfMove>, i: int)
    requires
        no_copies(s.moves),
    ensures
        apply_pairs(f, s, halves, i) matches Ok(t) ==> no_copies(t.moves),
    decreases halves.len() - i,
{
    let k = next_source(halves, i);
    if !(i < 0 || k < i || k >= halves.len()) {
        let src = halves[k];
        let first = other_key(halves, src.key, k + 1);
        let last = other_key(halves, src.key | 1, first);
        if let Some(place) = edge_place(f, src.from_ix(), src.to_ix()) {
            lemma_moves_to_plain(s, halves, src.alloc, place, first, last);
            let t = apply_moves_to(s, halves, src.alloc, place, first, last);
            if k < last <= halves.len() {
                lemma_pairs_plain(f, t, halves, last);
            }
        }
    }
}

/// The move that a copy to a given register is.
pub open spec fn fixup_move(c: Ctx, x: Fixup) -> InsertedMove {
    InsertedMove {
        pos: x.0,
        prio: InsertMovePrio::MultiFixedReg,
        from_alloc: Allocation::Reg(c.m.regs[x.1.ix()]),
        to_alloc: Allocation::Reg(c.m.regs[x.2.ix()]),
    }
}

proof fn lemma_fixups_moves(c: Ctx, s: ApplyState, fixups: Seq<Fixup>, i: int)
    requires
        0 <= i <= fixups.len(),
    ensures
        apply_fixups(c, s, fixups, i).moves == s.moves + Seq::new(
            (fixups.len() - i) as nat,
            |k: int| fixup_move(c, fixups[i + k]),
        ),
    decreases fixups.len() - i,
{
    let all = Seq::new((fixups.len() - i) as nat, |k: int| fixup_move(c, fixups[i + k]));
    if i < fixups.len() {
        let x = fixups[i];
        let m = fixup_move(c, x);
        let t = apply_move(s, m.pos, m.prio, m.from_alloc, m.to_alloc);
        lemma_fixups_moves(c, t, fixups, i + 1);
        let rest = Seq::new((fixups.len() - i - 1) as nat, |k: int| fixup_move(c, fixups[i + 1 + k]));
        assert(s.moves.push(m) + rest =~= s.moves + all);
    } else {
        assert(s.moves + all =~= s.moves);
    }
}

/// The moves before reused inputs are copied: those of the copies to given registers, after others.
pub proof fn lemma_moves_before_reuse(x: ApplyIn, s: ApplyState, fixups: Seq<Fixup>)
    requires
        apply_in_ok(x),
        s.moves.len() == 0,
        apply_all(x, s, fixups) is Ok,
    ensures
        ({
            let moves = before_reuse(x, s, fixups).moves;
            &&& forall|i: int| 0 <= i < moves.len() ==> !((#[trigger] moves[i]).prio is ReusedInput)
            &&& forall|i: int|
                0 <= i < moves.len() && (#[trigger] moves[i]).prio is MultiFixedReg ==> exists|n: int|
                    0 <= n < fixups.len() && moves[i] == fixup_move(x.c, #[trigger] fixups[n])
            &&& forall|n: int|
                0 <= n < fixups.len() ==> moves.contains(fixup_move(x.c, #[trigger] fixups[n]))
        }),
{
    let s1 = apply_vregs(x, s, 0)->Ok_0;
    let s2 = apply_pairs(x.c.f, s1, stable_sort(s1.halves), 0)->Ok_0;
    let t = apply_fixups(x.c, s2, fixups, 0);
    assert(all_splits(s.moves));
    lemma_vregs_all_splits(x, s, 0);
    lemma_pairs_plain(x.c.f, s1, stable_sort(s1.halves), 0);
    lemma_fixups_moves(x.c, s2, fixups, 0);
    let n = s2.moves.len() as int;
    assert forall|i: int| 0 <= i < t.moves.len() && (#[trigger] t.moves[i]).prio is MultiFixedReg implies exists|
        k: int,
    |
        0 <= k < fixups.len() && t.moves[i] == fixup_move(x.c, #[trigger] fixups[k]) by {
        if i < n {
            assert(t.moves[i] == s2.moves[i]);
        } else {
            assert(t.moves[i] == fixup_move(x.c, fixups[i - n]));
        }
    }
    assert forall|i: int| 0 <= i < t.moves.len() implies !((#[trigger] t.moves[i]).prio is ReusedInput) by {
        if i < n {
            assert(t.moves[i] == s2.moves[i]);
        } else {
            assert(t.moves[i] == fixup_move(x.c, fixups[i - n]));
        }
    }
    assert forall|k: int| 0 <= k < fixups.len() implies t.moves.contains(
        fixup_move(x.c, #[trigger] fixups[k]),
    ) by {
        assert(t.moves[n + k] == fixup_move(x.c, fixups[k]));
    }
}

/// Operand `p` of the instruction reuses an input that is in another location.
pub open spec fn is_copied(f: FuncModel, allocs: Seq<Allocation>, inst: Inst, p: int) -> bool {
    let ops = f.operands[inst.ix()];
    &&& 0 <= p < ops.len()
    &&& ops[p].policy matches OperandPolicy::Reuse(k) && allocs[operand_place(f, inst, k as int)]
        != allocs[operand_place(f, inst, p)]
}

/// The move that copies the input that operand `p` reuses.
pub open spec fn reuse_move(f: FuncModel, allocs: Seq<Allocation>, inst: Inst, p: int) -> InsertedMove {
    let k = f.operands[inst.ix()][p].policy->Reuse_0;
    InsertedMove {
        pos: ProgPoint::before(inst),
        prio: InsertMovePrio::ReusedInput,
        from_alloc: allocs[operand_place(f, inst, k as int)],
        to_alloc: allocs[operand_place(f, inst, p)],
    }
}

/// Is the move one that copies a reused input at the instruction?
pub open spec fn copies_at(m: InsertedMove, inst: Inst) -> bool {
    m.prio is ReusedInput && m.pos == ProgPoint::before(inst)
}

/// The operands before position `i` that reuse inputs are done: the inputs are read where the
/// outputs are, and the other operands are where they were.
pub open spec fn reused_upto(
    f: FuncModel,
    before: Seq<Allocation>,
    after: Seq<Allocation>,
    inst: Inst,
    i: int,
) -> bool {
    let ops = f.operands[inst.ix()];
    &&& forall|p: int|
        0 <= p < i && p < ops.len() ==> ((#[trigger] ops[p]).policy matches OperandPolicy::Reuse(k)
            ==> after[operand_place(f, inst, k as int)] == before[operand_place(f, inst, p)])
    &&& forall|q: int|
        0 <= q < ops.len() && !input_upto(f, inst, q, i) ==> after[#[trigger] operand_place(
            f,
            inst,
            q,
        )] == before[operand_place(f, inst, q)]
}

/// Does an operand before position `i` reuse operand `q`?
pub open spec fn input_upto(f: FuncModel, inst: Inst, q: int, i: int) -> bool {
    let ops = f.operands[inst.ix()];
    exists|p: int|
        0 <= p < i && p < ops.len() && ((#[trigger] ops[p]).policy matches OperandPolicy::Reuse(k)
            && k == q)
}

/// The moves that copy reused inputs at the instruction are those of the operands before `hi`.
pub open spec fn copies_done(
    f: FuncModel,
    before: Seq<Allocation>,
    moves: Seq<InsertedMove>,
    inst: Inst,
    hi: int,
) -> bool {
    &&& forall|i: int|
        0 <= i < moves.len() && copies_at(#[trigger] moves[i], inst) ==> exists|p: int|
            p < hi && #[trigger] is_copied(f, before, inst, p) && moves[i] == reuse_move(
                f,
                before,
                inst,
                p,
            )
    &&& forall|p: int|
        p < hi && #[trigger] is_copied(f, before, inst, p) ==> moves.contains(
            reuse_move(f, before, inst, p),
        )
}

proof fn lemma_inst_copies(f: FuncModel, before: Seq<Allocation>, s: ApplyState, inst: Inst, i: int)
    requires
        func_ok(f),
        inst.0 < f.insts,
        0 <= i <= f.operands[inst.ix()].len(),
        before.len() == operands_before(f.operands, f.insts as int),
        s.allocs.len() == before.len(),
        reuse_clean(f, inst),
        reused_upto(f, before, s.allocs, inst, i),
        copies_done(f, before, s.moves, inst, i),
    ensures
        ({
            let t = apply_reuse_operands(f, s, inst, i);
            let n = f.operands[inst.ix()].len() as int;
            &&& t.allocs.len() == s.allocs.len()
            &&& reused_upto(f, before, t.allocs, inst, n)
            &&& copies_done(f, before, t.moves, inst, n)
        }),
    decreases f.operands[inst.ix()].len() - i,
{
    let ops = f.operands[inst.ix()];
    if i < ops.len() {
        assert(inst_ok(f, inst.ix()));
        assert(operand_ok(f, inst.ix(), f.operands[inst.ix()][i]));
        lemma_place(f, inst, i);
        if let OperandPolicy::Reuse(k) = ops[i].policy {
            lemma_place(f, inst, k as int);
            let a = s.allocs[operand_place(f, inst, k as int)];
            let b = s.allocs[operand_place(f, inst, i)];
            assert(!input_upto(f, inst, i, i)) by {
                if input_upto(f, inst, i, i) {
                    let p = choose|p: int|
                        0 <= p < i && p < ops.len() && ((
                        #[trigger] ops[p]).policy matches OperandPolicy::Reuse(l) && l == i);
                    let _ = (ops[p], ops[i]);
                }
            }
            assert(!input_upto(f, inst, k as int, i)) by {
                if input_upto(f, inst, k as int, i) {
                    let p = choose|p: int|
                        0 <= p < i && p < ops.len() && ((
                        #[trigger] ops[p]).policy matches OperandPolicy::Reuse(l) && l == k);
                    let _ = (ops[p], ops[i]);
                }
            }
            assert(a == before[operand_place(f, inst, k as int)]);
            assert(b == before[operand_place(f, inst, i)]);
            let u = if a != b {
                apply_set_alloc(
                    f,
                    apply_move(s, ProgPoint::before(inst), InsertMovePrio::ReusedInput, a, b),
                    inst,
                    k as int,
                    b,
                )
            } else {
                s
            };
            assert(reused_upto(f, before, u.allocs, inst, i + 1)) by {
                assert forall|p: int| 0 <= p < i + 1 && p < ops.len() implies ((
                #[trigger] ops[p]).policy matches OperandPolicy::Reuse(l)
                    ==> u.allocs[operand_place(f, inst, l as int)] == before[operand_place(
                    f,
                    inst,
                    p,
                )]) by {
                    if let OperandPolicy::Reuse(l) = ops[p].policy {
                        assert(operand_ok(f, inst.ix(), f.operands[inst.ix()][p]));
                        lemma_place(f, inst, l as int);
                        let _ = (ops[p], ops[i]);
                    }
                }
                assert forall|q: int| 0 <= q < ops.len() && !input_upto(f, inst, q, i + 1) implies u.allocs[
                #[trigger] operand_place(f, inst, q)] == before[operand_place(f, inst, q)] by {
                    lemma_place(f, inst, q);
                    assert(!input_upto(f, inst, q, i)) by {
                        if input_upto(f, inst, q, i) {
                            let p = choose|p: int|
                                0 <= p < i && p < ops.len() && ((
                                #[trigger] ops[p]).policy matches OperandPolicy::Reuse(l) && l
                                    == q);
                            assert(ops[p].policy->Reuse_0 == q);
                        }
                    }
                    assert(q != k) by {
                        let _ = ops[i];
                    }
                }
            }
            assert(copies_done(f, before, u.moves, inst, i + 1)) by {
                lemma_copies_step(f, before, s.moves, u.moves, inst, i);
            }
            lemma_inst_copies(f, before, u, inst, i + 1);
        } else {
            assert(reused_upto(f, before, s.allocs, inst, i + 1)) by {
                assert forall|q: int| 0 <= q < ops.len() && !input_upto(f, inst, q, i + 1) implies s.allocs[
                #[trigger] operand_place(f, inst, q)] == before[operand_place(f, inst, q)] by {
                    if input_upto(f, inst, q, i) {
                        let p = choose|p: int|
                            0 <= p < i && p < ops.len() && ((
                            #[trigger] ops[p]).policy matches OperandPolicy::Reuse(l) && l == q);
                        assert(ops[p].policy->Reuse_0 == q);
                    }
                }
            }
            lemma_copies_step(f, before, s.moves, s.moves, inst, i);
            lemma_inst_copies(f, before, s, inst, i + 1);
        }
    }
}

proof fn lemma_copies_step(
    f: FuncModel,
    before: Seq<Allocation>,
    moves: Seq<InsertedMove>,
    more: Seq<InsertedMove>,
    inst: Inst,
    i: int,
)
    requires
        copies_done(f, before, moves, inst, i),
        if is_copied(f, before, inst, i) {
            more == moves.push(reuse_move(f, before, inst, i))
        } else {
            more == moves
        },
    ensures
        copies_done(f, before, more, inst, i + 1),
{
    assert forall|j: int| 0 <= j < more.len() && copies_at(#[trigger] more[j], inst) implies exists|
        p: int,
    |
        p < i + 1 && #[trigger] is_copied(f, before, inst, p) && more[j] == reuse_move(
            f,
            before,
            inst,
            p,
        ) by {
        if j < moves.len() {
            assert(more[j] == moves[j]);
            let p = choose|p: int|
                p < i && #[trigger] is_copied(f, before, inst, p) && moves[j] == reuse_move(
                    f,
                    before,
                    inst,
                    p,
                );
            assert(is_copied(f, before, inst, p));
        } else {
            assert(is_copied(f, before, inst, i));
        }
    }
    assert forall|p: int| p < i + 1 && #[trigger] is_copied(f, before, inst, p) implies more.contains(
        reuse_move(f, before, inst, p),
    ) by {
        if p < i {
            let m = reuse_move(f, before, inst, p);
            let j = choose|j: int| 0 <= j < moves.len() && moves[j] == m;
            assert(more[j] == m);
        } else {
            assert(more[moves.len() as int] == reuse_move(f, before, inst, i));
        }
    }
}

/// The instruction is done: its reused inputs are read where the outputs are, and copied there.
pub open spec fn reuse_done(f: FuncModel, before: Seq<Allocation>, s: ApplyState, inst: Inst) -> bool {
    let n = f.operands[inst.ix()].len() as int;
    reused_upto(f, before, s.allocs, inst, n) && copies_done(f, before, s.moves, inst, n)
}

/// The instruction is not done yet.
pub open spec fn reuse_open(f: FuncModel, before: Seq<Allocation>, s: ApplyState, inst: Inst) -> bool {
    &&& forall|q: int|
        0 <= q < f.operands[inst.ix()].len() ==> s.allocs[#[trigger] operand_place(f, inst, q)]
            == before[operand_place(f, inst, q)]
    &&& forall|i: int| 0 <= i < s.moves.len() ==> !copies_at(#[trigger] s.moves[i], inst)
}

/// An instruction that is done stays as it is.
proof fn lemma_inst_again(f: FuncModel, before: Seq<Allocation>, s: ApplyState, inst: Inst, i: int)
    requires
        func_ok(f),
        inst.0 < f.insts,
        0 <= i,
        reuse_clean(f, inst),
        reused_upto(f, before, s.allocs, inst, f.operands[inst.ix()].len() as int),
    ensures
        apply_reuse_operands(f, s, inst, i) == s,
    decreases f.operands[inst.ix()].len() - i,
{
    let ops = f.operands[inst.ix()];
    if i < ops.len() {
        assert(inst_ok(f, inst.ix()));
        assert(operand_ok(f, inst.ix(), f.operands[inst.ix()][i]));
        if let OperandPolicy::Reuse(k) = ops[i].policy {
            assert(!input_upto(f, inst, i, ops.len() as int)) by {
                if input_upto(f, inst, i, ops.len() as int) {
                    let p = choose|p: int|
                        0 <= p < ops.len() && p < ops.len() && ((
                        #[trigger] ops[p]).policy matches OperandPolicy::Reuse(l) && l == i);
                    let _ = (ops[p], ops[i]);
                }
            }
            assert(s.allocs[operand_place(f, inst, i)] == before[operand_place(f, inst, i)]);
        }
        lemma_inst_again(f, before, s, inst, i + 1);
    }
}

/// Another instruction copies nothing at this one.
proof fn lemma_other_copies(f: FuncModel, s: ApplyState, other: Inst, i: int, inst: Inst)
    requires
        other != inst,
        0 <= i,
    ensures
        ({
            let t = apply_reuse_operands(f, s, other, i);
            &&& t.moves.len() >= s.moves.len()
            &&& forall|j: int| 0 <= j < s.moves.len() ==> #[trigger] t.moves[j] == s.moves[j]
            &&& forall|j: int|
                s.moves.len() <= j < t.moves.len() ==> !copies_at(#[trigger] t.moves[j], inst)
                    && t.moves[j].prio is ReusedInput
        }),
    decreases f.operands[other.ix()].len() - i,
{
    let ops = f.operands[other.ix()];
    if i < ops.len() {
        if let OperandPolicy::Reuse(k) = ops[i].policy {
            let a = s.allocs[operand_place(f, other, k as int)];
            let b = s.allocs[operand_place(f, other, i)];
            if a != b {
                let t = apply_move(
                    s,
                    ProgPoint::before(other),
                    InsertMovePrio::ReusedInput,
                    a,
                    b,
                );
                let u = apply_set_alloc(f, t, other, k as int, b);
                lemma_other_copies(f, u, other, i + 1, inst);
                let w = apply_reuse_operands(f, u, other, i + 1);
                assert forall|j: int| 0 <= j < s.moves.len() implies #[trigger] w.moves[j]
                    == s.moves[j] by {
                    assert(w.moves[j] == u.moves[j]);
                }
                assert(w.moves[s.moves.len() as int] == u.moves[s.moves.len() as int]);
            } else {
                lemma_other_copies(f, s, other, i + 1, inst);
            }
        } else {
            lemma_other_copies(f, s, other, i + 1, inst);
        }
    }
}

proof fn lemma_reuse_copies(
    f: FuncModel,
    before: Seq<Allocation>,
    s: ApplyState,
    insts: Seq<Inst>,
    i: int,
    inst: Inst,
)
    requires
        func_ok(f),
        inst.0 < f.insts,
        0 <= i <= insts.len(),
        forall|k: int| 0 <= k < insts.len() ==> (#[trigger] insts[k]).0 < f.insts,
        before.len() == operands_before(f.operands, f.insts as int),
        s.allocs.len() == before.len(),
        reuse_clean(f, inst),
        reuse_open(f, before, s, inst) || reuse_done(f, before, s, inst),
    ensures
        ({
            let t = apply_reuse(f, s, insts, i);
            if reuse_done(f, before, s, inst) || exists|k: int|
                i <= k < insts.len() && #[trigger] insts[k] == inst {
                reuse_done(f, before, t, inst)
            } else {
                reuse_open(f, before, t, inst)
            }
        }),
    decreases insts.len() - i,
{
    let n = f.operands[inst.ix()].len() as int;
    if i < insts.len() {
        let t = apply_reuse_operands(f, s, insts[i], 0);
        if insts[i] == inst {
            if reuse_done(f, before, s, inst) {
                lemma_inst_again(f, before, s, inst, 0);
            } else {
                lemma_inst_copies(f, before, s, inst, 0);
            }
        } else {
            lemma_reuse_operands_other(f, s, insts[i], 0, inst);
            lemma_other_copies(f, s, insts[i], 0, inst);
            if reuse_done(f, before, s, inst) {
                assert(copies_done(f, before, t.moves, inst, n)) by {
                    assert forall|j: int| 0 <= j < t.moves.len() && copies_at(
                        #[trigger] t.moves[j],
                        inst,
                    ) implies exists|p: int|
                        p < n && #[trigger] is_copied(f, before, inst, p) && t.moves[j]
                            == reuse_move(f, before, inst, p) by {
                        assert(j < s.moves.len());
                        assert(t.moves[j] == s.moves[j]);
                    }
                    assert forall|p: int| p < n && #[trigger] is_copied(f, before, inst, p) implies t.moves.contains(
                    reuse_move(f, before, inst, p)) by {
                        let m = reuse_move(f, before, inst, p);
                        assert(s.moves.contains(m));
                        let j = choose|j: int| 0 <= j < s.moves.len() && s.moves[j] == m;
                        assert(t.moves[j] == m);
                    }
                }
                assert(reused_upto(f, before, t.allocs, inst, n)) by {
                    let ops = f.operands[inst.ix()];
                    assert forall|p: int| 0 <= p < n && p < ops.len() implies ((
                    #[trigger] ops[p]).policy matches OperandPolicy::Reuse(k)
                        ==> t.allocs[operand_place(f, inst, k as int)] == before[operand_place(
                        f,
                        inst,
                        p,
                    )]) by {
                        assert(inst_ok(f, inst.ix()));
                        assert(operand_ok(f, inst.ix(), f.operands[inst.ix()][p]));
                    }
                }
            } else {
                assert(reuse_open(f, before, t, inst)) by {
                    assert forall|j: int| 0 <= j < t.moves.len() implies !copies_at(
                        #[trigger] t.moves[j],
                        inst,
                    ) by {
                        if j < s.moves.len() {
                            assert(t.moves[j] == s.moves[j]);
                        }
                    }
                }
            }
        }
        lemma_reuse_copies(f, before, t, insts, i + 1, inst);
    }
}

/// Copying reused inputs adds moves of that kind only.
proof fn lemma_reuse_adds(f: FuncModel, s: ApplyState, insts: Seq<Inst>, i: int)
    requires
        0 <= i <= insts.len(),
    ensures
        ({
            let t = apply_reuse(f, s, insts, i);
            &&& t.moves.len() >= s.moves.len()
            &&& forall|j: int| 0 <= j < s.moves.len() ==> #[trigger] t.moves[j] == s.moves[j]
            &&& forall|j: int|
                s.moves.len() <= j < t.moves.len() ==> (#[trigger] t.moves[j]).prio is ReusedInput
        }),
    decreases insts.len() - i,
{
    if i < insts.len() {
        let other = insts[i];
        let t = apply_reuse_operands(f, s, other, 0);
        let far = Inst(if other.0 == 0 {
            1
        } else {
            0
        });
        lemma_other_copies(f, s, other, 0, far);
        lemma_reuse_adds(f, t, insts, i + 1);
        let u = apply_reuse(f, t, insts, i + 1);
        assert forall|j: int| 0 <= j < s.moves.len() implies #[trigger] u.moves[j] == s.moves[j] by {
            assert(u.moves[j] == t.moves[j]);
        }
        assert forall|j: int| s.moves.len() <= j < u.moves.len() implies (
        #[trigger] u.moves[j]).prio is ReusedInput by {
            if j < t.moves.len() {
                assert(u.moves[j] == t.moves[j]);
            }
        }
    }
}

/// The moves that copy to given registers are those that were noted.
pub proof fn lemma_fixup_moves(x: ApplyIn, s: ApplyState, fixups: Seq<Fixup>)
    requires
        apply_in_ok(x),
        s.moves.len() == 0,
        apply_all(x, s, fixups) is Ok,
    ensures
        ({
            let moves = apply_all(x, s, fixups)->Ok_0.moves;
            &&& forall|i: int|
                0 <= i < moves.len() && (#[trigger] moves[i]).prio is MultiFixedReg ==> exists|n: int|
                    0 <= n < fixups.len() && moves[i] == fixup_move(x.c, #[trigger] fixups[n])
            &&& forall|n: int|
                0 <= n < fixups.len() ==> moves.contains(fixup_move(x.c, #[trigger] fixups[n]))
        }),
{
    let t = before_reuse(x, s, fixups);
    let insts = apply_vregs(x, s, 0)->Ok_0.reuse;
    let u = apply_all(x, s, fixups)->Ok_0;
    lemma_moves_before_reuse(x, s, fixups);
    lemma_reuse_adds(x.c.f, t, insts, 0);
    assert forall|i: int| 0 <= i < u.moves.len() && (#[trigger] u.moves[i]).prio is MultiFixedReg implies exists|
        n: int,
    |
        0 <= n < fixups.len() && u.moves[i] == fixup_move(x.c, #[trigger] fixups[n]) by {
        assert(i < t.moves.len());
        assert(u.moves[i] == t.moves[i]);
    }
    assert forall|n: int| 0 <= n < fixups.len() implies u.moves.contains(
        fixup_move(x.c, #[trigger] fixups[n]),
    ) by {
        let m = fixup_move(x.c, fixups[n]);
        let i = choose|i: int| 0 <= i < t.moves.len() && t.moves[i] == m;
        assert(u.moves[i] == m);
    }
}

/// The copies of reused inputs at an instruction, and where its operands come out.
pub proof fn lemma_reuse_moves(x: ApplyIn, s: ApplyState, fixups: Seq<Fixup>, inst: Inst)
    requires
        apply_in_ok(x),
        s.moves.len() == 0,
        apply_all(x, s, fixups) is Ok,
        inst.0 < x.c.f.insts,
        reuse_clean(x.c.f, inst),
        before_reuse(x, s, fixups).allocs.len() == operands_before(
            x.c.f.operands,
            x.c.f.insts as int,
        ),
        forall|k: int|
            0 <= k < apply_vregs(x, s, 0)->Ok_0.reuse.len() ==> (#[trigger] apply_vregs(
                x,
                s,
                0,
            )->Ok_0.reuse[k]).0 < x.c.f.insts,
    ensures
        ({
            let before = before_reuse(x, s, fixups).allocs;
            let t = apply_all(x, s, fixups)->Ok_0;
            if apply_vregs(x, s, 0)->Ok_0.reuse.contains(inst) {
                reuse_done(x.c.f, before, t, inst)
            } else {
                reuse_open(x.c.f, before, t, inst)
            }
        }),
{
    let f = x.c.f;
    let t = before_reuse(x, s, fixups);
    let insts = apply_vregs(x, s, 0)->Ok_0.reuse;
    lemma_moves_before_reuse(x, s, fixups);
    assert(reuse_open(f, t.allocs, t, inst));
    lemma_reuse_copies(f, t.allocs, t, insts, 0, inst);
    if insts.contains(inst) {
        let k = choose|k: int| 0 <= k < insts.len() && insts[k] == inst;
        assert(insts[k] == inst);
    } else {
        let u = apply_reuse(f, t, insts, 0);
        if reuse_done(f, t.allocs, t, inst) {
            lemma_done_open(f, t.allocs, t, u, inst);
        }
    }
}

/// An instruction without copies that is done is as it was.
proof fn lemma_done_open(
    f: FuncModel,
    before: Seq<Allocation>,
    s: ApplyState,
    t: ApplyState,
    inst: Inst,
)
    requires
        reuse_open(f, before, s, inst),
        reuse_done(f, before, s, inst),
        reuse_done(f, before, t, inst),
    ensures
        reuse_open(f, before, t, inst),
{
    let ops = f.operands[inst.ix()];
    let n = ops.len() as int;
    assert forall|i: int| 0 <= i < t.moves.len() implies !copies_at(#[trigger] t.moves[i], inst) by {
        if copies_at(t.moves[i], inst) {
            let p = choose|p: int|
                p < n && #[trigger] is_copied(f, before, inst, p) && t.moves[i] == reuse_move(
                    f,
                    before,
                    inst,
                    p,
                );
            let m = reuse_move(f, before, inst, p);
            assert(s.moves.contains(m));
            let j = choose|j: int| 0 <= j < s.moves.len() && s.moves[j] == m;
            assert(copies_at(s.moves[j], inst));
        }
    }
    assert forall|q: int| 0 <= q < ops.len() implies t.allocs[#[trigger] operand_place(f, inst, q)]
        == before[operand_place(f, inst, q)] by {
        if input_upto(f, inst, q, n) {
            let p = choose|p: int|
                0 <= p < n && p < ops.len() && ((
                #[trigger] ops[p]).policy matches OperandPolicy::Reuse(k) && k == q);
            assert(ops[p].policy->Reuse_0 == q);
            assert(s.allocs[operand_place(f, inst, q)] == before[operand_place(f, inst, p)]);
        }
    }
}

proof fn lemma_plain_inst(f: FuncModel, s: ApplyState, inst: Inst, i: int)
    requires
        0 <= i,
        forall|p: int|
            0 <= p < f.operands[inst.ix()].len() ==> !((
            #[trigger] f.operands[inst.ix()][p]).policy is Reuse),
    ensures
        apply_reuse_operands(f, s, inst, i) == s,
    decreases f.operands[inst.ix()].len() - i,
{
    if i < f.operands[inst.ix()].len() {
        lemma_plain_inst(f, s, inst, i + 1);
    }
}

proof fn lemma_plain_reuse(f: FuncModel, s: ApplyState, insts: Seq<Inst>, i: int, inst: Inst)
    requires
        0 <= i <= insts.len(),
        forall|p: int|
            0 <= p < f.operands[inst.ix()].len() ==> !((
            #[trigger] f.operands[inst.ix()][p]).policy is Reuse),
        forall|j: int| 0 <= j < s.moves.len() ==> !copies_at(#[trigger] s.moves[j], inst),
    ensures
        ({
            let t = apply_reuse(f, s, insts, i);
            forall|j: int| 0 <= j < t.moves.len() ==> !copies_at(#[trigger] t.moves[j], inst)
        }),
    decreases insts.len() - i,
{
    if i < insts.len() {
        let t = apply_reuse_operands(f, s, insts[i], 0);
        if insts[i] == inst {
            lemma_plain_inst(f, s, inst, 0);
        } else {
            lemma_other_copies(f, s, insts[i], 0, inst);
            assert forall|j: int| 0 <= j < t.moves.len() implies !copies_at(
                #[trigger] t.moves[j],
                inst,
            ) by {
                if j < s.moves.len() {
                    assert(t.moves[j] == s.moves[j]);
                }
            }
        }
        lemma_plain_reuse(f, t, insts, i + 1, inst);
        assert(apply_reuse(f, s, insts, i) == apply_reuse(f, t, insts, i + 1));
    }
}

/// Nothing is copied at an instruction no output of which reuses an input.
pub proof fn lemma_no_reuse_moves(x: ApplyIn, s: ApplyState, fixups: Seq<Fixup>, inst: Inst)
    requires
        apply_in_ok(x),
        s.moves.len() == 0,
        apply_all(x, s, fixups) is Ok,
        forall|p: int|
            0 <= p < x.c.f.operands[inst.ix()].len() ==> !((
            #[trigger] x.c.f.operands[inst.ix()][p]).policy is Reuse),
    ensures
        ({
            let t = apply_all(x, s, fixups)->Ok_0;
            forall|j: int| 0 <= j < t.moves.len() ==> !copies_at(#[trigger] t.moves[j], inst)
        }),
{
    lemma_moves_before_reuse(x, s, fixups);
    lemma_plain_reuse(
        x.c.f,
        before_reuse(x, s, fixups),
        apply_vregs(x, s, 0)->Ok_0.reuse,
        0,
        inst,
    );
}

} // verus!
