//! Of several demands for given registers at one point, all but the first are met by copies: which
//! copies are noted, and for what.
use crate::data::{Def, Use};
use crate::fixup::{
    fix_def, fix_mention, fix_start, fix_uses, pass_extra, pass_fix_all, pass_fix_list,
    pass_fix_range, seen_position, FixState,
};
use crate::func::FuncModel;
use crate::graph::{graph_ok, range_ok, vreg_ok, GraphState};
use crate::index::{Inst, PRegIndex};
use crate::lists::{lemma_below, lemma_neq};
use crate::liveness::{inst_range, pass_take_preg, Fixup, PassState};
use crate::reg::{Operand, OperandPolicy, VReg};
use crate::uses::{uses_exact, uses_placed};
use vstd::prelude::*;

verus! {

/// The operand that the use is for.
pub open spec fn op_of(f: FuncModel, u: Use) -> Operand {
    f.operands[u.pos.inst.ix()][u.slot as int]
}

/// Does the operand demand physical register number `p` for the register?
pub open spec fn demands(op: Operand, vreg: VReg, p: int) -> bool {
    op.vreg == vreg && (op.policy matches OperandPolicy::FixedReg(r) && r.ix() == p)
}

/// Does use `m` keep the register where the copy comes from?
pub open spec fn anchor_use(uses: Seq<Use>, m: int, x: Fixup, vreg: VReg) -> bool {
    0 <= m < uses.len() && uses[m].pos == x.0 && demands(uses[m].operand, vreg, x.1.ix())
}

/// Does definition `d` keep the register where the copy comes from?
pub open spec fn anchor_def(defs: Seq<Def>, d: int, x: Fixup, vreg: VReg) -> bool {
    0 <= d < defs.len() && defs[d].pos == x.0 && demands(defs[d].operand, vreg, x.1.ix())
}

/// Does a definition, or a use that is done, keep the register where the copy comes from?
pub open spec fn anchored(
    uses: Seq<Use>,
    defs: Seq<Def>,
    done: Set<int>,
    x: Fixup,
    vreg: VReg,
) -> bool {
    ||| exists|m: int| done.contains(m) && #[trigger] anchor_use(uses, m, x, vreg)
    ||| exists|d: int| #[trigger] anchor_def(defs, d, x, vreg)
}

/// Is the copy one for use `m`: does it go to the register that the operand demands, at its point,
/// from one that the register of the operand is in there?
pub open spec fn copy_for(
    f: FuncModel,
    uses: Seq<Use>,
    defs: Seq<Def>,
    done: Set<int>,
    m: int,
    x: Fixup,
) -> bool {
    &&& 0 <= m < uses.len()
    &&& uses[m].pos == x.0
    &&& demands(op_of(f, uses[m]), uses[m].operand.vreg, x.2.ix())
    &&& anchored(uses, defs, done, x, uses[m].operand.vreg)
}

/// Is there a copy for use `m`?
pub open spec fn has_copy(
    f: FuncModel,
    uses: Seq<Use>,
    defs: Seq<Def>,
    fixups: Seq<Fixup>,
    done: Set<int>,
    m: int,
) -> bool {
    exists|n: int| 0 <= n < fixups.len() && copy_for(f, uses, defs, done, m, #[trigger] fixups[n])
}

/// Is the copy one for a use that is done?
pub open spec fn has_reader(
    f: FuncModel,
    uses: Seq<Use>,
    defs: Seq<Def>,
    done: Set<int>,
    x: Fixup,
) -> bool {
    exists|m: int| done.contains(m) && #[trigger] copy_for(f, uses, defs, done, m, x)
}

/// Every use that is done demands what its operand does or has a copy; every copy is for a use that
/// is done. The other uses demand what their operands do.
pub open spec fn served_in(
    f: FuncModel,
    uses: Seq<Use>,
    defs: Seq<Def>,
    fixups: Seq<Fixup>,
    done: Set<int>,
) -> bool {
    &&& forall|m: int|
        0 <= m < uses.len() ==> (#[trigger] uses[m]).operand == op_of(f, uses[m]) || done.contains(m)
            && has_copy(f, uses, defs, fixups, done, m)
    &&& forall|n: int|
        0 <= n < fixups.len() ==> has_reader(f, uses, defs, done, #[trigger] fixups[n])
}

/// Every use demands what its operand does or has a copy, and every copy is for a use.
#[verifier::opaque]
pub open spec fn served(f: FuncModel, g: GraphState, fixups: Seq<Fixup>) -> bool {
    served_in(f, g.uses, g.defs, fixups, Set::new(|m: int| 0 <= m < g.uses.len()))
}

/// The registers that were seen at the last point are kept where they were seen.
pub open spec fn seen_kept(uses: Seq<Use>, defs: Seq<Def>, done: Set<int>, st: FixState) -> bool {
    &&& st.seen.len() == st.first_preg.len()
    &&& st.last_point is None ==> st.seen.len() == 0
    &&& st.last_point is Some ==> forall|i: int|
        0 <= i < st.seen.len() ==> anchored(
            uses,
            defs,
            done,
            (st.last_point->0, PRegIndex(st.first_preg[i]), PRegIndex(0)),
            #[trigger] st.seen[i],
        )
}

proof fn lemma_anchored_more(
    uses: Seq<Use>,
    defs: Seq<Def>,
    done: Set<int>,
    x: Fixup,
    vreg: VReg,
    uses2: Seq<Use>,
    done2: Set<int>,
    y: Fixup,
)
    requires
        anchored(uses, defs, done, x, vreg),
        done.subset_of(done2),
        uses2.len() == uses.len(),
        forall|m: int| done.contains(m) && 0 <= m < uses.len() ==> #[trigger] uses2[m] == uses[m],
        x.0 == y.0,
        x.1 == y.1,
    ensures
        anchored(uses2, defs, done2, y, vreg),
{
    if exists|m: int| done.contains(m) && #[trigger] anchor_use(uses, m, x, vreg) {
        let m = choose|m: int| done.contains(m) && #[trigger] anchor_use(uses, m, x, vreg);
        assert(anchor_use(uses2, m, y, vreg));
    } else {
        let d = choose|d: int| #[trigger] anchor_def(defs, d, x, vreg);
        assert(anchor_def(defs, d, y, vreg));
    }
}

/// What is done stays served where uses that are not done change.
proof fn lemma_served_more(
    f: FuncModel,
    uses: Seq<Use>,
    defs: Seq<Def>,
    fixups: Seq<Fixup>,
    done: Set<int>,
    uses2: Seq<Use>,
    fixups2: Seq<Fixup>,
    done2: Set<int>,
    u: int,
)
    requires
        served_in(f, uses, defs, fixups, done),
        done2 == done.insert(u),
        uses2.len() == uses.len(),
        !done.contains(u),
        0 <= u < uses.len(),
        forall|m: int| 0 <= m < uses.len() && m != u ==> #[trigger] uses2[m] == uses[m],
        if uses2[u].operand == op_of(f, uses2[u]) {
            fixups2 == fixups
        } else {
            &&& fixups2.len() == fixups.len() + 1
            &&& fixups2.take(fixups.len() as int) == fixups
            &&& copy_for(f, uses2, defs, done2, u, fixups2.last())
        },
    ensures
        served_in(f, uses2, defs, fixups2, done2),
{
    assert forall|n: int| 0 <= n < fixups.len() implies #[trigger] fixups2[n] == fixups[n] by {
        if fixups2.len() > fixups.len() {
            assert(fixups2.take(fixups.len() as int)[n] == fixups2[n]);
        }
    }
    assert forall|m: int, n: int|
        0 <= n < fixups.len() && done.contains(m) && copy_for(
            f,
            uses,
            defs,
            done,
            m,
            fixups[n],
        ) implies #[trigger] copy_for(f, uses2, defs, done2, m, fixups2[n]) by {
        assert(uses2[m] == uses[m]);
        lemma_anchored_more(
            uses,
            defs,
            done,
            fixups[n],
            uses[m].operand.vreg,
            uses2,
            done2,
            fixups2[n],
        );
    }
    assert forall|m: int| 0 <= m < uses2.len() implies (#[trigger] uses2[m]).operand == op_of(
        f,
        uses2[m],
    ) || done2.contains(m) && has_copy(f, uses2, defs, fixups2, done2, m) by {
        if m == u {
            if uses2[u].operand != op_of(f, uses2[u]) {
                assert(fixups2[fixups.len() as int] == fixups2.last());
            }
        } else if uses[m].operand != op_of(f, uses[m]) {
            let n = choose|n: int|
                0 <= n < fixups.len() && copy_for(f, uses, defs, done, m, #[trigger] fixups[n]);
            assert(copy_for(f, uses2, defs, done2, m, fixups2[n]));
        }
    }
    assert forall|n: int| 0 <= n < fixups2.len() implies has_reader(
        f,
        uses2,
        defs,
        done2,
        #[trigger] fixups2[n],
    ) by {
        if n < fixups.len() {
            let m = choose|m: int|
                done.contains(m) && #[trigger] copy_for(f, uses, defs, done, m, fixups[n]);
            assert(copy_for(f, uses2, defs, done2, m, fixups2[n]));
        } else {
            assert(fixups2[n] == fixups2.last());
        }
    }
}

proof fn lemma_seen_found(seen: Seq<VReg>, v: VReg, i: int)
    requires
        0 <= i <= seen.len(),
    ensures
        i <= seen_position(seen, v, i) <= seen.len(),
        seen_position(seen, v, i) < seen.len() ==> seen[seen_position(seen, v, i)] == v,
    decreases seen.len() - i,
{
    if i < seen.len() && seen[i] != v {
        lemma_seen_found(seen, v, i + 1);
    }
}

/// One more use is looked at.
proof fn lemma_serve_use(
    f: FuncModel,
    st: FixState,
    uses: Seq<Use>,
    defs: Seq<Def>,
    done: Set<int>,
    u: int,
)
    requires
        served_in(f, uses, defs, st.fixups, done),
        seen_kept(uses, defs, done, st),
        0 <= u < uses.len(),
        !done.contains(u),
    ensures
        ({
            let (t, op) = fix_mention(st, uses[u].pos, uses[u].operand);
            let uses2 = uses.update(u, Use { operand: op, ..uses[u] });
            &&& served_in(f, uses2, defs, t.fixups, done.insert(u))
            &&& seen_kept(uses2, defs, done.insert(u), t)
        }),
{
    let pos = uses[u].pos;
    let op = uses[u].operand;
    let (t, op2) = fix_mention(st, pos, op);
    let uses2 = uses.update(u, Use { operand: op2, ..uses[u] });
    let done2 = done.insert(u);
    assert(op == op_of(f, uses[u]));
    let fresh = st.last_point is Some && st.last_point->0 != pos;
    let seen = if fresh {
        Seq::empty()
    } else {
        st.seen
    };
    let first_preg = if fresh {
        Seq::empty()
    } else {
        st.first_preg
    };
    assert forall|i: int| 0 <= i < seen.len() implies anchored(
        uses2,
        defs,
        done2,
        (pos, PRegIndex(first_preg[i]), PRegIndex(0)),
        #[trigger] seen[i],
    ) by {
        lemma_anchored_more(
            uses,
            defs,
            done,
            (pos, PRegIndex(first_preg[i]), PRegIndex(0)),
            seen[i],
            uses2,
            done2,
            (pos, PRegIndex(first_preg[i]), PRegIndex(0)),
        );
    }
    if let OperandPolicy::FixedReg(preg) = op.policy {
        lemma_seen_found(seen, op.vreg, 0);
        let i = seen_position(seen, op.vreg, 0);
        if i < seen.len() {
            let x = (pos, PRegIndex(first_preg[i]), PRegIndex(preg.ix() as u32));
            assert(anchored(
                uses2,
                defs,
                done2,
                (pos, PRegIndex(first_preg[i]), PRegIndex(0)),
                seen[i],
            ));
            lemma_anchored_more(
                uses2,
                defs,
                done2,
                (pos, PRegIndex(first_preg[i]), PRegIndex(0)),
                seen[i],
                uses2,
                done2,
                x,
            );
            assert(t.fixups.last() == x);
            assert(t.fixups.take(st.fixups.len() as int) =~= st.fixups);
            assert(op_of(f, uses2[u]) == op);
            assert(copy_for(f, uses2, defs, done2, u, x));
        } else {
            assert(uses2[u].operand == op);
            assert(anchor_use(
                uses2,
                u,
                (pos, PRegIndex(preg.ix() as u32), PRegIndex(0)),
                op.vreg,
            ));
            assert forall|j: int| 0 <= j < t.seen.len() implies anchored(
                uses2,
                defs,
                done2,
                (pos, PRegIndex(t.first_preg[j]), PRegIndex(0)),
                #[trigger] t.seen[j],
            ) by {
                if j < seen.len() {
                    assert(t.seen[j] == seen[j]);
                }
            }
        }
    }
    lemma_served_more(f, uses, defs, st.fixups, done, uses2, t.fixups, done2, u);
}

/// The uses in the list from position `j` on are looked at.
proof fn lemma_serve_uses(
    f: FuncModel,
    st: FixState,
    uses: Seq<Use>,
    defs: Seq<Def>,
    done: Set<int>,
    list: Seq<u32>,
    j: int,
)
    requires
        served_in(f, uses, defs, st.fixups, done),
        seen_kept(uses, defs, done, st),
        0 <= j <= list.len(),
        list.no_duplicates(),
        forall|i: int|
            j <= i < list.len() ==> (#[trigger] list[i]) < uses.len() && !done.contains(
                list[i] as int,
            ),
    ensures
        ({
            let (t, uses2) = fix_uses(st, uses, list, j);
            &&& uses2.len() == uses.len()
            &&& served_in(
                f,
                uses2,
                defs,
                t.fixups,
                done.union(list.skip(j).to_set().map(|x: u32| x as int)),
            )
        }),
    decreases list.len() - j,
{
    let more = list.skip(j).to_set().map(|x: u32| x as int);
    if j < list.len() {
        let u = list[j] as int;
        let (t, op) = fix_mention(st, uses[u].pos, uses[u].operand);
        let uses2 = uses.update(u, Use { operand: op, ..uses[u] });
        let done2 = done.insert(u);
        lemma_serve_use(f, st, uses, defs, done, u);
        assert forall|i: int| j + 1 <= i < list.len() implies (#[trigger] list[i]) < uses2.len()
            && !done2.contains(list[i] as int) by {
            assert(list[i] != list[j]);
        }
        lemma_serve_uses(f, t, uses2, defs, done2, list, j + 1);
        let rest = list.skip(j + 1).to_set().map(|x: u32| x as int);
        assert(done2.union(rest) =~= done.union(more)) by {
            assert forall|m: int| done2.union(rest).contains(m) == done.union(more).contains(m) by {
                lemma_listed(list, j, m);
                lemma_listed(list, j + 1, m);
            }
        }
    } else {
        assert(done.union(more) =~= done) by {
            assert forall|m: int| done.union(more).contains(m) == done.contains(m) by {
                lemma_listed(list, j, m);
            }
        }
    }
}

/// The numbers in the list from position `j` on.
proof fn lemma_listed(list: Seq<u32>, j: int, m: int)
    requires
        0 <= j <= list.len(),
    ensures
        list.skip(j).to_set().map(|x: u32| x as int).contains(m) <==> exists|i: int|
            j <= i < list.len() && (#[trigger] list[i]) as int == m,
{
    let set = list.skip(j).to_set();
    let all = set.map(|x: u32| x as int);
    if all.contains(m) {
        let x = choose|x: u32| set.contains(x) && x as int == m;
        let i = choose|i: int| 0 <= i < list.skip(j).len() && list.skip(j)[i] == x;
        assert(list[j + i] as int == m);
    }
    if exists|i: int| j <= i < list.len() && (#[trigger] list[i]) as int == m {
        let i = choose|i: int| j <= i < list.len() && (#[trigger] list[i]) as int == m;
        assert(list.skip(j)[i - j] == list[i]);
        assert(set.contains(list[i]));
    }
}

/// The tables are those of `g`, but for what uses demand and for more live ranges.
pub open spec fn still_like(g: GraphState, h: GraphState) -> bool {
    &&& h.in_vreg == g.in_vreg
    &&& h.vregs == g.vregs
    &&& h.defs == g.defs
    &&& h.uses.len() == g.uses.len()
    &&& h.ranges.len() >= g.ranges.len()
    &&& h.in_range.len() == h.ranges.len()
    &&& forall|r: int| 0 <= r < g.ranges.len() ==> #[trigger] h.ranges[r] == g.ranges[r]
    &&& forall|r: int| 0 <= r < g.ranges.len() ==> #[trigger] h.in_range[r] == g.in_range[r]
}

proof fn lemma_extra_like(g: GraphState, s: PassState, pregs: Seq<u32>, insts: Seq<u32>, i: int)
    requires
        still_like(g, s.g),
    ensures
        pass_extra(s, pregs, insts, i) matches Ok(t) ==> still_like(g, t.g) && t.g.uses == s.g.uses
            && t.fixups == s.fixups,
    decreases pregs.len() - i,
{
    if 0 <= i < pregs.len() {
        if let Ok(t) = pass_take_preg(s, inst_range(Inst(insts[i])), pregs[i] as int) {
            lemma_extra_like(g, t, pregs, insts, i + 1);
        }
    }
}

/// The uses of a live range.
pub open spec fn uses_of(g: GraphState, r: u32) -> Set<int> {
    g.in_range[r as int].skip(0).to_set().map(|x: u32| x as int)
}

/// The mentions of a live range are looked at.
proof fn lemma_serve_range(
    f: FuncModel,
    g: GraphState,
    s: PassState,
    v: int,
    r: u32,
    done: Set<int>,
)
    requires
        graph_ok(f, g),
        still_like(g, s.g),
        served_in(f, s.g.uses, g.defs, s.fixups, done),
        r < g.ranges.len(),
        g.ranges[r as int].vreg.0 == v,
        0 <= v < g.vregs.len(),
        done.disjoint(uses_of(g, r)),
    ensures
        pass_fix_range(s, v, r) matches Ok(t) ==> still_like(g, t.g) && served_in(
            f,
            t.g.uses,
            g.defs,
            t.fixups,
            done.union(uses_of(g, r)),
        ),
{
    let (st, defs) = fix_def(fix_start(s.fixups), s.g, v, r);
    let list = g.in_range[r as int];
    let (t, uses) = fix_uses(st, s.g.uses, list, 0);
    let u = PassState { g: GraphState { uses, defs, ..s.g }, fixups: t.fixups, ..s };
    assert(s.g.ranges[r as int] == g.ranges[r as int]);
    assert(s.g.in_range[r as int] == list);
    assert(range_ok(f, g, r as int));
    assert(vreg_ok(f, g, v));
    if g.ranges[r as int].def.is_valid() {
        let d = g.vregs[v].def.ix();
        let op = g.defs[d].operand;
        assert(defs =~= g.defs) by {
            lemma_seen_found(Seq::<VReg>::empty(), op.vreg, 0);
        }
        assert(seen_kept(s.g.uses, g.defs, done, st)) by {
            if let OperandPolicy::FixedReg(preg) = op.policy {
                lemma_seen_found(Seq::<VReg>::empty(), op.vreg, 0);
                assert(anchor_def(
                    g.defs,
                    d,
                    (g.defs[d].pos, PRegIndex(preg.ix() as u32), PRegIndex(0)),
                    op.vreg,
                ));
            }
        }
        assert(st.fixups == s.fixups) by {
            lemma_seen_found(Seq::<VReg>::empty(), op.vreg, 0);
        }
    }
    assert forall|i: int| 0 <= i < list.len() implies (#[trigger] list[i]) < s.g.uses.len()
        && !done.contains(list[i] as int) by {
        lemma_below(g.in_range, g.uses.len() as int, r as int, i);
        lemma_listed(list, 0, list[i] as int);
    }
    assert forall|i: int, j: int| 0 <= i < list.len() && 0 <= j < list.len() && i != j implies list[i]
        != list[j] by {
        lemma_neq(g.in_range, g.uses.len() as int, r as int, i, r as int, j);
    }
    lemma_serve_uses(f, st, s.g.uses, g.defs, done, list, 0);
    lemma_extra_like(g, u, t.extra_pregs, t.extra_insts, 0);
}

/// The uses of the live ranges of the registers before `v`, and of the first `i` live ranges of
/// register `v`.
pub open spec fn uses_upto(g: GraphState, v: int, i: int) -> Set<int> {
    Set::new(
        |m: int|
            exists|w: int, k: int|
                0 <= w < g.in_vreg.len() && 0 <= k < g.in_vreg[w].len() && (w < v || w == v && k < i)
                    && uses_of(g, #[trigger] g.in_vreg[w][k]).contains(m),
    )
}

proof fn lemma_uses_step(f: FuncModel, g: GraphState, v: int, i: int)
    requires
        graph_ok(f, g),
        0 <= v < g.in_vreg.len(),
        0 <= i < g.in_vreg[v].len(),
    ensures
        uses_upto(g, v, i).disjoint(uses_of(g, g.in_vreg[v][i])),
        uses_upto(g, v, i).union(uses_of(g, g.in_vreg[v][i])) =~= uses_upto(g, v, i + 1),
{
    let r = g.in_vreg[v][i];
    let n = g.ranges.len() as int;
    lemma_below(g.in_vreg, n, v, i);
    assert forall|m: int| uses_upto(g, v, i).contains(m) implies !uses_of(g, r).contains(m) by {
        let (w, k) = choose|w: int, k: int|
            0 <= w < g.in_vreg.len() && 0 <= k < g.in_vreg[w].len() && (w < v || w == v && k < i)
                && uses_of(g, #[trigger] g.in_vreg[w][k]).contains(m);
        let q = g.in_vreg[w][k];
        lemma_below(g.in_vreg, n, w, k);
        lemma_neq(g.in_vreg, n, w, k, v, i);
        lemma_listed(g.in_range[q as int], 0, m);
        lemma_listed(g.in_range[r as int], 0, m);
        if uses_of(g, r).contains(m) {
            let a = choose|a: int|
                0 <= a < g.in_range[q as int].len() && (#[trigger] g.in_range[q as int][a]) as int == m;
            let b = choose|b: int|
                0 <= b < g.in_range[r as int].len() && (#[trigger] g.in_range[r as int][b]) as int == m;
            lemma_neq(g.in_range, g.uses.len() as int, q as int, a, r as int, b);
        }
    }
    assert forall|m: int| uses_upto(g, v, i).union(uses_of(g, r)).contains(m) == uses_upto(
        g,
        v,
        i + 1,
    ).contains(m) by {
        if uses_of(g, r).contains(m) {
            assert(uses_of(g, g.in_vreg[v][i]).contains(m));
        }
        if uses_upto(g, v, i).contains(m) {
            let (w, k) = choose|w: int, k: int|
                0 <= w < g.in_vreg.len() && 0 <= k < g.in_vreg[w].len() && (w < v || w == v && k
                    < i) && uses_of(g, #[trigger] g.in_vreg[w][k]).contains(m);
            assert(uses_of(g, g.in_vreg[w][k]).contains(m));
        }
        if uses_upto(g, v, i + 1).contains(m) {
            let (w, k) = choose|w: int, k: int|
                0 <= w < g.in_vreg.len() && 0 <= k < g.in_vreg[w].len() && (w < v || w == v && k < i
                    + 1) && uses_of(g, #[trigger] g.in_vreg[w][k]).contains(m);
            assert(uses_of(g, g.in_vreg[w][k]).contains(m));
        }
    }
}

proof fn lemma_serve_list(f: FuncModel, g: GraphState, s: PassState, v: int, i: int)
    requires
        graph_ok(f, g),
        still_like(g, s.g),
        0 <= v < g.in_vreg.len(),
        0 <= i <= g.in_vreg[v].len(),
        served_in(f, s.g.uses, g.defs, s.fixups, uses_upto(g, v, i)),
    ensures
        pass_fix_list(s, v, g.in_vreg[v], i) matches Ok(t) ==> still_like(g, t.g) && served_in(
            f,
            t.g.uses,
            g.defs,
            t.fixups,
            uses_upto(g, v, g.in_vreg[v].len() as int),
        ),
    decreases g.in_vreg[v].len() - i,
{
    let list = g.in_vreg[v];
    if i < list.len() {
        lemma_below(g.in_vreg, g.ranges.len() as int, v, i);
        lemma_uses_step(f, g, v, i);
        lemma_serve_range(f, g, s, v, list[i], uses_upto(g, v, i));
        if let Ok(t) = pass_fix_range(s, v, list[i]) {
            lemma_serve_list(f, g, t, v, i + 1);
        }
    }
}

proof fn lemma_serve_all(f: FuncModel, g: GraphState, s: PassState, v: int)
    requires
        graph_ok(f, g),
        still_like(g, s.g),
        0 <= v <= g.in_vreg.len(),
        served_in(f, s.g.uses, g.defs, s.fixups, uses_upto(g, v, 0)),
    ensures
        pass_fix_all(s, v, g.in_vreg.len() as int) matches Ok(t) ==> still_like(g, t.g) && served_in(
            f,
            t.g.uses,
            g.defs,
            t.fixups,
            uses_upto(g, g.in_vreg.len() as int, 0),
        ),
    decreases g.in_vreg.len() - v,
{
    if v < g.in_vreg.len() {
        lemma_serve_list(f, g, s, v, 0);
        assert(uses_upto(g, v, g.in_vreg[v].len() as int) =~= uses_upto(g, v + 1, 0)) by {
            assert forall|m: int| uses_upto(g, v, g.in_vreg[v].len() as int).contains(m)
                == uses_upto(g, v + 1, 0).contains(m) by {
                if uses_upto(g, v + 1, 0).contains(m) {
                    let (w, k) = choose|w: int, k: int|
                        0 <= w < g.in_vreg.len() && 0 <= k < g.in_vreg[w].len() && (w < v + 1 || w
                            == v + 1 && k < 0) && uses_of(g, #[trigger] g.in_vreg[w][k]).contains(
                            m,
                        );
                    assert(uses_of(g, g.in_vreg[w][k]).contains(m));
                }
                if uses_upto(g, v, g.in_vreg[v].len() as int).contains(m) {
                    let (w, k) = choose|w: int, k: int|
                        0 <= w < g.in_vreg.len() && 0 <= k < g.in_vreg[w].len() && (w < v || w == v
                            && k < g.in_vreg[v].len()) && uses_of(
                            g,
                            #[trigger] g.in_vreg[w][k],
                        ).contains(m);
                    assert(uses_of(g, g.in_vreg[w][k]).contains(m));
                }
            }
        }
        if let Ok(t) = pass_fix_list(s, v, s.g.in_vreg[v], 0) {
            lemma_serve_all(f, g, t, v + 1);
        }
    }
}

/// Once all mentions are looked at, every use demands what its operand does or has a copy, and every
/// copy is for a use.
pub proof fn lemma_all_served(f: FuncModel, s: PassState)
    requires
        graph_ok(f, s.g),
        s.fixups.len() == 0,
        uses_exact(f, s.g.uses),
    ensures
        pass_fix_all(s, 0, s.g.in_vreg.len() as int) matches Ok(t) ==> served(f, t.g, t.fixups),
{
    let g = s.g;
    reveal(served);
    assert(uses_upto(g, 0, 0) =~= Set::empty());
    lemma_serve_all(f, g, s, 0);
    if let Ok(t) = pass_fix_all(s, 0, g.in_vreg.len() as int) {
        let done = uses_upto(g, g.in_vreg.len() as int, 0);
        let all = Set::new(|m: int| 0 <= m < t.g.uses.len());
        assert(done.subset_of(all)) by {
            assert forall|m: int| done.contains(m) implies all.contains(m) by {
                let (w, k) = choose|w: int, k: int|
                    0 <= w < g.in_vreg.len() && 0 <= k < g.in_vreg[w].len() && (w
                        < g.in_vreg.len() || w == g.in_vreg.len() && k < 0) && uses_of(
                        g,
                        #[trigger] g.in_vreg[w][k],
                    ).contains(m);
                let q = g.in_vreg[w][k];
                lemma_below(g.in_vreg, g.ranges.len() as int, w, k);
                lemma_listed(g.in_range[q as int], 0, m);
                let a = choose|a: int|
                    0 <= a < g.in_range[q as int].len() && (#[trigger] g.in_range[q as int][a]) as int
                        == m;
                lemma_below(g.in_range, g.uses.len() as int, q as int, a);
            }
        }
        let uses = t.g.uses;
        assert forall|m: int, n: int|
            0 <= n < t.fixups.len() && copy_for(
                f,
                uses,
                g.defs,
                done,
                m,
                t.fixups[n],
            ) implies #[trigger] copy_for(f, uses, g.defs, all, m, t.fixups[n]) by {
            lemma_anchored_more(
                uses,
                g.defs,
                done,
                t.fixups[n],
                uses[m].operand.vreg,
                uses,
                all,
                t.fixups[n],
            );
        }
        assert forall|m: int| 0 <= m < uses.len() implies (#[trigger] uses[m]).operand == op_of(
            f,
            uses[m],
        ) || all.contains(m) && has_copy(f, uses, g.defs, t.fixups, all, m) by {
            if uses[m].operand != op_of(f, uses[m]) {
                let n = choose|n: int|
                    0 <= n < t.fixups.len() && copy_for(
                        f,
                        uses,
                        g.defs,
                        done,
                        m,
                        #[trigger] t.fixups[n],
                    );
                assert(copy_for(f, uses, g.defs, all, m, t.fixups[n]));
            }
        }
        assert forall|n: int| 0 <= n < t.fixups.len() implies has_reader(
            f,
            uses,
            g.defs,
            all,
            #[trigger] t.fixups[n],
        ) by {
            assert(has_reader(f, uses, g.defs, done, t.fixups[n]));
            let m = choose|m: int|
                done.contains(m) && #[trigger] copy_for(f, uses, g.defs, done, m, t.fixups[n]);
            assert(copy_for(f, uses, g.defs, all, m, t.fixups[n]));
        }
    }
}

/// No two of the uses at the first `n` positions of the list demand given registers for one register
/// at one point.
pub open spec fn one_fixed(uses: Seq<Use>, list: Seq<u32>, n: int) -> bool {
    forall|a: int, b: int|
        #![trigger list[a], list[b]]
        0 <= a < b < n && uses[list[a] as int].operand.policy is FixedReg
            && uses[list[b] as int].operand.policy is FixedReg && uses[list[a] as int].pos
            == uses[list[b] as int].pos ==> uses[list[a] as int].operand.vreg
            != uses[list[b] as int].operand.vreg
}

/// The demands for given registers at the last point were seen.
pub open spec fn last_seen(st: FixState, uses: Seq<Use>, list: Seq<u32>, n: int) -> bool {
    &&& n > 0 ==> st.last_point == Some(uses[list[n - 1] as int].pos)
    &&& forall|a: int|
        0 <= a < n && uses[(#[trigger] list[a]) as int].operand.policy is FixedReg && st.last_point
            == Some(uses[list[a] as int].pos) ==> st.seen.contains(
            uses[list[a] as int].operand.vreg,
        )
}

/// The uses in the list are in order.
pub open spec fn list_sorted(uses: Seq<Use>, list: Seq<u32>) -> bool {
    forall|a: int, b: int|
        #![trigger list[a], list[b]]
        0 <= a < b < list.len() ==> uses[list[a] as int].pos.ix() <= uses[list[b] as int].pos.ix()
}

proof fn lemma_seen_any(seen: Seq<VReg>, v: VReg, i: int)
    requires
        0 <= i <= seen.len(),
        seen_position(seen, v, i) >= seen.len(),
    ensures
        forall|k: int| i <= k < seen.len() ==> #[trigger] seen[k] != v,
    decreases seen.len() - i,
{
    if i < seen.len() {
        lemma_seen_any(seen, v, i + 1);
    }
}

proof fn lemma_one_fixed_uses(st: FixState, uses: Seq<Use>, list: Seq<u32>, j: int)
    requires
        0 <= j <= list.len(),
        list.no_duplicates(),
        forall|i: int| 0 <= i < list.len() ==> (#[trigger] list[i]) < uses.len(),
        list_sorted(uses, list),
        one_fixed(uses, list, j),
        last_seen(st, uses, list, j),
    ensures
        ({
            let uses2 = fix_uses(st, uses, list, j).1;
            &&& uses2.len() == uses.len()
            &&& one_fixed(uses2, list, list.len() as int)
            &&& forall|m: int|
                0 <= m < uses.len() && (forall|i: int| j <= i < list.len() ==> #[trigger] list[i] != m)
                    ==> #[trigger] uses2[m] == uses[m]
        }),
    decreases list.len() - j,
{
    if j < list.len() {
        let u = list[j] as int;
        let pos = uses[u].pos;
        let op = uses[u].operand;
        let (t, op2) = fix_mention(st, pos, op);
        let uses2 = uses.update(u, Use { operand: op2, ..uses[u] });
        let fresh = st.last_point is Some && st.last_point->0 != pos;
        let seen = if fresh {
            Seq::empty()
        } else {
            st.seen
        };
        assert forall|a: int| 0 <= a < list.len() && a != j implies uses2[(#[trigger] list[a]) as int]
            == uses[list[a] as int] by {
            assert(list[a] != list[j]);
        }
        assert(uses2[u].pos == pos);
        lemma_seen_found(seen, op.vreg, 0);
        // Registers with demands at this point were seen.
        assert forall|a: int|
            0 <= a < j && uses[(#[trigger] list[a]) as int].operand.policy is FixedReg
                && uses[list[a] as int].pos == pos implies seen.contains(
            uses[list[a] as int].operand.vreg,
        ) by {
            let last = uses[list[j - 1] as int].pos;
            if a < j - 1 {
                let _ = (list[a], list[j - 1]);
            }
            let _ = (list[j - 1], list[j]);
            assert(last.ix() == pos.ix());
            last.law_ix_injective(pos);
        }
        assert(one_fixed(uses2, list, j + 1)) by {
            assert forall|a: int, b: int|
                #![trigger list[a], list[b]]
                0 <= a < b < j + 1 && uses2[list[a] as int].operand.policy is FixedReg
                    && uses2[list[b] as int].operand.policy is FixedReg && uses2[list[a] as int].pos
                    == uses2[list[b] as int].pos implies uses2[list[a] as int].operand.vreg
                != uses2[list[b] as int].operand.vreg by {
                if b == j {
                    lemma_seen_any(seen, op.vreg, 0);
                    let v = uses[list[a] as int].operand.vreg;
                    let k = choose|k: int| 0 <= k < seen.len() && seen[k] == v;
                    assert(seen[k] != op.vreg);
                }
            }
        }
        assert(last_seen(t, uses2, list, j + 1)) by {
            assert forall|a: int|
                0 <= a < j + 1 && uses2[(#[trigger] list[a]) as int].operand.policy is FixedReg
                    && t.last_point == Some(uses2[list[a] as int].pos) implies t.seen.contains(
                uses2[list[a] as int].operand.vreg,
            ) by {
                if a < j {
                    let v = uses[list[a] as int].operand.vreg;
                    assert(seen.contains(v));
                    let k = choose|k: int| 0 <= k < seen.len() && seen[k] == v;
                    assert(t.seen[k] == v);
                } else {
                    assert(t.seen[seen.len() as int] == op.vreg);
                }
            }
        }
        assert(list_sorted(uses2, list)) by {
            assert forall|a: int, b: int|
                #![trigger list[a], list[b]]
                0 <= a < b < list.len() implies uses2[list[a] as int].pos.ix()
                <= uses2[list[b] as int].pos.ix() by {
                assert(uses2[list[a] as int].pos == uses[list[a] as int].pos);
                assert(uses2[list[b] as int].pos == uses[list[b] as int].pos);
            }
        }
        lemma_one_fixed_uses(t, uses2, list, j + 1);
        let uses3 = fix_uses(t, uses2, list, j + 1).1;
        assert forall|m: int|
            0 <= m < uses.len() && (forall|i: int| j <= i < list.len() ==> #[trigger] list[i] != m) implies #[trigger] uses3[m]
            == uses[m] by {
            assert(list[j] != m);
            assert(uses3[m] == uses2[m]);
        }
    }
}

/// Of the uses of a live range of a register at one point at most one still demands a given physical
/// register, once the live range is looked at.
pub proof fn law_one_fixed_use(f: FuncModel, s: PassState, v: int, r: u32)
    requires
        graph_ok(f, s.g),
        uses_placed(s.g),
        r < s.g.ranges.len(),
        s.g.ranges[r as int].vreg.0 == v,
        0 <= v < s.g.vregs.len(),
    ensures
        pass_fix_range(s, v, r) matches Ok(t) ==> one_fixed(
            t.g.uses,
            s.g.in_range[r as int],
            s.g.in_range[r as int].len() as int,
        ),
{
    let g = s.g;
    let list = g.in_range[r as int];
    let (st, defs) = fix_def(fix_start(s.fixups), g, v, r);
    let (t, uses) = fix_uses(st, g.uses, list, 0);
    let u = PassState { g: GraphState { uses, defs, ..g }, fixups: t.fixups, ..s };
    assert forall|i: int| 0 <= i < list.len() implies (#[trigger] list[i]) < g.uses.len() by {
        lemma_below(g.in_range, g.uses.len() as int, r as int, i);
    }
    assert forall|i: int, j: int| 0 <= i < list.len() && 0 <= j < list.len() && i != j implies list[i]
        != list[j] by {
        lemma_neq(g.in_range, g.uses.len() as int, r as int, i, r as int, j);
    }
    assert(list_sorted(g.uses, list)) by {
        assert forall|a: int, b: int|
            #![trigger list[a], list[b]]
            0 <= a < b < list.len() implies g.uses[list[a] as int].pos.ix()
            <= g.uses[list[b] as int].pos.ix() by {
            let _ = (g.in_range[r as int][a], g.in_range[r as int][b]);
        }
    }
    lemma_one_fixed_uses(st, g.uses, list, 0);
    lemma_extra_uses_same(u, t.extra_pregs, t.extra_insts, 0);
}

proof fn lemma_extra_uses_same(s: PassState, pregs: Seq<u32>, insts: Seq<u32>, i: int)
    ensures
        pass_extra(s, pregs, insts, i) matches Ok(t) ==> t.g.uses == s.g.uses,
    decreases pregs.len() - i,
{
    if 0 <= i < pregs.len() {
        if let Ok(t) = pass_take_preg(s, inst_range(Inst(insts[i])), pregs[i] as int) {
            lemma_extra_uses_same(t, pregs, insts, i + 1);
        }
    }
}

} // verus!
