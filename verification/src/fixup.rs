//! Several fixed-register demands of one register at one point: all but the first are met by
//! copies.
use crate::code_range::CodeRange;
use crate::data::{Def, Use};
use crate::func::{FuncModel, Function};
use crate::graph::{
    fixed_count, graph_ok, mention_ok, range_ok, stats_ok, uses_weight, vreg_ok, GraphState,
};
use crate::held::{held, lemma_marks_same};
use crate::index::{Inst, LiveRangeIndex, PRegIndex};
use crate::lists::{lemma_below, lemma_neq, node_at, NIL};
use crate::liveness::{
    fixup_ok, inst_range, lemma_pass_same_ranges, mentions_ok, operand_reg_ok, pass_ok,
    pass_take_preg, BlockparamIn, BlockparamOut, Ctx, Fixup, LivenessPass, PassState,
};
use crate::reached::{defs_named, sites_kept, uses_distinct};
use crate::reg::{Operand, OperandPolicy, ProgPoint, RegAllocError, VReg};
use crate::small::{small_clear, small_get, small_len, small_new, small_push, IndexVec};
use crate::sort::{HasKey, Keyed};
use crate::spans::{lemma_spans_same, lemma_spans_trans, spans_stay};
use crate::uses::{lemma_same_uses, lone_demand, use_named, uses_fit};
use vstd::prelude::*;

verus! {

/// What was seen of the mentions of a live range so far.
pub struct FixupScan {
    pub last_point: Option<ProgPoint>,
    /// The registers with a fixed-register demand at the last point.
    pub seen: Vec<VReg>,
    /// The physical registers that they demand.
    pub first_preg: IndexVec,
    /// The physical registers that copies go to, and the instructions they go to.
    pub extra_pregs: IndexVec,
    pub extra_insts: IndexVec,
}

/// The mathematical value of a `FixupScan`, with the copies noted so far.
#[verifier::ext_equal]
pub struct FixState {
    pub last_point: Option<ProgPoint>,
    pub seen: Seq<VReg>,
    pub first_preg: Seq<u32>,
    pub extra_pregs: Seq<u32>,
    pub extra_insts: Seq<u32>,
    pub fixups: Seq<Fixup>,
}

/// The first position from `i` on at which the register stands.
pub open spec fn seen_position(seen: Seq<VReg>, v: VReg, i: int) -> int
    decreases seen.len() - i,
{
    if i < 0 || i >= seen.len() || seen[i] == v {
        i
    } else {
        seen_position(seen, v, i + 1)
    }
}

/// A mention is looked at. If its register has another fixed-register demand at the same point
/// already, this one becomes a demand for any register, and a copy is noted.
pub open spec fn fix_mention(st: FixState, pos: ProgPoint, op: Operand) -> (FixState, Operand) {
    let fresh = st.last_point is Some && st.last_point->0 != pos;
    let seen = if fresh {
        Seq::empty()
    } else {
        st.seen
    };
    let first_preg = if fresh {
        Seq::empty()
    } else {
        st.first_preg
    };
    let t = FixState { last_point: Some(pos), seen, first_preg, ..st };
    match op.policy {
        OperandPolicy::FixedReg(preg) => {
            let i = seen_position(seen, op.vreg, 0);
            if i < seen.len() {
                (
                    FixState {
                        extra_pregs: t.extra_pregs.push(preg.ix() as u32),
                        extra_insts: t.extra_insts.push(pos.inst.0),
                        fixups: t.fixups.push(
                            (pos, PRegIndex(first_preg[i]), PRegIndex(preg.ix() as u32)),
                        ),
                        ..t
                    },
                    Operand { policy: OperandPolicy::Reg, ..op },
                )
            } else {
                (
                    FixState {
                        seen: seen.push(op.vreg),
                        first_preg: first_preg.push(preg.ix() as u32),
                        ..t
                    },
                    op,
                )
            }
        },
        _ => (t, op),
    }
}

/// What was noted refers to registers and instructions that exist.
pub open spec fn fix_ok(c: Ctx, st: FixState) -> bool {
    &&& st.seen.len() == st.first_preg.len()
    &&& forall|i: int| 0 <= i < st.first_preg.len() ==> (#[trigger] st.first_preg[i]) < c.m.regs.len()
    &&& st.extra_pregs.len() == st.extra_insts.len()
    &&& forall|i: int| 0 <= i < st.extra_pregs.len() ==> (#[trigger] st.extra_pregs[i]) < c.m.regs.len()
    &&& forall|i: int| 0 <= i < st.extra_insts.len() ==> (#[trigger] st.extra_insts[i]) < c.f.insts
    &&& forall|i: int| 0 <= i < st.fixups.len() ==> fixup_ok(c, #[trigger] st.fixups[i])
}

proof fn lemma_seen_position(seen: Seq<VReg>, v: VReg, i: int)
    requires
        0 <= i <= seen.len(),
    ensures
        i <= seen_position(seen, v, i) <= seen.len(),
    decreases seen.len() - i,
{
    if i < seen.len() && seen[i] != v {
        lemma_seen_position(seen, v, i + 1);
    }
}

impl FixupScan {
    /// The mathematical value, with the copies noted so far.
    pub open spec fn state(&self, fixups: Seq<Fixup>) -> FixState {
        FixState {
            last_point: self.last_point,
            seen: self.seen@,
            first_preg: self.first_preg@,
            extra_pregs: self.extra_pregs@,
            extra_insts: self.extra_insts@,
            fixups,
        }
    }

    /// Nothing was seen yet.
    pub fn new() -> (r: Self)
        ensures
            forall|fixups: Seq<Fixup>| #[trigger] r.state(fixups) == fix_start(fixups),
    {
        FixupScan {
            last_point: None,
            seen: Vec::new(),
            first_preg: small_new(),
            extra_pregs: small_new(),
            extra_insts: small_new(),
        }
    }

    /// Look at a mention.
    pub fn fixup_multi_fixed_vregs(
        &mut self,
        pos: ProgPoint,
        op: Operand,
        fixups: &mut Vec<Fixup>,
        Ghost(c): Ghost<Ctx>,
    ) -> (r: Operand)
        requires
            fix_ok(c, old(self).state(old(fixups)@)),
            operand_reg_ok(c, op),
            pos.inst.0 < c.f.insts,
        ensures
            (final(self).state(final(fixups)@), r) == fix_mention(
                old(self).state(old(fixups)@),
                pos,
                op,
            ),
            fix_ok(c, final(self).state(final(fixups)@)),
    {
        let ghost st = self.state(fixups@);
        match self.last_point {
            Some(last) => {
                if last != pos {
                    self.seen.clear();
                    small_clear(&mut self.first_preg);
                }
            },
            None => {},
        }
        self.last_point = Some(pos);
        let ghost t = self.state(fixups@);
        match op.policy() {
            OperandPolicy::FixedReg(preg) => {
                let preg_idx: u32 = preg.index() as u32;
                let mut i: usize = 0;
                while i < self.seen.len() && self.seen[i] != op.vreg()
                    invariant
                        i <= self.seen@.len(),
                        seen_position(self.seen@, op.vreg, 0) == seen_position(
                            self.seen@,
                            op.vreg,
                            i as int,
                        ),
                    decreases self.seen@.len() - i,
                {
                    i += 1;
                }
                if i < self.seen.len() {
                    let orig_preg = small_get(&self.first_preg, i);
                    fixups.push((pos, PRegIndex(orig_preg), PRegIndex(preg_idx)));
                    small_push(&mut self.extra_pregs, preg_idx);
                    small_push(&mut self.extra_insts, pos.inst.0);
                    proof {
                        let u = self.state(fixups@);
                        assert(t.first_preg[i as int] < c.m.regs.len());
                        assert forall|k: int| 0 <= k < u.fixups.len() implies fixup_ok(
                            c,
                            #[trigger] u.fixups[k],
                        ) by {
                            if k < st.fixups.len() {
                                assert(fixup_ok(c, st.fixups[k]));
                            }
                        }
                        assert forall|k: int| 0 <= k < u.extra_pregs.len() implies (
                        #[trigger] u.extra_pregs[k]) < c.m.regs.len() by {
                            if k < st.extra_pregs.len() {
                                assert(st.extra_pregs[k] < c.m.regs.len());
                            }
                        }
                        assert forall|k: int| 0 <= k < u.extra_insts.len() implies (
                        #[trigger] u.extra_insts[k]) < c.f.insts by {
                            if k < st.extra_insts.len() {
                                assert(st.extra_insts[k] < c.f.insts);
                            }
                        }
                    }
                    Operand::new(op.vreg(), OperandPolicy::Reg, op.kind(), op.pos())
                } else {
                    self.seen.push(op.vreg());
                    small_push(&mut self.first_preg, preg_idx);
                    proof {
                        let u = self.state(fixups@);
                        assert forall|k: int| 0 <= k < u.first_preg.len() implies (
                        #[trigger] u.first_preg[k]) < c.m.regs.len() by {
                            if k < t.first_preg.len() {
                                assert(t.first_preg[k] < c.m.regs.len());
                            }
                        }
                    }
                    op
                }
            },
            _ => op,
        }
    }
}

/// Nothing was seen yet.
pub open spec fn fix_start(fixups: Seq<Fixup>) -> FixState {
    FixState {
        last_point: None,
        seen: Seq::empty(),
        first_preg: Seq::empty(),
        extra_pregs: Seq::empty(),
        extra_insts: Seq::empty(),
        fixups,
    }
}

/// The uses in the list from position `j` on are looked at.
pub open spec fn fix_uses(st: FixState, uses: Seq<Use>, list: Seq<u32>, j: int) -> (
    FixState,
    Seq<Use>,
)
    decreases list.len() - j,
{
    if j < 0 || j >= list.len() {
        (st, uses)
    } else {
        let u = list[j] as int;
        let (t, op) = fix_mention(st, uses[u].pos, uses[u].operand);
        fix_uses(t, uses.update(u, Use { operand: op, ..uses[u] }), list, j + 1)
    }
}

/// Copies go to these registers, so they are taken over the instructions.
pub open spec fn pass_extra(s: PassState, pregs: Seq<u32>, insts: Seq<u32>, i: int) -> Result<
    PassState,
    RegAllocError,
>
    decreases pregs.len() - i,
{
    if i < 0 || i >= pregs.len() {
        Ok(s)
    } else {
        match pass_take_preg(s, inst_range(Inst(insts[i])), pregs[i] as int) {
            Ok(t) => pass_extra(t, pregs, insts, i + 1),
            Err(e) => Err(e),
        }
    }
}

/// The definition of register `v` is looked at, if the live range has it.
pub open spec fn fix_def(st: FixState, g: GraphState, v: int, r: u32) -> (FixState, Seq<Def>) {
    if g.ranges[r as int].def.is_valid() {
        let d = g.vregs[v].def.ix();
        let (t, op) = fix_mention(st, g.defs[d].pos, g.defs[d].operand);
        (t, g.defs.update(d, Def { operand: op, ..g.defs[d] }))
    } else {
        (st, g.defs)
    }
}

/// The mentions of live range `r` of register `v` are looked at.
pub open spec fn pass_fix_range(s: PassState, v: int, r: u32) -> Result<PassState, RegAllocError> {
    let (st, defs) = fix_def(fix_start(s.fixups), s.g, v, r);
    let (t, uses) = fix_uses(st, s.g.uses, s.g.in_range[r as int], 0);
    let u = PassState { g: GraphState { uses, defs, ..s.g }, fixups: t.fixups, ..s };
    pass_extra(u, t.extra_pregs, t.extra_insts, 0)
}

/// The live ranges of register `v` from position `i` on.
pub open spec fn pass_fix_list(s: PassState, v: int, list: Seq<u32>, i: int) -> Result<
    PassState,
    RegAllocError,
>
    decreases list.len() - i,
{
    if i < 0 || i >= list.len() {
        Ok(s)
    } else {
        match pass_fix_range(s, v, list[i]) {
            Ok(t) => pass_fix_list(t, v, list, i + 1),
            Err(e) => Err(e),
        }
    }
}

/// The live ranges of the registers from `v` on.
pub open spec fn pass_fix_all(s: PassState, v: int, n: int) -> Result<PassState, RegAllocError>
    decreases n - v,
{
    if v >= n {
        Ok(s)
    } else {
        match pass_fix_list(s, v, s.g.in_vreg[v], 0) {
            Ok(t) => pass_fix_all(t, v + 1, n),
            Err(e) => Err(e),
        }
    }
}

/// A demand for one given register may become one for any register.
pub open spec fn relaxed(a: Operand, b: Operand) -> bool {
    a == b || (a.policy is FixedReg && b == (Operand { policy: OperandPolicy::Reg, ..a }))
}

/// Nothing but demands has changed, and those were relaxed.
pub open spec fn uses_relaxed(a: Seq<Use>, b: Seq<Use>) -> bool {
    &&& a.len() == b.len()
    &&& forall|u: int|
        0 <= u < a.len() ==> {
            &&& (#[trigger] b[u]).pos == a[u].pos
            &&& b[u].slot == a[u].slot
            &&& relaxed(a[u].operand, b[u].operand)
        }
}

proof fn lemma_weight_relaxed(a: Seq<Use>, b: Seq<Use>, list: Seq<u32>)
    requires
        uses_relaxed(a, b),
        forall|i: int| 0 <= i < list.len() ==> (#[trigger] list[i]) < a.len(),
    ensures
        uses_weight(b, list) == uses_weight(a, list),
        fixed_count(b, list) <= fixed_count(a, list),
    decreases list.len(),
{
    if list.len() > 0 {
        let u = list[list.len() - 1];
        assert(relaxed(a[u as int].operand, b[u as int].operand));
        assert forall|i: int| 0 <= i < list.drop_last().len() implies (
        #[trigger] list.drop_last()[i]) < a.len() by {
            assert(list.drop_last()[i] == list[i]);
        }
        lemma_weight_relaxed(a, b, list.drop_last());
    }
}

/// Relaxed demands do no harm to the tables.
proof fn lemma_relaxed_ok(c: Ctx, g: GraphState, h: GraphState)
    requires
        graph_ok(c.f, g),
        mentions_ok(c, g),
        h == (GraphState { uses: h.uses, defs: h.defs, ..g }),
        uses_relaxed(g.uses, h.uses),
        h.defs.len() == g.defs.len(),
        forall|d: int|
            0 <= d < g.defs.len() ==> {
                &&& (#[trigger] h.defs[d]).pos == g.defs[d].pos
                &&& h.defs[d].slot == g.defs[d].slot
                &&& relaxed(g.defs[d].operand, h.defs[d].operand)
            },
    ensures
        graph_ok(c.f, h),
        mentions_ok(c, h),
{
    assert forall|r: int| 0 <= r < h.ranges.len() implies #[trigger] range_ok(c.f, h, r) by {
        assert(range_ok(c.f, g, r));
    }
    assert forall|r: int| 0 <= r < h.ranges.len() implies #[trigger] stats_ok(h, r) by {
        assert(stats_ok(g, r));
        assert forall|i: int| 0 <= i < g.in_range[r].len() implies (#[trigger] g.in_range[r][i])
            < g.uses.len() by {
            lemma_below(g.in_range, g.uses.len() as int, r, i);
        }
        lemma_weight_relaxed(g.uses, h.uses, g.in_range[r]);
    }
    assert forall|v: int| 0 <= v < h.vregs.len() implies #[trigger] vreg_ok(c.f, h, v) by {
        assert(vreg_ok(c.f, g, v));
    }
    assert forall|u: int| 0 <= u < h.uses.len() implies operand_reg_ok(
        c,
        (#[trigger] h.uses[u]).operand,
    ) by {
        assert(operand_reg_ok(c, g.uses[u].operand));
    }
    assert forall|d: int| 0 <= d < h.defs.len() implies operand_reg_ok(
        c,
        (#[trigger] h.defs[d]).operand,
    ) by {
        assert(operand_reg_ok(c, g.defs[d].operand));
    }
}

/// Every register that was seen at the last point is one for which an operand there demands a given
/// register, and that operand is none of those from position `j` of the list on.
spec fn noted(f: FuncModel, st: FixState, uses: Seq<Use>, list: Seq<u32>, j: int) -> bool {
    forall|x: int|
        0 <= x < st.seen.len() ==> st.last_point is Some && noted_one(
            f,
            st.last_point->0.inst.ix(),
            #[trigger] st.seen[x],
            uses,
            list,
            j,
        )
}

spec fn noted_one(f: FuncModel, i: int, v: VReg, uses: Seq<Use>, list: Seq<u32>, j: int) -> bool {
    exists|k: int| #[trigger] demand_at(f, i, k, v) && not_ahead(i, k, uses, list, j)
}

/// Operand `k` of instruction `i` demands a given register for the register.
spec fn demand_at(f: FuncModel, i: int, k: int, v: VReg) -> bool {
    0 <= k < f.operands[i].len() && f.operands[i][k].policy is FixedReg && f.operands[i][k].vreg == v
}

/// None of the uses from position `j` of the list on is for operand `k` of instruction `i`.
spec fn not_ahead(i: int, k: int, uses: Seq<Use>, list: Seq<u32>, j: int) -> bool {
    forall|y: int|
        j <= y < list.len() ==> uses[(#[trigger] list[y]) as int].pos.inst.ix() != i
            || uses[list[y] as int].slot != k
}

/// A mention for operand `k` of the instruction at the point is looked at.
proof fn lemma_noted(
    f: FuncModel,
    st: FixState,
    pos: ProgPoint,
    k: int,
    op: Operand,
    uses: Seq<Use>,
    list: Seq<u32>,
    j: int,
    next: int,
)
    requires
        noted(f, st, uses, list, j),
        j <= next,
        0 <= k < f.operands[pos.inst.ix()].len(),
        relaxed(f.operands[pos.inst.ix()][k], op),
        not_ahead(pos.inst.ix(), k, uses, list, next),
    ensures
        noted(f, fix_mention(st, pos, op).0, uses, list, next),
        fix_mention(st, pos, op).1 != op ==> exists|l: int|
            #[trigger] demand_at(f, pos.inst.ix(), l, op.vreg) && not_ahead(
                pos.inst.ix(),
                l,
                uses,
                list,
                j,
            ),
{
    let (t, new) = fix_mention(st, pos, op);
    let i = pos.inst.ix();
    let fresh = st.last_point is Some && st.last_point->0 != pos;
    let seen = if fresh {
        Seq::empty()
    } else {
        st.seen
    };
    assert forall|x: int| 0 <= x < seen.len() implies st.last_point is Some && st.last_point->0 == pos
        && noted_one(f, i, #[trigger] seen[x], uses, list, j) && noted_one(
        f,
        i,
        seen[x],
        uses,
        list,
        next,
    ) by {
        assert(noted_one(f, i, st.seen[x], uses, list, j));
        let l = choose|l: int|
            #[trigger] demand_at(f, i, l, seen[x]) && not_ahead(i, l, uses, list, j);
        assert(not_ahead(i, l, uses, list, next));
    }
    let at = seen_position(seen, op.vreg, 0);
    lemma_seen_position(seen, op.vreg, 0);
    if op.policy is FixedReg {
        assert(f.operands[i][k] == op);
        assert(demand_at(f, i, k, op.vreg));
        assert(noted_one(f, i, op.vreg, uses, list, next));
        if at < seen.len() {
            lemma_seen_at(seen, op.vreg, 0);
            assert(noted_one(f, i, seen[at], uses, list, j));
        }
    }
    assert forall|x: int| 0 <= x < t.seen.len() implies t.last_point is Some && noted_one(
        f,
        t.last_point->0.inst.ix(),
        #[trigger] t.seen[x],
        uses,
        list,
        next,
    ) by {
        if x < seen.len() {
            assert(t.seen[x] == seen[x]);
        }
    }
}

/// The definition of a live range is looked at before its uses.
proof fn lemma_def_noted(f: FuncModel, g: GraphState, st: FixState, v: int, r: u32)
    requires
        graph_ok(f, g),
        uses_fit(f, g),
        defs_named(f, g.defs),
        r < g.ranges.len(),
        g.ranges[r as int].vreg.0 == v,
        0 <= v < g.vregs.len(),
        st.seen.len() == 0,
    ensures
        noted(f, fix_def(st, g, v, r).0, g.uses, g.in_range[r as int], 0),
{
    let list = g.in_range[r as int];
    if g.ranges[r as int].def.is_valid() {
        assert(range_ok(f, g, r as int));
        assert(vreg_ok(f, g, v));
        let def = g.defs[g.vregs[v].def.ix()];
        assert(mention_ok(f, def.pos, def.slot));
        assert forall|y: int| 0 <= y < list.len() implies g.uses[(
        #[trigger] list[y]) as int].pos.inst.ix() != def.pos.inst.ix()
            || g.uses[list[y] as int].slot != def.slot by {
            lemma_below(g.in_range, g.uses.len() as int, r as int, y);
            assert(use_named(f, g.uses[list[y] as int]));
        }
        lemma_noted(f, st, def.pos, def.slot as int, def.operand, g.uses, list, 0, 0);
    }
}

/// A use is looked at: it keeps its demand unless another operand demands a given register too.
proof fn lemma_use_noted(f: FuncModel, g: GraphState, st: FixState, u: Use, r: u32, j: int)
    requires
        graph_ok(f, g),
        uses_distinct(g.uses),
        r < g.ranges.len(),
        0 <= j < g.in_range[r as int].len(),
        noted(f, st, g.uses, g.in_range[r as int], j),
        use_named(f, u),
        u.pos == g.uses[g.in_range[r as int][j] as int].pos,
        u.slot == g.uses[g.in_range[r as int][j] as int].slot,
    ensures
        noted(f, fix_mention(st, u.pos, u.operand).0, g.uses, g.in_range[r as int], j + 1),
        use_named(f, (Use { operand: fix_mention(st, u.pos, u.operand).1, ..u })),
{
    let list = g.in_range[r as int];
    let i = u.pos.inst.ix();
    let n = list[j] as int;
    lemma_below(g.in_range, g.uses.len() as int, r as int, j);
    assert(mention_ok(f, g.uses[n].pos, g.uses[n].slot));
    assert forall|y: int| j + 1 <= y < list.len() implies g.uses[(
    #[trigger] list[y]) as int].pos.inst.ix() != i || g.uses[list[y] as int].slot != u.slot by {
        lemma_below(g.in_range, g.uses.len() as int, r as int, y);
        lemma_neq(g.in_range, g.uses.len() as int, r as int, y, r as int, j);
        let m = list[y] as int;
        if m < n {
            assert(g.uses[m].pos.inst != g.uses[n].pos.inst || g.uses[m].slot != g.uses[n].slot);
        } else {
            assert(g.uses[n].pos.inst != g.uses[m].pos.inst || g.uses[n].slot != g.uses[m].slot);
        }
    }
    lemma_noted(f, st, u.pos, u.slot as int, u.operand, g.uses, list, j, j + 1);
    let op = fix_mention(st, u.pos, u.operand).1;
    if op != u.operand {
        let l = choose|l: int|
            #[trigger] demand_at(f, i, l, u.operand.vreg) && not_ahead(i, l, g.uses, list, j);
        assert(g.uses[list[j] as int].slot != l);
        assert(f.operands[i][l].policy is FixedReg);
        assert(!lone_demand(f, i, u.slot as int));
    }
}

proof fn lemma_still_distinct(a: Seq<Use>, b: Seq<Use>)
    requires
        uses_distinct(a),
        sites_kept(a, b),
    ensures
        uses_distinct(b),
{
    assert forall|u: int, w: int|
        #![trigger b[u], b[w]]
        0 <= u < w < b.len() implies b[u].pos.inst != b[w].pos.inst || b[u].slot != b[w].slot by {
        let _ = (a[u], a[w]);
    }
}

proof fn lemma_seen_at(seen: Seq<VReg>, v: VReg, i: int)
    requires
        0 <= i <= seen.len(),
        seen_position(seen, v, i) < seen.len(),
    ensures
        seen[seen_position(seen, v, i)] == v,
    decreases seen.len() - i,
{
    if i < seen.len() && seen[i] != v {
        lemma_seen_at(seen, v, i + 1);
    }
}

impl<'a, F: Function> LivenessPass<'a, F> {
    /// Look at the mentions of a live range.
    fn fix_range(&mut self, v: usize, r: LiveRangeIndex) -> (res: Result<(), RegAllocError>)
        requires
            old(self).wf(),
            uses_distinct(old(self)@.g.uses),
            r.0 < old(self)@.g.ranges.len(),
            old(self)@.g.ranges[r.ix()].vreg.0 == v,
            v < old(self).ctx().f.num_vregs,
        ensures
            final(self).ctx() == old(self).ctx(),
            match pass_fix_range(old(self)@, v as int, r.0) {
                Ok(s) => {
                    &&& res is Ok
                    &&& final(self)@ == s
                    &&& final(self).wf()
                    &&& sites_kept(old(self)@.g.uses, s.g.uses)
                    &&& held(old(self).ctx().f, old(self)@.g) ==> held(old(self).ctx().f, s.g)
                    &&& s.g.defs == old(self)@.g.defs
                    &&& s.liveins == old(self)@.liveins
                    &&& spans_stay(old(self)@.g, s.g)
                    &&& s.g.in_vreg == old(self)@.g.in_vreg
                    &&& s.g.ranges.len() >= old(self)@.g.ranges.len()
                    &&& forall|k: int|
                        0 <= k < old(self)@.g.ranges.len() ==> (#[trigger] s.g.ranges[k]).vreg
                            == old(self)@.g.ranges[k].vreg
                },
                Err(e) => res == Err::<(), RegAllocError>(e) && e is TooLarge,
            },
    {
        let ghost s = self@;
        let ghost c = self.ctx();
        let mut scan = FixupScan::new();
        let ghost st0 = scan.state(s.fixups);
        assert(st0 == fix_start(s.fixups));
        proof {
            assert(range_ok(c.f, s.g, r.ix()));
            assert(vreg_ok(c.f, s.g, v as int));
        }
        if self.g.ranges[r.index()].def.is_valid() {
            let def_idx = self.g.vregs[v].def;
            let def = self.g.defs[def_idx.index()];
            assert(operand_reg_ok(c, s.g.defs[def_idx.ix()].operand));
            let op = scan.fixup_multi_fixed_vregs(
                def.pos,
                def.operand,
                &mut self.multi_fixed_reg_fixups,
                Ghost(c),
            );
            self.g.defs.set(def_idx.index(), Def { operand: op, ..def });
        }
        let ghost st1 = scan.state(self.multi_fixed_reg_fixups@);
        let ghost defs1 = self.g@.defs;
        let ghost list = s.g.in_range[r.ix()];
        proof {
            assert((st1, defs1) == fix_def(st0, s.g, v as int, r.0));
            lemma_def_noted(c.f, s.g, st0, v as int, r.0);
        }
        let mut use_iter = self.g.in_range.first(r.index());
        let ghost mut j: int = 0;
        while use_iter != NIL
            invariant
                self.g.linked(),
                self.ctx() == c,
                fix_ok(c, scan.state(self.multi_fixed_reg_fixups@)),
                r.0 < s.g.ranges.len(),
                graph_ok(c.f, s.g),
                mentions_ok(c, s.g),
                list == s.g.in_range[r.ix()],
                self@ == (PassState {
                    g: GraphState { uses: self@.g.uses, defs: defs1, ..s.g },
                    fixups: self@.fixups,
                    ..s
                }),
                uses_relaxed(s.g.uses, self@.g.uses),
                self@.fixups.len() >= s.fixups.len(),
                self@.fixups.len() == 0 ==> self@.g.uses == s.g.uses,
                uses_distinct(s.g.uses),
                uses_fit(c.f, s.g),
                noted(c.f, scan.state(self.multi_fixed_reg_fixups@), s.g.uses, list, j),
                forall|k: int|
                    0 <= k < s.g.uses.len() ==> use_named(c.f, #[trigger] self@.g.uses[k]),
                forall|p: int|
                    0 <= p < self.pregs@.len() ==> (#[trigger] self.pregs@[p]).reg
                        == self.env.regs@[p],
                self.g.func@ == c.f,
                0 <= j <= list.len(),
                use_iter == node_at(list, j),
                use_iter == NIL <==> j == list.len(),
                use_iter != NIL ==> use_iter < s.g.uses.len(),
                fix_uses(st1, s.g.uses, list, 0) == fix_uses(
                    scan.state(self.multi_fixed_reg_fixups@),
                    self@.g.uses,
                    list,
                    j,
                ),
            decreases list.len() - j,
        {
            let ghost before = self@.g.uses;
            let u = self.g.uses[use_iter as usize];
            proof {
                assert(operand_reg_ok(c, s.g.uses[use_iter as int].operand));
                assert(relaxed(s.g.uses[use_iter as int].operand, u.operand));
                assert(s.g.uses[use_iter as int].pos == u.pos);
            }
            let ghost st = scan.state(self.multi_fixed_reg_fixups@);
            let op = scan.fixup_multi_fixed_vregs(
                u.pos,
                u.operand,
                &mut self.multi_fixed_reg_fixups,
                Ghost(c),
            );
            self.g.uses.set(use_iter as usize, Use { operand: op, ..u });
            proof {
                if op == u.operand {
                    assert(self@.g.uses =~= before);
                }
                assert forall|k: int| 0 <= k < s.g.uses.len() implies {
                    &&& (#[trigger] self@.g.uses[k]).pos == s.g.uses[k].pos
                    &&& self@.g.uses[k].slot == s.g.uses[k].slot
                    &&& relaxed(s.g.uses[k].operand, self@.g.uses[k].operand)
                } by {
                    assert(before[k].pos == s.g.uses[k].pos);
                    if k == use_iter {
                        assert(relaxed(u.operand, op));
                    }
                }
                lemma_use_noted(c.f, s.g, st, u, r.0, j);
                assert forall|k: int| 0 <= k < s.g.uses.len() implies use_named(
                    c.f,
                    #[trigger] self@.g.uses[k],
                ) by {
                    assert(use_named(c.f, before[k]));
                }
            }
            use_iter = self.g.in_range.next(use_iter, Ghost(r.ix()), Ghost(j));
            proof {
                j = j + 1;
            }
        }
        let ghost st2 = scan.state(self.multi_fixed_reg_fixups@);
        proof {
            lemma_relaxed_ok(c, s.g, self@.g);
            lemma_same_uses(c.f, s.g, self@.g);
            assert(self@.g.defs =~= s.g.defs);
            lemma_marks_same(c.f, s.g, self@.g);
            let noted = PassState { fixups: self@.fixups, ..s };
            assert(pass_ok(c, noted));
            lemma_pass_same_ranges(c, noted, self@);
            lemma_spans_same(c.f, s.g, self@.g);
        }
        let ghost t = self@;
        let mut i: usize = 0;
        while i < small_len(&scan.extra_pregs)
            invariant
                self.wf(),
                self.ctx() == c,
                c == old(self).ctx(),
                s == old(self)@,
                fix_ok(c, st2),
                scan.extra_pregs@ == st2.extra_pregs,
                scan.extra_insts@ == st2.extra_insts,
                i <= st2.extra_pregs.len(),
                sites_kept(s.g.uses, self@.g.uses),
                held(c.f, s.g) ==> held(c.f, self@.g),
                self@.g.defs == s.g.defs,
                self@.liveins == s.liveins,
                spans_stay(s.g, self@.g),
                self@.g.in_vreg == s.g.in_vreg,
                self@.g.ranges.len() >= s.g.ranges.len(),
                forall|k: int|
                    0 <= k < s.g.ranges.len() ==> (#[trigger] self@.g.ranges[k]).vreg
                        == s.g.ranges[k].vreg,
                pass_fix_range(s, v as int, r.0) == pass_extra(
                    t,
                    st2.extra_pregs,
                    st2.extra_insts,
                    0,
                ),
                pass_extra(t, st2.extra_pregs, st2.extra_insts, 0) == pass_extra(
                    self@,
                    st2.extra_pregs,
                    st2.extra_insts,
                    i as int,
                ),
            decreases st2.extra_pregs.len() - i,
        {
            let clobber = small_get(&scan.extra_pregs, i);
            let inst = Inst(small_get(&scan.extra_insts, i));
            assert(st2.extra_insts[i as int] < c.f.insts);
            assert(st2.extra_pregs[i as int] < c.m.regs.len());
            let range = CodeRange {
                from: ProgPoint::before(inst),
                to: ProgPoint::before(inst.next()),
            };
            assert(range == inst_range(inst));
            let ghost w = self@;
            match self.add_liverange_to_preg(range, clobber as usize) {
                Ok(()) => {
                    proof {
                        lemma_spans_same(c.f, w.g, self@.g);
                        lemma_spans_trans(s.g, w.g, self@.g);
                    }
                },
                Err(e) => {
                    return Err(e);
                },
            }
            i += 1;
        }
        Ok(())
    }

    /// Look at the mentions of all live ranges.
    pub fn fix_all(&mut self) -> (res: Result<(), RegAllocError>)
        requires
            old(self).wf(),
            uses_distinct(old(self)@.g.uses),
        ensures
            final(self).ctx() == old(self).ctx(),
            match pass_fix_all(old(self)@, 0, old(self).ctx().f.num_vregs as int) {
                Ok(s) => {
                    &&& res is Ok
                    &&& final(self)@ == s
                    &&& final(self).wf()
                    &&& sites_kept(old(self)@.g.uses, s.g.uses)
                    &&& held(old(self).ctx().f, old(self)@.g) ==> held(old(self).ctx().f, s.g)
                    &&& s.g.defs == old(self)@.g.defs
                    &&& s.liveins == old(self)@.liveins
                    &&& spans_stay(old(self)@.g, s.g)
                },
                Err(e) => res == Err::<(), RegAllocError>(e) && e is TooLarge,
            },
    {
        let ghost s = self@;
        let ghost c = self.ctx();
        let n = self.g.vregs.len();
        let mut v: usize = 0;
        while v < n
            invariant
                self.wf(),
                self.ctx() == c,
                c == old(self).ctx(),
                s == old(self)@,
                n == c.f.num_vregs,
                v <= n,
                uses_distinct(s.g.uses),
                sites_kept(s.g.uses, self@.g.uses),
                held(c.f, s.g) ==> held(c.f, self@.g),
                self@.g.defs == s.g.defs,
                self@.liveins == s.liveins,
                spans_stay(s.g, self@.g),
                pass_fix_all(s, 0, n as int) == pass_fix_all(self@, v as int, n as int),
            decreases n - v,
        {
            let ghost t = self@;
            let ghost list = t.g.in_vreg[v as int];
            let mut iter = LiveRangeIndex(self.g.in_vreg.first(v));
            let ghost mut i: int = 0;
            while iter.is_valid()
                invariant
                    self.wf(),
                    self.ctx() == c,
                    c == old(self).ctx(),
                    s == old(self)@,
                    n == c.f.num_vregs,
                    v < n,
                    uses_distinct(s.g.uses),
                    sites_kept(s.g.uses, self@.g.uses),
                    held(c.f, s.g) ==> held(c.f, self@.g),
                    self@.g.defs == s.g.defs,
                    self@.liveins == s.liveins,
                    spans_stay(s.g, self@.g),
                    self@.g.in_vreg == t.g.in_vreg,
                    list == t.g.in_vreg[v as int],
                    0 <= i <= list.len(),
                    iter.0 == node_at(list, i),
                    iter.0 == NIL <==> i == list.len(),
                    iter.0 != NIL ==> iter.0 < self@.g.ranges.len(),
                    pass_fix_all(s, 0, n as int) == pass_fix_all(t, v as int, n as int),
                    pass_fix_list(t, v as int, list, 0) == pass_fix_list(
                        self@,
                        v as int,
                        list,
                        i,
                    ),
                decreases list.len() - i,
            {
                assert(self@.g.in_vreg[v as int][i] == iter.0);
                proof {
                    lemma_still_distinct(s.g.uses, self@.g.uses);
                }
                let ghost w = self@;
                match self.fix_range(v, iter) {
                    Ok(()) => {
                        proof {
                            lemma_spans_trans(s.g, w.g, self@.g);
                        }
                    },
                    Err(e) => {
                        return Err(e);
                    },
                }
                iter = LiveRangeIndex(self.g.in_vreg.next(iter.0, Ghost(v as int), Ghost(i)));
                proof {
                    i = i + 1;
                }
            }
            v += 1;
        }
        Ok(())
    }
}

impl HasKey for Inst {
    open spec fn key(&self) -> int {
        self.0 as int
    }
}

impl Keyed for Inst {
    fn sort_key(&self) -> (k: u128) {
        self.0 as u128
    }
}

impl HasKey for BlockparamIn {
    open spec fn key(&self) -> int {
        (self.0.0 * 0x1_0000_0000 + self.1.0) * 0x1_0000_0000 + self.2.0
    }
}

impl Keyed for BlockparamIn {
    fn sort_key(&self) -> (k: u128) {
        (self.0.0 as u128 * 0x1_0000_0000 + self.1.0 as u128) * 0x1_0000_0000 + self.2.0 as u128
    }
}

impl HasKey for BlockparamOut {
    open spec fn key(&self) -> int {
        ((self.0.0 * 0x1_0000_0000 + self.1.0) * 0x1_0000_0000 + self.2.0) * 0x1_0000_0000
            + self.3.0
    }
}

impl Keyed for BlockparamOut {
    fn sort_key(&self) -> (k: u128) {
        ((self.0.0 as u128 * 0x1_0000_0000 + self.1.0 as u128) * 0x1_0000_0000 + self.2.0 as u128)
            * 0x1_0000_0000 + self.3.0 as u128
    }
}

} // verus!
