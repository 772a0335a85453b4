//! The edits that the client makes to the code, in program order.
use crate::apply::{param_ok, BlockparamAlloc};
use crate::cfg::CFGInfo;
use crate::data::{InsertMovePrio, InsertedMove, VRegData};
use crate::func::{block_ok, Function, MachineEnv};
use crate::index::{Block, LiveRangeIndex};
use crate::liveness::{ctx_ok, Ctx};
use crate::moves::{in_sequence, MovePair, ParallelMoves};
use crate::reg::{Allocation, Edit, EditModel, InstPosition, ProgPoint, RegAllocError, VReg};
use crate::sort::{
    keys_sorted, lemma_sort_mapped, lemma_sorted_member, sort_by_key, stable_sort, HasKey, Keyed,
};
use vstd::prelude::*;

verus! {

/// An edit with the place of its point in program order and its place among those at one point.
#[derive(Debug)]
pub struct PlacedEdit {
    pub pos: u32,
    pub prio: InsertMovePrio,
    pub edit: Edit,
}

/// The mathematical value of a `PlacedEdit`.
#[verifier::ext_equal]
pub struct PlacedModel {
    pub pos: u32,
    pub prio: InsertMovePrio,
    pub edit: EditModel,
}

impl View for PlacedEdit {
    type V = PlacedModel;

    open spec fn view(&self) -> PlacedModel {
        PlacedModel { pos: self.pos, prio: self.prio, edit: self.edit@ }
    }
}

/// The values of the edits.
pub open spec fn placed_values(edits: Seq<PlacedEdit>) -> Seq<PlacedModel> {
    edits.map_values(|e: PlacedEdit| e@)
}

/// The place of a point and a priority among all of them.
pub open spec fn place_key(pos: int, prio: InsertMovePrio) -> int {
    pos * 8 + prio.rank()
}

impl HasKey for PlacedModel {
    open spec fn key(&self) -> int {
        place_key(self.pos as int, self.prio)
    }
}

impl HasKey for PlacedEdit {
    open spec fn key(&self) -> int {
        place_key(self.pos as int, self.prio)
    }
}

impl Keyed for PlacedEdit {
    fn sort_key(&self) -> (k: u128) {
        self.pos as u128 * 8 + self.prio.rank() as u128
    }
}

impl HasKey for InsertedMove {
    open spec fn key(&self) -> int {
        place_key(self.pos.ix(), self.prio)
    }
}

impl Keyed for InsertedMove {
    fn sort_key(&self) -> (k: u128) {
        let half: u128 = if self.pos.pos == InstPosition::Before {
            0
        } else {
            1
        };
        (self.pos.inst.0 as u128 * 2 + half) * 8 + self.prio.rank() as u128
    }
}

impl HasKey for BlockparamAlloc {
    open spec fn key(&self) -> int {
        self.0.0 * 0x1_0000_0000 + self.1
    }
}

impl Keyed for BlockparamAlloc {
    fn sort_key(&self) -> (k: u128) {
        self.0.0 as u128 * 0x1_0000_0000 + self.1 as u128
    }
}

/// The edits with one more; a move from a location to itself is left out.
pub open spec fn edits_add(
    edits: Seq<PlacedModel>,
    pos: ProgPoint,
    prio: InsertMovePrio,
    edit: EditModel,
) -> Seq<PlacedModel> {
    if edit matches EditModel::Move { from, to } && from == to {
        edits
    } else {
        edits.push(PlacedModel { pos: pos.ix() as u32, prio, edit })
    }
}

/// The first position from `j` on whose move has another point or priority than the one at `i`.
pub open spec fn group_end(moves: Seq<InsertedMove>, i: int, j: int) -> int
    decreases moves.len() - j,
{
    if j < 0 || j >= moves.len() || moves[j].pos != moves[i].pos || moves[j].prio != moves[i].prio {
        j
    } else {
        group_end(moves, i, j + 1)
    }
}

/// Sources and destinations of the moves from `i` to `n` that are not from a location to itself.
pub open spec fn group_pairs(moves: Seq<InsertedMove>, i: int, n: int) -> Seq<MovePair>
    decreases n - i,
{
    if i >= n {
        Seq::empty()
    } else {
        let rest = group_pairs(moves, i, n - 1);
        let m = moves[n - 1];
        if m.from_alloc != m.to_alloc {
            rest.push((m.from_alloc, m.to_alloc))
        } else {
            rest
        }
    }
}

/// The edits with the moves from position `k` on.
pub open spec fn edits_add_moves(
    edits: Seq<PlacedModel>,
    pos: ProgPoint,
    prio: InsertMovePrio,
    list: Seq<MovePair>,
    k: int,
) -> Seq<PlacedModel>
    decreases list.len() - k,
{
    if k < 0 || k >= list.len() {
        edits
    } else {
        edits_add_moves(
            edits_add(edits, pos, prio, EditModel::Move { from: list[k].0, to: list[k].1 }),
            pos,
            prio,
            list,
            k + 1,
        )
    }
}

/// The edits with the moves from position `i` on. Those of one point and priority happen in
/// parallel; the scratch register of their class is free.
pub open spec fn edits_moves(c: Ctx, moves: Seq<InsertedMove>, i: int, edits: Seq<PlacedModel>) -> Result<
    Seq<PlacedModel>,
    RegAllocError,
>
    decreases moves.len() - i,
{
    let n = group_end(moves, i, i + 1);
    if i < 0 || i >= moves.len() {
        Ok(edits)
    } else {
        match moves[i].from_alloc.class() {
            Some(class) => {
                let list = in_sequence(
                    group_pairs(moves, i, n),
                    Allocation::Reg(c.m.scratch_by_class[class.ix()]),
                );
                let t = edits_add_moves(edits, moves[i].pos, moves[i].prio, list, 0);
                if i < n <= moves.len() {
                    edits_moves(c, moves, n, t)
                } else {
                    Ok(t)
                }
            },
            None => Err(RegAllocError::NoAllocation(LiveRangeIndex::invalid())),
        }
    }
}

/// The first position from `j` on whose entry is of another block.
pub open spec fn params_end(params: Seq<BlockparamAlloc>, b: Block, j: int) -> int
    decreases params.len() - j,
{
    if j < 0 || j >= params.len() || params[j].0 != b {
        j
    } else {
        params_end(params, b, j + 1)
    }
}

/// The edit for the block parameters from `i` to `n`.
pub open spec fn params_edit(
    vregs: Seq<VRegData>,
    params: Seq<BlockparamAlloc>,
    i: int,
    n: int,
) -> EditModel {
    EditModel::BlockParams {
        vregs: Seq::new((n - i) as nat, |k: int| vregs[params[i + k].2.ix()].reg),
        allocs: Seq::new((n - i) as nat, |k: int| params[i + k].3),
    }
}

/// The edits with those that state where the block parameters from position `i` on live.
pub open spec fn edits_params(
    c: Ctx,
    vregs: Seq<VRegData>,
    params: Seq<BlockparamAlloc>,
    i: int,
    edits: Seq<PlacedModel>,
) -> Result<Seq<PlacedModel>, RegAllocError>
    decreases params.len() - i,
{
    let b = params[i].0;
    let n = params_end(params, b, i + 1);
    if i < 0 || i >= params.len() {
        Ok(edits)
    } else if n - i != c.f.params[b.ix()].len() {
        Err(RegAllocError::BlockParams(b))
    } else {
        let t = edits_add(
            edits,
            c.cfg.block_entry[b.ix()],
            InsertMovePrio::BlockParam,
            params_edit(vregs, params, i, n),
        );
        if i < n <= params.len() {
            edits_params(c, vregs, params, n, t)
        } else {
            Ok(t)
        }
    }
}

/// All edits, in program order.
pub open spec fn edits_all(
    c: Ctx,
    vregs: Seq<VRegData>,
    moves: Seq<InsertedMove>,
    params: Seq<BlockparamAlloc>,
) -> Result<Seq<PlacedModel>, RegAllocError> {
    match edits_moves(c, stable_sort(moves), 0, Seq::empty()) {
        Ok(t) => match edits_params(c, vregs, stable_sort(params), 0, t) {
            Ok(u) => Ok(stable_sort(u)),
            Err(e) => Err(e),
        },
        Err(e) => Err(e),
    }
}

/// Builds the edits.
pub struct EditPass<'a, F: Function> {
    pub func: &'a F,
    pub env: &'a MachineEnv,
    pub cfginfo: &'a CFGInfo,
    pub vregs: &'a Vec<VRegData>,
    pub edits: Vec<PlacedEdit>,
}

impl<'a, F: Function> EditPass<'a, F> {
    /// What stays fixed.
    pub open spec fn ctx(&self) -> Ctx {
        Ctx { f: self.func.model(), m: self.env@, cfg: self.cfginfo@ }
    }

    /// The parts fit together.
    pub open spec fn wf(&self) -> bool {
        ctx_ok(self.ctx()) && self.vregs@.len() == self.ctx().f.num_vregs
    }

    /// Only the edits changed.
    pub open spec fn same_input(&self, other: &Self) -> bool {
        self.ctx() == other.ctx() && self.vregs@ == other.vregs@
    }

    /// Add an edit.
    fn add_edit(&mut self, pos: ProgPoint, prio: InsertMovePrio, edit: Edit)
        requires
            old(self).wf(),
            pos.inst.0 < old(self).ctx().f.insts,
        ensures
            final(self).wf(),
            final(self).same_input(old(self)),
            placed_values(final(self).edits@) == edits_add(placed_values(old(self).edits@), pos, prio, edit@),
    {
        if let Edit::Move { from, to } = &edit {
            if *from == *to {
                return;
            }
        }
        let ghost before = self.edits@;
        let e = PlacedEdit { pos: pos.to_index(), prio, edit };
        self.edits.push(e);
        assert(placed_values(self.edits@) =~= placed_values(before).push(e@));
    }

    /// Add the moves of one point and priority.
    fn resolve_group(&mut self, moves: &Vec<InsertedMove>, start: usize, end: usize, scratch: Allocation)
        requires
            old(self).wf(),
            start < end <= moves@.len(),
            forall|k: int|
                0 <= k < moves@.len() ==> (#[trigger] moves@[k]).pos.inst.0
                    < old(self).ctx().f.insts,
        ensures
            final(self).wf(),
            final(self).same_input(old(self)),
            placed_values(final(self).edits@) == edits_add_moves(
                placed_values(old(self).edits@),
                moves@[start as int].pos,
                moves@[start as int].prio,
                in_sequence(group_pairs(moves@, start as int, end as int), scratch),
                0,
            ),
    {
        let ghost s = placed_values(self.edits@);
        let ghost before = *self;
        let pos = moves[start].pos;
        let prio = moves[start].prio;
        let mut parallel_moves = ParallelMoves::new(scratch);
        let mut k: usize = start;
        while k < end
            invariant
                start <= k <= end <= moves@.len(),
                parallel_moves.scratch == scratch,
                parallel_moves.parallel_moves@ == group_pairs(moves@, start as int, k as int),
            decreases end - k,
        {
            let m = moves[k];
            if m.from_alloc != m.to_alloc {
                parallel_moves.add(m.from_alloc, m.to_alloc);
            }
            k += 1;
        }
        let resolved = parallel_moves.resolve();
        let ghost list = resolved@;
        let mut j: usize = 0;
        while j < resolved.len()
            invariant
                self.wf(),
                self.same_input(&before),
                pos.inst.0 < before.ctx().f.insts,
                list == resolved@,
                j <= resolved@.len(),
                edits_add_moves(s, pos, prio, list, 0) == edits_add_moves(
                    placed_values(self.edits@),
                    pos,
                    prio,
                    list,
                    j as int,
                ),
            decreases resolved@.len() - j,
        {
            let (from, to) = resolved[j];
            self.add_edit(pos, prio, Edit::Move { from, to });
            j += 1;
        }
    }

    /// Add all moves.
    fn resolve_moves(&mut self, moves: &Vec<InsertedMove>) -> (r: Result<(), RegAllocError>)
        requires
            old(self).wf(),
            forall|k: int|
                0 <= k < moves@.len() ==> (#[trigger] moves@[k]).pos.inst.0
                    < old(self).ctx().f.insts,
        ensures
            final(self).same_input(old(self)),
            match edits_moves(old(self).ctx(), moves@, 0, placed_values(old(self).edits@)) {
                Ok(s) => r is Ok && placed_values(final(self).edits@) == s && final(self).wf(),
                Err(e) => r == Err::<(), RegAllocError>(e) && e !is SSA,
            },
    {
        let ghost c = self.ctx();
        let ghost s = placed_values(self.edits@);
        let ghost before = *self;
        let mut i: usize = 0;
        while i < moves.len()
            invariant
                self.wf(),
                before == *old(self),
                self.same_input(&before),
                c == before.ctx(),
                s == placed_values(before.edits@),
                i <= moves@.len(),
                forall|k: int| 0 <= k < moves@.len() ==> (#[trigger] moves@[k]).pos.inst.0 < c.f.insts,
                edits_moves(c, moves@, 0, s) == edits_moves(
                    c,
                    moves@,
                    i as int,
                    placed_values(self.edits@),
                ),
            decreases moves@.len() - i,
        {
            let start = i;
            let pos = moves[i].pos;
            let prio = moves[i].prio;
            i += 1;
            while i < moves.len() && moves[i].pos == pos && moves[i].prio == prio
                invariant
                    start < i <= moves@.len(),
                    pos == moves@[start as int].pos,
                    prio == moves@[start as int].prio,
                    group_end(moves@, start as int, start + 1) == group_end(
                        moves@,
                        start as int,
                        i as int,
                    ),
                decreases moves@.len() - i,
            {
                i += 1;
            }
            assert(group_end(moves@, start as int, start + 1) == i);
            let class = match moves[start].from_alloc.class() {
                Some(class) => class,
                None => {
                    return Err(RegAllocError::NoAllocation(LiveRangeIndex::invalid()));
                },
            };
            let scratch = Allocation::reg(self.env.scratch_by_class[class.index()]);
            self.resolve_group(moves, start, i, scratch);
        }
        Ok(())
    }

    /// Add the edits that state where block parameters live.
    fn resolve_params(&mut self, params: &Vec<BlockparamAlloc>) -> (r: Result<(), RegAllocError>)
        requires
            old(self).wf(),
            forall|k: int|
                0 <= k < params@.len() ==> param_ok(old(self).ctx().f, #[trigger] params@[k]),
        ensures
            final(self).same_input(old(self)),
            match edits_params(
                old(self).ctx(),
                old(self).vregs@,
                params@,
                0,
                placed_values(old(self).edits@),
            ) {
                Ok(s) => r is Ok && placed_values(final(self).edits@) == s && final(self).wf(),
                Err(e) => r == Err::<(), RegAllocError>(e) && e !is SSA,
            },
    {
        let ghost c = self.ctx();
        let ghost v = self.vregs@;
        let ghost s = placed_values(self.edits@);
        let ghost before = *self;
        let mut i: usize = 0;
        while i < params.len()
            invariant
                self.wf(),
                before == *old(self),
                self.same_input(&before),
                c == before.ctx(),
                v == before.vregs@,
                s == placed_values(before.edits@),
                i <= params@.len(),
                forall|k: int| 0 <= k < params@.len() ==> param_ok(c.f, #[trigger] params@[k]),
                edits_params(c, v, params@, 0, s) == edits_params(
                    c,
                    v,
                    params@,
                    i as int,
                    placed_values(self.edits@),
                ),
            decreases params@.len() - i,
        {
            let start = i;
            let block = params[i].0;
            assert(param_ok(c.f, params@[i as int]));
            let mut vregs: Vec<VReg> = Vec::new();
            let mut allocs: Vec<Allocation> = Vec::new();
            vregs.push(self.vregs[params[i].2.0 as usize].reg);
            allocs.push(params[i].3);
            i += 1;
            while i < params.len() && params[i].0 == block
                invariant
                    self.vregs@ == v,
                    v.len() == c.f.num_vregs,
                    start < i <= params@.len(),
                    block == params@[start as int].0,
                    forall|k: int| 0 <= k < params@.len() ==> param_ok(c.f, #[trigger] params@[k]),
                    params_end(params@, block, start + 1) == params_end(params@, block, i as int),
                    vregs@ == Seq::new(
                        (i - start) as nat,
                        |k: int| v[params@[start + k].2.ix()].reg,
                    ),
                    allocs@ == Seq::new((i - start) as nat, |k: int| params@[start + k].3),
                decreases params@.len() - i,
            {
                assert(param_ok(c.f, params@[i as int]));
                vregs.push(self.vregs[params[i].2.0 as usize].reg);
                allocs.push(params[i].3);
                i += 1;
            }
            assert(params_end(params@, block, start + 1) == i);
            if vregs.len() != self.func.block_params(block).len() {
                return Err(RegAllocError::BlockParams(block));
            }
            assert(block_ok(c.f, block.ix()));
            let entry = self.cfginfo.block_entry[block.0 as usize];
            let edit = Edit::BlockParams { vregs, allocs };
            assert(edit@ =~= params_edit(v, params@, start as int, i as int));
            self.add_edit(entry, InsertMovePrio::BlockParam, edit);
        }
        Ok(())
    }

    /// Turn moves and locations of block parameters into edits, and sort these.
    pub fn resolve_inserted_moves(
        self,
        moves: Vec<InsertedMove>,
        params: Vec<BlockparamAlloc>,
    ) -> (r: Result<Vec<PlacedEdit>, RegAllocError>)
        requires
            self.wf(),
            self.edits@.len() == 0,
            forall|k: int|
                0 <= k < moves@.len() ==> (#[trigger] moves@[k]).pos.inst.0 < self.ctx().f.insts,
            forall|k: int| 0 <= k < params@.len() ==> param_ok(self.ctx().f, #[trigger] params@[k]),
        ensures
            match edits_all(self.ctx(), self.vregs@, moves@, params@) {
                Ok(s) => r matches Ok(v) && placed_values(v@) == s,
                Err(e) => r == Err::<Vec<PlacedEdit>, RegAllocError>(e) && e !is SSA,
            },
            r matches Ok(v) ==> keys_sorted(v@),
    {
        let mut pass = self;
        let ghost c = pass.ctx();
        let ghost all_moves = moves@;
        let ghost all_params = params@;
        assert(placed_values(pass.edits@) =~= Seq::empty());
        let moves = sort_by_key(moves);
        proof {
            assert forall|k: int| 0 <= k < moves@.len() implies (#[trigger] moves@[k]).pos.inst.0
                < c.f.insts by {
                lemma_sorted_member(all_moves, k);
            }
        }
        match pass.resolve_moves(&moves) {
            Ok(()) => {},
            Err(e) => {
                return Err(e);
            },
        }
        let params = sort_by_key(params);
        proof {
            assert forall|k: int| 0 <= k < params@.len() implies param_ok(
                c.f,
                #[trigger] params@[k],
            ) by {
                lemma_sorted_member(all_params, k);
            }
        }
        match pass.resolve_params(&params) {
            Ok(()) => {},
            Err(e) => {
                return Err(e);
            },
        }
        proof {
            lemma_sort_mapped(pass.edits@, |e: PlacedEdit| e@);
        }
        Ok(sort_by_key(pass.edits))
    }
}

} // verus!
