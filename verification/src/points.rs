//! Where a bundle is split.
use crate::assign::{AllocPass, AllocState};
use crate::code_range::{
    entries_get, find_overlap, lemma_first_overlap, CodeRange, LiveRangeKey, RangeEntry,
};
use crate::data::{LiveRange, Stats, Use};
use crate::func::{FuncModel, Function};
use crate::graph::{graph_ok, mention_ok, range_ok, GraphState};
use crate::index::{Inst, LiveBundleIndex};
use crate::lists::{lemma_below, node_at, NIL};
use crate::order::in_order;
use crate::reg::{InstPosition, ProgPoint, MAX_INSTS};
use crate::small::{small_get, small_len, small_new, small_push, IndexVec};
use crate::sort::{lemma_sorted_member, sort_by_key, stable_sort, HasKey, Keyed};
use vstd::prelude::*;

verus! {

/// The ends of a bundle and of a bundle in its way.
#[derive(Clone, Copy)]
pub struct Bounds {
    pub start: ProgPoint,
    pub end: ProgPoint,
    pub conflict_from: Option<ProgPoint>,
    pub conflict_to: Option<ProgPoint>,
}

/// The points that were found so far, each by its place in program order.
pub struct PointScan {
    /// Where the bundle goes from cold code to hot code or back.
    pub cold_hot: IndexVec,
    /// Where the bundle comes to an instruction that overwrites registers.
    pub clobber: IndexVec,
    pub last_before_conflict: Option<ProgPoint>,
    pub first_after_conflict: Option<ProgPoint>,
    pub clobberidx: usize,
}

/// The mathematical value of a `PointScan`.
#[verifier::ext_equal]
pub struct PointState {
    pub cold_hot: Seq<u32>,
    pub clobber: Seq<u32>,
    pub last_before_conflict: Option<ProgPoint>,
    pub first_after_conflict: Option<ProgPoint>,
    pub clobberidx: int,
}

impl PointScan {
    /// The mathematical value.
    pub open spec fn view(&self) -> PointState {
        PointState {
            cold_hot: self.cold_hot@,
            clobber: self.clobber@,
            last_before_conflict: self.last_before_conflict,
            first_after_conflict: self.first_after_conflict,
            clobberidx: self.clobberidx as int,
        }
    }
}

/// The ends of bundle `b`, and those of bundle `conflicting` if it is one.
pub open spec fn split_bounds(g: GraphState, b: u32, conflicting: u32) -> Bounds {
    let list = g.in_bundle[b as int];
    let other = g.in_bundle[conflicting as int];
    Bounds {
        start: g.ranges[list[0] as int].range.from,
        end: g.ranges[list.last() as int].range.to,
        conflict_from: if conflicting == NIL {
            None
        } else {
            Some(g.ranges[other[0] as int].range.from)
        },
        conflict_to: if conflicting == NIL {
            None
        } else {
            Some(g.ranges[other.last() as int].range.to)
        },
    }
}

/// Where the range goes from cold code to hot code or back: the ends, within it, of the hot range
/// that reaches into it.
pub open spec fn hot_points(g: GraphState, hot: Seq<RangeEntry>, range: CodeRange) -> Seq<u32> {
    match entries_get(hot, LiveRangeKey::of(range)) {
        Some(h) => {
            let hr = g.ranges[h.ix()].range;
            let first = if range.from.ix() < hr.from.ix() {
                seq![hr.from.ix() as u32]
            } else {
                Seq::empty()
            };
            if range.to.ix() > hr.to.ix() {
                first.push(hr.to.ix() as u32)
            } else {
                first
            }
        },
        None => Seq::empty(),
    }
}

/// The instructions that overwrite registers, from position `k` on and before the end of the
/// range. Those in the range and after the start of the bundle are noted.
pub open spec fn clobber_points(
    clobbers: Seq<Inst>,
    range: CodeRange,
    start: ProgPoint,
    k: int,
    out: Seq<u32>,
) -> (int, Seq<u32>)
    decreases clobbers.len() - k,
{
    if k < 0 || k >= clobbers.len() {
        (k, out)
    } else {
        let pos = ProgPoint::before(clobbers[k]);
        if pos.ix() >= range.to.ix() {
            (k, out)
        } else if pos.ix() >= range.from.ix() && pos.ix() > start.ix() {
            clobber_points(clobbers, range, start, k + 1, out.push(pos.ix() as u32))
        } else {
            clobber_points(clobbers, range, start, k + 1, out)
        }
    }
}

/// A mention at `pos` is looked at. The point after the last mention before the conflict is noted,
/// and the point before the first mention after it. Both are points before an instruction and within
/// the bundle.
pub open spec fn point_mention(s: PointState, b: Bounds, pos: ProgPoint) -> PointState {
    let before_inst = ProgPoint::before(pos.inst);
    let before_next = ProgPoint::before(Inst((pos.inst.0 + 1) as u32));
    let is_before = before_next.ix() < b.end.ix() && (match b.conflict_from {
        Some(p) => before_next.ix() <= p.ix(),
        None => true,
    }) && (match s.last_before_conflict {
        Some(p) => before_next.ix() > p.ix(),
        None => true,
    });
    let is_after = before_inst.ix() > b.start.ix() && (match b.conflict_to {
        Some(p) => before_inst.ix() >= p.ix(),
        None => true,
    }) && (match s.first_after_conflict {
        Some(p) => before_inst.ix() < p.ix(),
        None => true,
    });
    PointState {
        last_before_conflict: if is_before {
            Some(before_next)
        } else {
            s.last_before_conflict
        },
        first_after_conflict: if is_after {
            Some(before_inst)
        } else {
            s.first_after_conflict
        },
        ..s
    }
}

/// The uses from position `j` of the list on are looked at.
pub open spec fn point_uses(s: PointState, b: Bounds, uses: Seq<Use>, list: Seq<u32>, j: int) -> PointState
    decreases list.len() - j,
{
    if j < 0 || j >= list.len() {
        s
    } else {
        point_uses(point_mention(s, b, uses[list[j] as int].pos), b, uses, list, j + 1)
    }
}

/// Live range `r` is looked at.
pub open spec fn point_range(
    s: PointState,
    b: Bounds,
    g: GraphState,
    hot: Seq<RangeEntry>,
    clobbers: Seq<Inst>,
    r: u32,
) -> PointState {
    let lr = g.ranges[r as int];
    let (k, clobber) = clobber_points(clobbers, lr.range, b.start, s.clobberidx, s.clobber);
    let t = PointState {
        cold_hot: s.cold_hot + hot_points(g, hot, lr.range),
        clobber,
        clobberidx: k,
        ..s
    };
    let u = if lr.def.is_valid() {
        point_mention(t, b, g.defs[lr.def.ix()].pos)
    } else {
        t
    };
    point_uses(u, b, g.uses, g.in_range[r as int], 0)
}

/// The live ranges from position `i` of the list on are looked at.
pub open spec fn point_list(
    s: PointState,
    b: Bounds,
    g: GraphState,
    hot: Seq<RangeEntry>,
    clobbers: Seq<Inst>,
    list: Seq<u32>,
    i: int,
) -> PointState
    decreases list.len() - i,
{
    if i < 0 || i >= list.len() {
        s
    } else {
        point_list(point_range(s, b, g, hot, clobbers, list[i]), b, g, hot, clobbers, list, i + 1)
    }
}

/// Nothing was looked at yet.
pub open spec fn point_start() -> PointState {
    PointState {
        cold_hot: Seq::empty(),
        clobber: Seq::empty(),
        last_before_conflict: None,
        first_after_conflict: None,
        clobberidx: 0,
    }
}

/// The points before and after the uses from position `j` of the list on.
pub open spec fn use_points(
    uses: Seq<Use>,
    list: Seq<u32>,
    start: ProgPoint,
    j: int,
    out: Seq<u32>,
) -> Seq<u32>
    decreases list.len() - j,
{
    if j < 0 || j >= list.len() {
        out
    } else {
        let before = ProgPoint::before(uses[list[j] as int].pos.inst);
        let first = if before.ix() > start.ix() {
            out.push(before.ix() as u32)
        } else {
            out
        };
        use_points(uses, list, start, j + 1, first.push((before.ix() + 2) as u32))
    }
}

/// The points before and after the mentions of the live ranges from position `i` of the list on.
pub open spec fn all_points(
    g: GraphState,
    list: Seq<u32>,
    b: Bounds,
    i: int,
    out: Seq<u32>,
) -> Seq<u32>
    decreases list.len() - i,
{
    if i < 0 || i >= list.len() {
        out
    } else {
        let lr = g.ranges[list[i] as int];
        let inst = g.defs[lr.def.ix()].pos.inst;
        let before = ProgPoint::before(inst);
        let end = ProgPoint::before(Inst((inst.0 + 1) as u32));
        let o1 = if lr.def.is_valid() && before.ix() > b.start.ix() {
            out.push(before.ix() as u32)
        } else {
            out
        };
        let o2 = if lr.def.is_valid() && end.ix() < b.end.ix() {
            o1.push(end.ix() as u32)
        } else {
            o1
        };
        all_points(
            g,
            list,
            b,
            i + 1,
            use_points(g.uses, g.in_range[list[i] as int], b.start, 0, o2),
        )
    }
}

impl HasKey for u32 {
    open spec fn key(&self) -> int {
        *self as int
    }
}

impl Keyed for u32 {
    fn sort_key(&self) -> (k: u128) {
        *self as u128
    }
}

/// Where bundle `b` is split around all its mentions, in program order.
pub open spec fn all_use_points(g: GraphState, b: u32) -> Seq<u32> {
    stable_sort(all_points(g, g.in_bundle[b as int], split_bounds(g, b, NIL), 0, Seq::empty()))
}

/// Where the live ranges from position `i` of the list on begin in the middle of an instruction.
pub open spec fn inner_starts(ranges: Seq<LiveRange>, list: Seq<u32>, i: int, out: Seq<u32>) -> Seq<u32>
    decreases list.len() - i,
{
    if i < 0 || i >= list.len() {
        out
    } else {
        let from = ranges[list[i] as int].range.from;
        inner_starts(
            ranges,
            list,
            i + 1,
            if from.pos is After {
                out.push(from.ix() as u32)
            } else {
                out
            },
        )
    }
}

/// Where bundle `b` comes apart around all its mentions, in program order. Live ranges that share an
/// instruction are parted where the second one begins, which cuts neither.
pub open spec fn apart_points(g: GraphState, b: u32) -> Seq<u32> {
    stable_sort(inner_starts(g.ranges, g.in_bundle[b as int], 0, all_use_points(g, b)))
}

/// The points lie before instructions.
pub open spec fn all_before(points: Seq<u32>) -> bool {
    forall|k: int| 0 <= k < points.len() ==> ProgPoint::at((#[trigger] points[k]) as int).pos is Before
}

proof fn lemma_use_points_before(
    f: FuncModel,
    uses: Seq<Use>,
    list: Seq<u32>,
    start: ProgPoint,
    j: int,
    out: Seq<u32>,
)
    requires
        f.insts <= MAX_INSTS,
        all_before(out),
        forall|i: int|
            0 <= i < list.len() ==> uses[(#[trigger] list[i]) as int].pos.inst.0 < f.insts,
    ensures
        all_before(use_points(uses, list, start, j, out)),
    decreases list.len() - j,
{
    if 0 <= j < list.len() {
        let before = ProgPoint::before(uses[list[j] as int].pos.inst);
        let first = if before.ix() > start.ix() {
            out.push(before.ix() as u32)
        } else {
            out
        };
        let _ = list[j];
        lemma_use_points_before(f, uses, list, start, j + 1, first.push((before.ix() + 2) as u32));
    }
}

proof fn lemma_all_points_before(
    f: FuncModel,
    g: GraphState,
    list: Seq<u32>,
    b: Bounds,
    i: int,
    out: Seq<u32>,
)
    requires
        graph_ok(f, g),
        all_before(out),
        forall|k: int| 0 <= k < list.len() ==> (#[trigger] list[k]) < g.ranges.len(),
    ensures
        all_before(all_points(g, list, b, i, out)),
    decreases list.len() - i,
{
    if 0 <= i < list.len() {
        let r = list[i];
        let lr = g.ranges[r as int];
        let inst = g.defs[lr.def.ix()].pos.inst;
        let before = ProgPoint::before(inst);
        let end = ProgPoint::before(Inst((inst.0 + 1) as u32));
        assert(range_ok(f, g, r as int));
        if lr.def.is_valid() {
            assert(mention_ok(f, g.defs[lr.def.ix()].pos, g.defs[lr.def.ix()].slot));
        }
        let o1 = if lr.def.is_valid() && before.ix() > b.start.ix() {
            out.push(before.ix() as u32)
        } else {
            out
        };
        let o2 = if lr.def.is_valid() && end.ix() < b.end.ix() {
            o1.push(end.ix() as u32)
        } else {
            o1
        };
        let uses = g.in_range[r as int];
        assert forall|j: int| 0 <= j < uses.len() implies g.uses[(
        #[trigger] uses[j]) as int].pos.inst.0 < f.insts by {
            lemma_below(g.in_range, g.uses.len() as int, r as int, j);
            assert(mention_ok(f, g.uses[uses[j] as int].pos, g.uses[uses[j] as int].slot));
        }
        lemma_use_points_before(f, g.uses, uses, b.start, 0, o2);
        lemma_all_points_before(
            f,
            g,
            list,
            b,
            i + 1,
            use_points(g.uses, uses, b.start, 0, o2),
        );
    }
}

/// A split around all mentions of a bundle never falls in the middle of an instruction.
pub proof fn law_all_uses_before(f: FuncModel, g: GraphState, b: u32)
    requires
        graph_ok(f, g),
        b < g.in_bundle.len(),
    ensures
        all_before(all_use_points(g, b)),
{
    let list = g.in_bundle[b as int];
    let points = all_points(g, list, split_bounds(g, b, NIL), 0, Seq::empty());
    assert forall|k: int| 0 <= k < list.len() implies (#[trigger] list[k]) < g.ranges.len() by {
        lemma_below(g.in_bundle, g.ranges.len() as int, b as int, k);
    }
    lemma_all_points_before(f, g, list, split_bounds(g, b, NIL), 0, Seq::empty());
    assert forall|k: int| 0 <= k < all_use_points(g, b).len() implies ProgPoint::at(
        (#[trigger] all_use_points(g, b)[k]) as int,
    ).pos is Before by {
        lemma_sorted_member(points, k);
        let i = choose|i: int| 0 <= i < points.len() && points[i] == all_use_points(g, b)[k];
        assert(ProgPoint::at(points[i] as int).pos is Before);
    }
}

/// The points in program order.
fn sorted_points(points: Vec<u32>) -> (r: IndexVec)
    ensures
        r@ == stable_sort(points@),
{
    let sorted = sort_by_key(points);
    let mut r = small_new();
    let mut k: usize = 0;
    while k < sorted.len()
        invariant
            k <= sorted@.len(),
            r@ == sorted@.take(k as int),
        decreases sorted@.len() - k,
    {
        small_push(&mut r, sorted[k]);
        assert(sorted@.take(k + 1) =~= sorted@.take(k as int).push(sorted@[k as int]));
        k += 1;
    }
    assert(sorted@.take(sorted@.len() as int) =~= sorted@);
    r
}

/// Where bundle `b`, with bundle `conflicting` in its way, is split, and the numbers of splits.
/// In order of preference: between cold and hot code, before instructions that overwrite
/// registers, before the first mention after the conflict, after the last mention before it, around
/// all mentions.
pub open spec fn split_points(s: AllocState, b: u32, conflicting: u32) -> (Seq<u32>, Stats) {
    let p = point_list(
        point_start(),
        split_bounds(s.g, b, conflicting),
        s.g,
        s.hot,
        s.clobbers,
        s.g.in_bundle[b as int],
        0,
    );
    if p.cold_hot.len() > 0 {
        (
            p.cold_hot,
            Stats { splits_hot: s.stats.splits_hot.wrapping_add(1), ..s.stats },
        )
    } else if p.clobber.len() > 0 {
        (
            p.clobber,
            Stats { splits_clobbers: s.stats.splits_clobbers.wrapping_add(1), ..s.stats },
        )
    } else if p.first_after_conflict is Some {
        (
            seq![p.first_after_conflict->0.ix() as u32],
            Stats { splits_conflicts: s.stats.splits_conflicts.wrapping_add(1), ..s.stats },
        )
    } else if p.last_before_conflict is Some {
        (
            seq![p.last_before_conflict->0.ix() as u32],
            Stats { splits_conflicts: s.stats.splits_conflicts.wrapping_add(1), ..s.stats },
        )
    } else {
        (
            apart_points(s.g, b),
            Stats { splits_all: s.stats.splits_all.wrapping_add(1), ..s.stats },
        )
    }
}

/// A point that was found is one of the program.
pub open spec fn found_ok(insts: nat, p: Option<ProgPoint>) -> bool {
    p matches Some(q) ==> q.inst.0 <= insts
}

impl PointScan {
    /// Look at a mention.
    fn update_with_pos(&mut self, b: &Bounds, pos: ProgPoint, Ghost(insts): Ghost<nat>)
        requires
            pos.inst.0 < insts <= MAX_INSTS,
            found_ok(insts, old(self).last_before_conflict),
            found_ok(insts, old(self).first_after_conflict),
        ensures
            final(self)@ == point_mention(old(self)@, *b, pos),
            found_ok(insts, final(self).last_before_conflict),
            found_ok(insts, final(self).first_after_conflict),
    {
        let before_inst = ProgPoint::before(pos.inst);
        let before_next_inst = before_inst.next().next();
        let before_conflict = match b.conflict_from {
            Some(p) => before_next_inst <= p,
            None => true,
        };
        let is_last = match self.last_before_conflict {
            Some(p) => before_next_inst > p,
            None => true,
        };
        let after_conflict = match b.conflict_to {
            Some(p) => before_inst >= p,
            None => true,
        };
        let is_first = match self.first_after_conflict {
            Some(p) => before_inst < p,
            None => true,
        };
        if before_next_inst < b.end && before_conflict && is_last {
            self.last_before_conflict = Some(before_next_inst);
        }
        if before_inst > b.start && after_conflict && is_first {
            self.first_after_conflict = Some(before_inst);
        }
    }
}

impl<'a, F: Function> AllocPass<'a, F> {
    /// Note where a range goes from cold code to hot code or back.
    fn scan_hot(&self, scan: &mut PointScan, range: CodeRange)
        requires
            self.wf(),
            range.within(self.ctx().f.insts),
        ensures
            final(scan)@ == (PointState {
                cold_hot: old(scan)@.cold_hot + hot_points(self@.g, self@.hot, range),
                ..old(scan)@
            }),
    {
        let ghost s = self@;
        let ghost before = scan@;
        let key = LiveRangeKey::from_range(&range);
        match self.hot_code.get(&key) {
            Some(h) => {
                proof {
                    lemma_first_overlap(s.hot, key, 0);
                    assert(s.hot[find_overlap(s.hot, key)].1 == h);
                    assert(range_ok(self.g.func@, s.g, h.ix()));
                }
                let hot_range = self.g.ranges[h.index()].range;
                if range.from < hot_range.from {
                    small_push(&mut scan.cold_hot, hot_range.from.to_index());
                }
                if range.to > hot_range.to {
                    small_push(&mut scan.cold_hot, hot_range.to.to_index());
                }
            },
            None => {},
        }
        assert(scan@.cold_hot =~= before.cold_hot + hot_points(s.g, s.hot, range));
    }

    /// Note where a range comes to instructions that overwrite registers.
    fn scan_clobbers(&self, scan: &mut PointScan, range: CodeRange, start: ProgPoint)
        requires
            self.wf(),
            range.within(self.ctx().f.insts),
        ensures
            ({
                let (k, clobber) = clobber_points(
                    self@.clobbers,
                    range,
                    start,
                    old(scan)@.clobberidx,
                    old(scan)@.clobber,
                );
                final(scan)@ == (PointState { clobber, clobberidx: k, ..old(scan)@ })
            }),
    {
        let ghost s = self@;
        let ghost c = self.ctx();
        let ghost p0 = scan@;
        while scan.clobberidx < self.clobbers.len() && ProgPoint::before(
            self.clobbers[scan.clobberidx],
        ) < range.to
            invariant
                self.wf(),
                self@ == s,
                self.ctx() == c,
                range.within(c.f.insts),
                scan@ == (PointState {
                    clobber: scan@.clobber,
                    clobberidx: scan@.clobberidx,
                    ..p0
                }),
                clobber_points(s.clobbers, range, start, p0.clobberidx, p0.clobber)
                    == clobber_points(
                    s.clobbers,
                    range,
                    start,
                    scan@.clobberidx,
                    scan@.clobber,
                ),
            decreases self.clobbers@.len() - scan.clobberidx,
        {
            let pos = ProgPoint::before(self.clobbers[scan.clobberidx]);
            assert(s.clobbers[scan.clobberidx as int].0 < c.f.insts);
            scan.clobberidx = scan.clobberidx + 1;
            if pos >= range.from && pos > start {
                small_push(&mut scan.clobber, pos.to_index());
            }
        }
    }

    /// Look at a live range.
    fn scan_range(&self, scan: &mut PointScan, b: &Bounds, r: u32)
        requires
            self.wf(),
            r < self@.g.ranges.len(),
            found_ok(self.ctx().f.insts, old(scan).last_before_conflict),
            found_ok(self.ctx().f.insts, old(scan).first_after_conflict),
        ensures
            final(scan)@ == point_range(
                old(scan)@,
                *b,
                self@.g,
                self@.hot,
                self@.clobbers,
                r,
            ),
            found_ok(self.ctx().f.insts, final(scan).last_before_conflict),
            found_ok(self.ctx().f.insts, final(scan).first_after_conflict),
    {
        let ghost s = self@;
        let ghost insts = self.ctx().f.insts;
        assert(range_ok(self.g.func@, s.g, r as int));
        let lr = self.g.ranges[r as usize];
        self.scan_hot(scan, lr.range);
        self.scan_clobbers(scan, lr.range, b.start);
        if lr.def.is_valid() {
            let def_data = self.g.defs[lr.def.index()];
            assert(mention_ok(self.g.func@, s.g.defs[lr.def.ix()].pos, s.g.defs[lr.def.ix()].slot));
            scan.update_with_pos(b, def_data.pos, Ghost(insts));
        }
        let ghost p0 = scan@;
        let ghost list = s.g.in_range[r as int];
        let mut use_idx = self.g.in_range.first(r as usize);
        let ghost mut j: int = 0;
        while use_idx != NIL
            invariant
                self.wf(),
                self@ == s,
                insts == self.ctx().f.insts,
                r < s.g.ranges.len(),
                found_ok(insts, scan.last_before_conflict),
                found_ok(insts, scan.first_after_conflict),
                list == s.g.in_range[r as int],
                0 <= j <= list.len(),
                use_idx == node_at(list, j),
                use_idx == NIL <==> j == list.len(),
                use_idx != NIL ==> use_idx < s.g.uses.len(),
                point_uses(p0, *b, s.g.uses, list, 0) == point_uses(
                    scan@,
                    *b,
                    s.g.uses,
                    list,
                    j,
                ),
            decreases list.len() - j,
        {
            let pos = self.g.uses[use_idx as usize].pos;
            assert(mention_ok(
                self.g.func@,
                s.g.uses[use_idx as int].pos,
                s.g.uses[use_idx as int].slot,
            ));
            scan.update_with_pos(b, pos, Ghost(insts));
            use_idx = self.g.in_range.next(use_idx, Ghost(r as int), Ghost(j));
            proof {
                j = j + 1;
            }
        }
    }

    /// The ends of a bundle and of a bundle in its way.
    fn bounds(&self, bundle: LiveBundleIndex, conflicting: LiveBundleIndex) -> (r: Bounds)
        requires
            self.wf(),
            bundle.0 < self@.g.bundles.len(),
            self@.g.in_bundle[bundle.ix()].len() > 0,
            conflicting.is_valid() ==> conflicting.0 < self@.g.bundles.len()
                && self@.g.in_bundle[conflicting.ix()].len() > 0,
        ensures
            r == split_bounds(self@.g, bundle.0, conflicting.0),
    {
        let first = self.g.in_bundle.first(bundle.index());
        let last = self.g.in_bundle.last(bundle.index());
        let start = self.g.ranges[first as usize].range.from;
        let end = self.g.ranges[last as usize].range.to;
        if conflicting.is_valid() {
            let first = self.g.in_bundle.first(conflicting.index());
            let last = self.g.in_bundle.last(conflicting.index());
            Bounds {
                start,
                end,
                conflict_from: Some(self.g.ranges[first as usize].range.from),
                conflict_to: Some(self.g.ranges[last as usize].range.to),
            }
        } else {
            Bounds { start, end, conflict_from: None, conflict_to: None }
        }
    }

    /// Find where a bundle, with another one in its way, is split.
    pub fn find_split_points(
        &mut self,
        bundle: LiveBundleIndex,
        conflicting: LiveBundleIndex,
    ) -> (r: IndexVec)
        requires
            old(self).wf(),
            bundle.0 < old(self)@.g.bundles.len(),
            old(self)@.g.in_bundle[bundle.ix()].len() > 0,
            conflicting.is_valid() ==> conflicting.0 < old(self)@.g.bundles.len() && old(
                self,
            )@.g.in_bundle[conflicting.ix()].len() > 0,
        ensures
            final(self).ctx() == old(self).ctx(),
            final(self).wf(),
            final(self)@ == (AllocState { stats: final(self)@.stats, ..old(self)@ }),
            (r@, final(self)@.stats) == split_points(old(self)@, bundle.0, conflicting.0),
    {
        let ghost s = self@;
        let ghost c = self.ctx();
        let ghost list = s.g.in_bundle[bundle.ix()];
        let b = self.bounds(bundle, conflicting);
        let mut scan = PointScan {
            cold_hot: small_new(),
            clobber: small_new(),
            last_before_conflict: None,
            first_after_conflict: None,
            clobberidx: 0,
        };
        let ghost p0 = scan@;
        assert(p0 == point_start());
        let mut our_iter = self.g.in_bundle.first(bundle.index());
        let ghost mut i: int = 0;
        while our_iter != NIL
            invariant
                self.wf(),
                self@ == s,
                self.ctx() == c,
                bundle.0 < s.g.bundles.len(),
                found_ok(c.f.insts, scan.last_before_conflict),
                found_ok(c.f.insts, scan.first_after_conflict),
                list == s.g.in_bundle[bundle.ix()],
                0 <= i <= list.len(),
                our_iter == node_at(list, i),
                our_iter == NIL <==> i == list.len(),
                our_iter != NIL ==> our_iter < s.g.ranges.len(),
                point_list(p0, b, s.g, s.hot, s.clobbers, list, 0) == point_list(
                    scan@,
                    b,
                    s.g,
                    s.hot,
                    s.clobbers,
                    list,
                    i,
                ),
            decreases list.len() - i,
        {
            self.scan_range(&mut scan, &b, our_iter);
            our_iter = self.g.in_bundle.next(our_iter, Ghost(bundle.ix()), Ghost(i));
            proof {
                i = i + 1;
            }
        }
        if small_len(&scan.cold_hot) > 0 {
            self.stats.splits_hot = self.stats.splits_hot.wrapping_add(1);
            scan.cold_hot
        } else if small_len(&scan.clobber) > 0 {
            self.stats.splits_clobbers = self.stats.splits_clobbers.wrapping_add(1);
            scan.clobber
        } else {
            match scan.first_after_conflict {
                Some(p) => {
                    self.stats.splits_conflicts = self.stats.splits_conflicts.wrapping_add(1);
                    let mut r = small_new();
                    small_push(&mut r, p.to_index());
                    assert(r@ =~= seq![p.ix() as u32]);
                    r
                },
                None => match scan.last_before_conflict {
                    Some(p) => {
                        self.stats.splits_conflicts = self.stats.splits_conflicts.wrapping_add(1);
                        let mut r = small_new();
                        small_push(&mut r, p.to_index());
                        assert(r@ =~= seq![p.ix() as u32]);
                        r
                    },
                    None => {
                        self.stats.splits_all = self.stats.splits_all.wrapping_add(1);
                        self.find_apart_points(bundle)
                    },
                },
            }
        }
    }

    /// The points before and after the uses of a live range.
    fn push_use_points(&self, r: u32, start: ProgPoint, out: &mut Vec<u32>)
        requires
            self.wf(),
            r < self@.g.ranges.len(),
        ensures
            final(out)@ == use_points(
                self@.g.uses,
                self@.g.in_range[r as int],
                start,
                0,
                old(out)@,
            ),
    {
        let ghost s = self@;
        let ghost o0 = out@;
        let ghost list = s.g.in_range[r as int];
        let mut use_idx = self.g.in_range.first(r as usize);
        let ghost mut j: int = 0;
        while use_idx != NIL
            invariant
                self.wf(),
                self@ == s,
                r < s.g.ranges.len(),
                list == s.g.in_range[r as int],
                0 <= j <= list.len(),
                use_idx == node_at(list, j),
                use_idx == NIL <==> j == list.len(),
                use_idx != NIL ==> use_idx < s.g.uses.len(),
                use_points(s.g.uses, list, start, 0, o0) == use_points(
                    s.g.uses,
                    list,
                    start,
                    j,
                    out@,
                ),
            decreases list.len() - j,
        {
            assert(mention_ok(
                self.g.func@,
                s.g.uses[use_idx as int].pos,
                s.g.uses[use_idx as int].slot,
            ));
            let before_use_inst = ProgPoint::before(self.g.uses[use_idx as usize].pos.inst);
            let after_use_inst = before_use_inst.next().next();
            if before_use_inst > start {
                out.push(before_use_inst.to_index());
            }
            out.push(after_use_inst.to_index());
            use_idx = self.g.in_range.next(use_idx, Ghost(r as int), Ghost(j));
            proof {
                j = j + 1;
            }
        }
    }

    /// Find where a bundle is split around all its mentions.
    pub fn find_all_use_split_points(&self, bundle: LiveBundleIndex) -> (r: IndexVec)
        requires
            self.wf(),
            bundle.0 < self@.g.bundles.len(),
            self@.g.in_bundle[bundle.ix()].len() > 0,
        ensures
            r@ == all_use_points(self@.g, bundle.0),
            forall|k: int| 0 <= k < r@.len() ==> ProgPoint::at((#[trigger] r@[k]) as int).pos is Before,
    {
        let ghost s = self@;
        proof {
            law_all_uses_before(self.g.func@, s.g, bundle.0);
        }
        let ghost list = s.g.in_bundle[bundle.ix()];
        let b = self.bounds(bundle, LiveBundleIndex::invalid());
        let mut splits: Vec<u32> = Vec::new();
        let ghost o0 = splits@;
        let mut iter = self.g.in_bundle.first(bundle.index());
        let ghost mut i: int = 0;
        while iter != NIL
            invariant
                self.wf(),
                self@ == s,
                bundle.0 < s.g.bundles.len(),
                list == s.g.in_bundle[bundle.ix()],
                0 <= i <= list.len(),
                iter == node_at(list, i),
                iter == NIL <==> i == list.len(),
                iter != NIL ==> iter < s.g.ranges.len(),
                all_points(s.g, list, b, 0, o0) == all_points(s.g, list, b, i, splits@),
            decreases list.len() - i,
        {
            assert(range_ok(self.g.func@, s.g, iter as int));
            let def = self.g.ranges[iter as usize].def;
            if def.is_valid() {
                assert(mention_ok(self.g.func@, s.g.defs[def.ix()].pos, s.g.defs[def.ix()].slot));
                let def_pos = self.g.defs[def.index()].pos;
                let def_start = ProgPoint::before(def_pos.inst);
                let def_end = ProgPoint::before(def_pos.inst.next());
                if def_start > b.start {
                    splits.push(def_start.to_index());
                }
                if def_end < b.end {
                    splits.push(def_end.to_index());
                }
            }
            self.push_use_points(iter, b.start, &mut splits);
            iter = self.g.in_bundle.next(iter, Ghost(bundle.ix()), Ghost(i));
            proof {
                i = i + 1;
            }
        }
        sorted_points(splits)
    }

    /// Find where a bundle comes apart around all its mentions.
    fn find_apart_points(&self, bundle: LiveBundleIndex) -> (r: IndexVec)
        requires
            self.wf(),
            bundle.0 < self@.g.bundles.len(),
            self@.g.in_bundle[bundle.ix()].len() > 0,
        ensures
            r@ == apart_points(self@.g, bundle.0),
    {
        let ghost s = self@;
        let ghost list = s.g.in_bundle[bundle.ix()];
        let around = self.find_all_use_split_points(bundle);
        let mut splits: Vec<u32> = Vec::new();
        let mut k: usize = 0;
        while k < small_len(&around)
            invariant
                k <= around@.len(),
                splits@ == around@.take(k as int),
            decreases around@.len() - k,
        {
            splits.push(small_get(&around, k));
            assert(around@.take(k + 1) =~= around@.take(k as int).push(around@[k as int]));
            k += 1;
        }
        assert(around@.take(k as int) =~= around@);
        let mut iter = self.g.in_bundle.first(bundle.index());
        let ghost mut i: int = 0;
        while iter != NIL
            invariant
                self.wf(),
                self@ == s,
                bundle.0 < s.g.bundles.len(),
                list == s.g.in_bundle[bundle.ix()],
                0 <= i <= list.len(),
                iter == node_at(list, i),
                iter == NIL <==> i == list.len(),
                iter != NIL ==> iter < s.g.ranges.len(),
                inner_starts(s.g.ranges, list, 0, around@) == inner_starts(
                    s.g.ranges,
                    list,
                    i,
                    splits@,
                ),
            decreases list.len() - i,
        {
            assert(range_ok(self.g.func@, s.g, iter as int));
            let from = self.g.ranges[iter as usize].range.from;
            if from.pos == InstPosition::After {
                splits.push(from.to_index());
            }
            iter = self.g.in_bundle.next(iter, Ghost(bundle.ix()), Ghost(i));
            proof {
                i = i + 1;
            }
        }
        sorted_points(splits)
    }
}

/// Does the live range hold the point before the instruction?
pub open spec fn in_range_at(g: GraphState, r: u32, inst: Inst) -> bool {
    g.ranges[r as int].range.has(ProgPoint::before(inst))
}

/// Is the place one before an instruction that overwrites registers, after the start and in one of
/// the first `n` live ranges?
pub open spec fn is_clobber_point(
    g: GraphState,
    clobbers: Seq<Inst>,
    start: ProgPoint,
    list: Seq<u32>,
    n: int,
    x: u32,
) -> bool {
    exists|j: int, i: int|
        #![trigger clobbers[j], list[i]]
        0 <= j < clobbers.len() && 0 <= i < n && i < list.len() && in_range_at(
            g,
            list[i],
            clobbers[j],
        ) && x == ProgPoint::before(clobbers[j]).ix() && x > start.ix()
}

/// The instructions that overwrite registers are in order, and can be counted.
pub open spec fn clobbers_in_order(clobbers: Seq<Inst>) -> bool {
    &&& forall|i: int, j: int|
        #![trigger clobbers[i], clobbers[j]]
        0 <= i < j < clobbers.len() ==> clobbers[i].0 <= clobbers[j].0
    &&& forall|i: int| 0 <= i < clobbers.len() ==> (#[trigger] clobbers[i]).0 <= MAX_INSTS
}

proof fn lemma_clobber_points(
    clobbers: Seq<Inst>,
    range: CodeRange,
    start: ProgPoint,
    k: int,
    out: Seq<u32>,
)
    requires
        clobbers_in_order(clobbers),
        0 <= k <= clobbers.len(),
    ensures
        ({
            let (n, all) = clobber_points(clobbers, range, start, k, out);
            &&& k <= n <= clobbers.len()
            &&& forall|j: int|
                k <= j < n ==> ProgPoint::before(#[trigger] clobbers[j]).ix() < range.to.ix()
            &&& n < clobbers.len() ==> ProgPoint::before(clobbers[n]).ix() >= range.to.ix()
            &&& forall|x: u32| #[trigger]
                all.contains(x) <==> out.contains(x) || exists|j: int|
                    k <= j < n && range.has(ProgPoint::before(#[trigger] clobbers[j])) && x
                        == ProgPoint::before(clobbers[j]).ix() && x > start.ix()
        }),
    decreases clobbers.len() - k,
{
    if k < clobbers.len() {
        let pos = ProgPoint::before(clobbers[k]);
        if pos.ix() < range.to.ix() {
            let noted = pos.ix() >= range.from.ix() && pos.ix() > start.ix();
            let more = if noted {
                out.push(pos.ix() as u32)
            } else {
                out
            };
            lemma_clobber_points(clobbers, range, start, k + 1, more);
            let (n, all) = clobber_points(clobbers, range, start, k + 1, more);
            assert forall|x: u32| #[trigger] more.contains(x) == (out.contains(x) || noted && x
                == pos.ix()) by {
                if out.contains(x) {
                    let i = choose|i: int| 0 <= i < out.len() && out[i] == x;
                    assert(more[i] == x);
                }
                if noted && x == pos.ix() {
                    assert(more[out.len() as int] == x);
                }
            }
            assert forall|x: u32| #[trigger] all.contains(x) <==> out.contains(x) || exists|j: int|
                k <= j < n && range.has(ProgPoint::before(#[trigger] clobbers[j])) && x
                    == ProgPoint::before(clobbers[j]).ix() && x > start.ix() by {
                if noted && x == pos.ix() {
                    assert(range.has(ProgPoint::before(clobbers[k])));
                }
                assert(all.contains(x) <==> more.contains(x) || exists|j: int|
                    k + 1 <= j < n && range.has(ProgPoint::before(#[trigger] clobbers[j])) && x
                        == ProgPoint::before(clobbers[j]).ix() && x > start.ix());
            }
        }
    }
}

proof fn lemma_uses_keep_clobbers(
    s: PointState,
    b: Bounds,
    uses: Seq<Use>,
    list: Seq<u32>,
    j: int,
)
    ensures
        point_uses(s, b, uses, list, j).clobber == s.clobber,
        point_uses(s, b, uses, list, j).clobberidx == s.clobberidx,
    decreases list.len() - j,
{
    if 0 <= j < list.len() {
        lemma_uses_keep_clobbers(
            point_mention(s, b, uses[list[j] as int].pos),
            b,
            uses,
            list,
            j + 1,
        );
    }
}

proof fn lemma_clobber_list(
    s: PointState,
    b: Bounds,
    g: GraphState,
    hot: Seq<RangeEntry>,
    clobbers: Seq<Inst>,
    list: Seq<u32>,
    i: int,
)
    requires
        clobbers_in_order(clobbers),
        in_order(g.ranges, list),
        0 <= i <= list.len(),
        0 <= s.clobberidx <= clobbers.len(),
        forall|x: u32| #[trigger]
            s.clobber.contains(x) <==> is_clobber_point(g, clobbers, b.start, list, i, x),
        i < list.len() ==> forall|j: int|
            0 <= j < s.clobberidx ==> ProgPoint::before(#[trigger] clobbers[j]).ix()
                < g.ranges[list[i] as int].range.from.ix(),
        i > 0 ==> forall|j: int|
            s.clobberidx <= j < clobbers.len() ==> ProgPoint::before(#[trigger] clobbers[j]).ix()
                >= g.ranges[list[i - 1] as int].range.to.ix(),
        forall|k: int|
            0 <= k < list.len() ==> g.ranges[(#[trigger] list[k]) as int].range.from.ix()
                < g.ranges[list[k] as int].range.to.ix(),
    ensures
        forall|x: u32| #[trigger]
            point_list(s, b, g, hot, clobbers, list, i).clobber.contains(x) <==> is_clobber_point(
                g,
                clobbers,
                b.start,
                list,
                list.len() as int,
                x,
            ),
    decreases list.len() - i,
{
    if i < list.len() {
        let r = list[i];
        let range = g.ranges[r as int].range;
        lemma_clobber_points(clobbers, range, b.start, s.clobberidx, s.clobber);
        let (k, all) = clobber_points(clobbers, range, b.start, s.clobberidx, s.clobber);
        let t = point_range(s, b, g, hot, clobbers, r);
        let mid = PointState {
            cold_hot: s.cold_hot + hot_points(g, hot, range),
            clobber: all,
            clobberidx: k,
            ..s
        };
        let lr = g.ranges[r as int];
        let from = if lr.def.is_valid() {
            point_mention(mid, b, g.defs[lr.def.ix()].pos)
        } else {
            mid
        };
        lemma_uses_keep_clobbers(from, b, g.uses, g.in_range[r as int], 0);
        assert(t.clobber == all && t.clobberidx == k);
        assert forall|x: u32| #[trigger] all.contains(x) <==> is_clobber_point(
            g,
            clobbers,
            b.start,
            list,
            i + 1,
            x,
        ) by {
            if is_clobber_point(g, clobbers, b.start, list, i + 1, x) {
                let (j, l) = choose|j: int, l: int|
                    #![trigger clobbers[j], list[l]]
                    0 <= j < clobbers.len() && 0 <= l < i + 1 && l < list.len() && in_range_at(
                        g,
                        list[l],
                        clobbers[j],
                    ) && x == ProgPoint::before(clobbers[j]).ix() && x > b.start.ix();
                if l < i {
                    assert(is_clobber_point(g, clobbers, b.start, list, i, x)) by {
                        let _ = (clobbers[j], list[l]);
                    }
                } else {
                    assert(range.has(ProgPoint::before(clobbers[j])));
                    if k <= j && k < clobbers.len() && k < j {
                        let _ = (clobbers[k], clobbers[j]);
                    }
                    assert(s.clobberidx <= j < k);
                }
            }
            if s.clobber.contains(x) {
                let (j, l) = choose|j: int, l: int|
                    #![trigger clobbers[j], list[l]]
                    0 <= j < clobbers.len() && 0 <= l < i && l < list.len() && in_range_at(
                        g,
                        list[l],
                        clobbers[j],
                    ) && x == ProgPoint::before(clobbers[j]).ix() && x > b.start.ix();
                let _ = (clobbers[j], list[l]);
            }
            if exists|j: int|
                s.clobberidx <= j < k && range.has(ProgPoint::before(#[trigger] clobbers[j])) && x
                    == ProgPoint::before(clobbers[j]).ix() && x > b.start.ix() {
                let j = choose|j: int|
                    s.clobberidx <= j < k && range.has(ProgPoint::before(#[trigger] clobbers[j]))
                        && x == ProgPoint::before(clobbers[j]).ix() && x > b.start.ix();
                let _ = (clobbers[j], list[i]);
                assert(in_range_at(g, list[i], clobbers[j]));
            }
        }
        if i + 1 < list.len() {
            assert forall|j: int| 0 <= j < k implies ProgPoint::before(#[trigger] clobbers[j]).ix()
                < g.ranges[list[i + 1] as int].range.from.ix() by {
                let _ = (list[i], list[i + 1]);
            }
        }
        assert forall|j: int| k <= j < clobbers.len() implies ProgPoint::before(
            #[trigger] clobbers[j],
        ).ix() >= range.to.ix() by {
            let _ = (clobbers[k], clobbers[j]);
        }
        lemma_clobber_list(t, b, g, hot, clobbers, list, i + 1);
    }
}

/// Where a bundle comes to instructions that overwrite registers: exactly the points before such
/// instructions that lie in one of its live ranges and after its start.
pub proof fn law_clobber_points(
    f: FuncModel,
    g: GraphState,
    hot: Seq<RangeEntry>,
    clobbers: Seq<Inst>,
    b: u32,
    conflicting: u32,
    x: u32,
)
    requires
        graph_ok(f, g),
        b < g.in_bundle.len(),
        in_order(g.ranges, g.in_bundle[b as int]),
        clobbers_in_order(clobbers),
    ensures
        point_list(
            point_start(),
            split_bounds(g, b, conflicting),
            g,
            hot,
            clobbers,
            g.in_bundle[b as int],
            0,
        ).clobber.contains(x) <==> is_clobber_point(
            g,
            clobbers,
            split_bounds(g, b, conflicting).start,
            g.in_bundle[b as int],
            g.in_bundle[b as int].len() as int,
            x,
        ),
{
    let list = g.in_bundle[b as int];
    assert forall|k: int| 0 <= k < list.len() implies g.ranges[(
    #[trigger] list[k]) as int].range.from.ix() < g.ranges[list[k] as int].range.to.ix() by {
        lemma_below(g.in_bundle, g.ranges.len() as int, b as int, k);
        assert(range_ok(f, g, list[k] as int));
    }
    lemma_clobber_list(
        point_start(),
        split_bounds(g, b, conflicting),
        g,
        hot,
        clobbers,
        list,
        0,
    );
}

} // verus!
