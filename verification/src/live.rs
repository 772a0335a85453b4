//! Adding live ranges to registers.
use crate::code_range::CodeRange;
use crate::data::LiveRange;
use crate::func::FuncModel;
use crate::graph::{
    fresh_range, graph_add_range, graph_insert_use, graph_ok, graph_remove_use, graph_set_range,
    lemma_add_range_ok, lemma_remove_use_ok, lemma_set_range_ok, range_ok, stats_ok, vreg_ok,
    GraphState, LiveGraph, COALESCE_LIMIT, MAX_ENTRIES,
};
use crate::index::{LiveRangeIndex, UseIndex, VRegIndex};
use crate::lists::{
    lemma_below, lemma_insert_ok, lemma_neq, lemma_remove_ok, lists_ok, node_at, NIL,
};
use crate::reg::{ProgPoint, RegAllocError};
use vstd::prelude::*;

verus! {

/// The uses of live range `from` in `range`, from position `j` on and up to the first one past
/// `range`, go over to live range `into`.
pub open spec fn graph_move_uses(
    g: GraphState,
    from: u32,
    into: u32,
    range: CodeRange,
    j: int,
) -> Result<GraphState, RegAllocError>
    decreases g.in_range[from as int].len() - j,
{
    let list = g.in_range[from as int];
    if j < 0 || j >= list.len() || from == into || from >= g.in_range.len() || into
        >= g.in_range.len() {
        Ok(g)
    } else {
        let pos = g.uses[list[j] as int].pos;
        if pos.ix() >= range.to.ix() {
            Ok(g)
        } else if range.has(pos) {
            match graph_insert_use(graph_remove_use(g, from, j), into, list[j]) {
                Ok(h) => graph_move_uses(h, from, into, range, j),
                Err(e) => Err(e),
            }
        } else {
            graph_move_uses(g, from, into, range, j + 1)
        }
    }
}

/// The uses of live range `from` that lie in live range `into` go over to it, and so does the
/// definition of the register if it lies in `from`.
pub open spec fn graph_distribute(g: GraphState, v: u32, from: u32, into: u32) -> Result<
    GraphState,
    RegAllocError,
> {
    match graph_move_uses(g, from, into, g.ranges[into as int].range, 0) {
        Ok(h) => {
            let d = h.vregs[v as int].def;
            if h.ranges[from as int].def.is_valid() && g.ranges[from as int].range.has(
                h.defs[d.ix()].pos,
            ) {
                Ok(graph_set_range(h, into, LiveRange { def: d, ..h.ranges[into as int] }))
            } else {
                Ok(h)
            }
        },
        Err(e) => Err(e),
    }
}

/// Only uses have changed their live range.
pub open spec fn only_uses_moved(g: GraphState, h: GraphState) -> bool {
    &&& h == (GraphState { ranges: h.ranges, in_range: h.in_range, ..g })
    &&& h.ranges.len() == g.ranges.len()
    &&& h.in_range.len() == g.in_range.len()
    &&& forall|r: int|
        0 <= r < g.ranges.len() ==> {
            &&& (#[trigger] h.ranges[r]).range == g.ranges[r].range
            &&& h.ranges[r].vreg == g.ranges[r].vreg
            &&& h.ranges[r].bundle == g.ranges[r].bundle
            &&& h.ranges[r].def == g.ranges[r].def
        }
}

/// Live ranges were added or have changed their extent and their mentions, and nothing else.
pub open spec fn vregs_kept(g: GraphState, h: GraphState) -> bool {
    &&& h == (GraphState {
        ranges: h.ranges,
        in_range: h.in_range,
        in_vreg: h.in_vreg,
        ..g
    })
    &&& h.ranges.len() >= g.ranges.len()
    &&& forall|r: int|
        0 <= r < g.ranges.len() ==> {
            &&& (#[trigger] h.ranges[r]).vreg == g.ranges[r].vreg
            &&& h.ranges[r].bundle == g.ranges[r].bundle
        }
}

impl LiveGraph {
    /// Hand the uses of `from` that lie in `into` over to `into`, and the definition of the
    /// register if it lies in `from`.
    pub fn distribute_liverange_uses(
        &mut self,
        vreg: VRegIndex,
        from: LiveRangeIndex,
        into: LiveRangeIndex,
    ) -> (r: Result<(), RegAllocError>)
        requires
            old(self).wf(),
            from.0 < old(self)@.ranges.len(),
            into.0 < old(self)@.ranges.len(),
            from != into,
            vreg.0 < old(self)@.vregs.len(),
            old(self)@.ranges[from.ix()].vreg == vreg,
            old(self)@.ranges[into.ix()].vreg == vreg,
        ensures
            final(self).func == old(self).func,
            match graph_distribute(old(self)@, vreg.0, from.0, into.0) {
                Ok(g) => r is Ok && final(self)@ == g && final(self).wf(),
                Err(e) => r == Err::<(), RegAllocError>(e) && e is TooLarge,
            },
    {
        let ghost g0 = self@;
        let f = self.func;
        let from_range = self.ranges[from.index()].range;
        let into_range = self.ranges[into.index()].range;
        let mut prev: u32 = NIL;
        let mut iter = self.in_range.first(from.index());
        let ghost mut j: int = 0;
        while iter != NIL && !(self.uses[iter as usize].pos >= into_range.to)
            invariant
                self.wf(),
                self.func == f,
                f == old(self).func,
                g0 == old(self)@,
                from.0 < g0.ranges.len(),
                into.0 < g0.ranges.len(),
                from != into,
                only_uses_moved(g0, self@),
                into_range == g0.ranges[into.ix()].range,
                0 <= j <= self@.in_range[from.ix()].len(),
                prev == node_at(self@.in_range[from.ix()], j - 1),
                iter == node_at(self@.in_range[from.ix()], j),
                iter == NIL <==> j == self@.in_range[from.ix()].len(),
                iter != NIL ==> iter < self@.uses.len(),
                graph_move_uses(g0, from.0, into.0, into_range, 0) == graph_move_uses(
                    self@,
                    from.0,
                    into.0,
                    into_range,
                    j,
                ),
            decreases self@.in_range[from.ix()].len() - j,
        {
            let ghost g = self@;
            let ghost list = g.in_range[from.ix()];
            let pos = self.uses[iter as usize].pos;
            if into_range.contains_point(pos) {
                let next = self.in_range.next(iter, Ghost(from.ix()), Ghost(j));
                proof {
                    lemma_remove_use_ok(self.func@, g, from.0, j);
                }
                self.in_range.remove_after(from.index(), prev, Ghost(j));
                self.update_liverange_stats_on_remove_use(from, UseIndex(iter));
                assert(self@ == graph_remove_use(g, from.0, j));
                match self.insert_use_into_liverange_and_update_stats(into, UseIndex(iter)) {
                    Ok(()) => {},
                    Err(e) => {
                        return Err(e);
                    },
                }
                iter = next;
                proof {
                    if j + 1 < list.len() {
                        assert(list.remove(j)[j] == list[j + 1]);
                    }
                    if j > 0 {
                        assert(list.remove(j)[j - 1] == list[j - 1]);
                    }
                    assert(self@.in_range[from.ix()] == list.remove(j));
                }
            } else {
                prev = iter;
                iter = self.in_range.next(iter, Ghost(from.ix()), Ghost(j));
                proof {
                    j = j + 1;
                }
            }
        }
        proof {
            assert(range_ok(self.func@, self@, from.ix()));
            assert(range_ok(self.func@, self@, into.ix()));
            assert(vreg_ok(self.func@, self@, vreg.ix()));
        }
        if self.ranges[from.index()].def.is_valid() {
            let def_idx = self.vregs[vreg.index()].def;
            if from_range.contains_point(self.defs[def_idx.index()].pos) {
                proof {
                    lemma_set_range_ok(
                        self.func@,
                        self@,
                        into.0,
                        LiveRange { def: def_idx, ..self@.ranges[into.ix()] },
                    );
                }
                self.ranges[into.index()].def = def_idx;
            }
        }
        Ok(())
    }
}

/// Where a scan over the live ranges of a register ended: at position `at`, with live range
/// `merged` grown over the new range, if any was.
pub struct AddScan {
    pub g: GraphState,
    pub at: int,
    pub merged: u32,
}

/// Live range `r` at position `i` of register `v` is joined to live range `merged`.
pub open spec fn graph_join(g: GraphState, v: u32, i: int, merged: u32) -> Result<
    GraphState,
    RegAllocError,
> {
    let r = g.in_vreg[v as int][i];
    let lr = g.ranges[r as int];
    let m = g.ranges[merged as int];
    let g1 = graph_set_range(
        g,
        merged,
        LiveRange {
            range: CodeRange {
                from: m.range.from,
                to: if lr.range.to.ix() > m.range.to.ix() {
                    lr.range.to
                } else {
                    m.range.to
                },
            },
            def: if lr.def.is_valid() {
                lr.def
            } else {
                m.def
            },
            ..m
        },
    );
    match graph_distribute(g1, v, r, merged) {
        Ok(h) => Ok(
            GraphState {
                in_vreg: h.in_vreg.update(v as int, h.in_vreg[v as int].remove(i)),
                ..h
            },
        ),
        Err(e) => Err(e),
    }
}

/// The smallest range that covers both.
pub open spec fn hull(a: CodeRange, b: CodeRange) -> CodeRange {
    CodeRange {
        from: if b.from.ix() < a.from.ix() {
            b.from
        } else {
            a.from
        },
        to: if b.to.ix() > a.to.ix() {
            b.to
        } else {
            a.to
        },
    }
}

/// The scan over the live ranges of register `v`, from position `i` on, that makes room for
/// `range`. Live ranges before `range` are passed, unless there are too many live ranges
/// already; the first one that `range` reaches into is grown, and later ones are joined to it.
pub open spec fn graph_scan(
    g: GraphState,
    v: u32,
    range: CodeRange,
    pass: bool,
    i: int,
    merged: u32,
) -> Result<AddScan, RegAllocError>
    decreases g.in_vreg[v as int].len() - i,
{
    let list = g.in_vreg[v as int];
    if i < 0 || i >= list.len() || v >= g.in_vreg.len() {
        Ok(AddScan { g, at: i, merged })
    } else {
        let r = list[i];
        let lr = g.ranges[r as int];
        if range.from.ix() >= lr.range.to.ix() && pass {
            graph_scan(g, v, range, pass, i + 1, merged)
        } else if range.to.ix() <= lr.range.from.ix() {
            Ok(AddScan { g, at: i, merged })
        } else if merged == NIL {
            let h = graph_set_range(g, r, LiveRange { range: hull(lr.range, range), ..lr });
            graph_scan(h, v, range, pass, i + 1, r)
        } else {
            match graph_join(g, v, i, merged) {
                Ok(h) => if h.in_vreg[v as int].len() == list.len() - 1 {
                    graph_scan(h, v, range, pass, i, merged)
                } else {
                    Ok(AddScan { g: h, at: i, merged })
                },
                Err(e) => Err(e),
            }
        }
    }
}

/// What adding a range to a register yields: the tables, the live range that covers the range,
/// and the number of live ranges made so far.
pub struct AddLive {
    pub g: GraphState,
    pub lr: u32,
    pub num_ranges: int,
}

/// Register `v` becomes live over `range`.
pub open spec fn graph_add_live(g: GraphState, v: u32, range: CodeRange, num_ranges: int) -> Result<
    AddLive,
    RegAllocError,
> {
    match graph_scan(g, v, range, num_ranges < COALESCE_LIMIT, 0, NIL) {
        Ok(s) => if s.merged != NIL {
            Ok(AddLive { g: s.g, lr: s.merged, num_ranges })
        } else if s.g.ranges.len() >= MAX_ENTRIES {
            Err(RegAllocError::TooLarge)
        } else {
            let lr = s.g.ranges.len() as u32;
            let h = graph_add_range(
                s.g,
                LiveRange { vreg: VRegIndex(v), ..fresh_range(range) },
            );
            Ok(
                AddLive {
                    g: GraphState {
                        in_vreg: h.in_vreg.update(v as int, h.in_vreg[v as int].insert(s.at, lr)),
                        ..h
                    },
                    lr,
                    num_ranges: num_ranges + 1,
                },
            )
        },
        Err(e) => Err(e),
    }
}

/// The lists of the registers may change as long as each live range is in the list of its own
/// register.
pub proof fn lemma_vreg_lists_ok(f: FuncModel, g: GraphState, h: GraphState)
    requires
        graph_ok(f, g),
        h == (GraphState { in_vreg: h.in_vreg, ..g }),
        h.in_vreg.len() == g.in_vreg.len(),
        lists_ok(h.in_vreg, h.ranges.len() as int),
        forall|v: int, i: int|
            0 <= v < h.in_vreg.len() && 0 <= i < h.in_vreg[v].len() ==> h.ranges[(
            #[trigger] h.in_vreg[v][i]) as int].vreg.0 == v,
    ensures
        graph_ok(f, h),
{
    assert forall|k: int| 0 <= k < h.ranges.len() implies #[trigger] range_ok(f, h, k) by {
        assert(range_ok(f, g, k));
    }
    assert forall|k: int| 0 <= k < h.ranges.len() implies #[trigger] stats_ok(h, k) by {
        assert(stats_ok(g, k));
    }
    assert forall|v: int| 0 <= v < h.vregs.len() implies #[trigger] vreg_ok(f, h, v) by {
        assert(vreg_ok(f, g, v));
    }
}

impl LiveGraph {
    /// Join the live range after `prev`, at position `i` of the list of `vreg`, to `merged`.
    fn join_liverange(
        &mut self,
        vreg: VRegIndex,
        iter: LiveRangeIndex,
        prev: LiveRangeIndex,
        merged: LiveRangeIndex,
        Ghost(i): Ghost<int>,
    ) -> (r: Result<(), RegAllocError>)
        requires
            old(self).wf(),
            vreg.0 < old(self)@.vregs.len(),
            0 <= i < old(self)@.in_vreg[vreg.ix()].len(),
            iter.0 == old(self)@.in_vreg[vreg.ix()][i],
            prev.0 == node_at(old(self)@.in_vreg[vreg.ix()], i - 1),
            merged.0 < old(self)@.ranges.len(),
            merged != iter,
            old(self)@.ranges[merged.ix()].vreg == vreg,
        ensures
            final(self).func == old(self).func,
            match graph_join(old(self)@, vreg.0, i, merged.0) {
                Ok(g) => r is Ok && final(self)@ == g && final(self).wf() && g.in_vreg
                    == old(self)@.in_vreg.update(
                    vreg.ix(),
                    old(self)@.in_vreg[vreg.ix()].remove(i),
                ) && g.ranges.len() == old(self)@.ranges.len() && vregs_kept(old(self)@, g),
                Err(e) => r == Err::<(), RegAllocError>(e) && e is TooLarge,
            },
    {
        let ghost g0 = self@;
        proof {
            lemma_below(g0.in_vreg, g0.ranges.len() as int, vreg.ix(), i);
            assert(range_ok(self.func@, g0, iter.ix()));
            assert(range_ok(self.func@, g0, merged.ix()));
        }
        let other = self.ranges[iter.index()];
        let mut lr = self.ranges[merged.index()];
        if other.range.to > lr.range.to {
            lr.range.to = other.range.to;
        }
        if other.def.is_valid() {
            lr.def = other.def;
        }
        proof {
            lemma_set_range_ok(self.func@, g0, merged.0, lr);
        }
        self.ranges.set(merged.index(), lr);
        let ghost g1 = self@;
        assert(g1 == graph_set_range(g0, merged.0, lr));
        match self.distribute_liverange_uses(vreg, iter, merged) {
            Ok(()) => {},
            Err(e) => {
                return Err(e);
            },
        }
        let ghost h = self@;
        proof {
            lemma_distribute_frame(g1, vreg.0, iter.0, merged.0);
            lemma_remove_ok(h.in_vreg, h.ranges.len() as int, vreg.ix(), i);
            let k = GraphState {
                in_vreg: h.in_vreg.update(vreg.ix(), h.in_vreg[vreg.ix()].remove(i)),
                ..h
            };
            assert forall|v: int, j: int|
                0 <= v < k.in_vreg.len() && 0 <= j < k.in_vreg[v].len() implies k.ranges[(
            #[trigger] k.in_vreg[v][j]) as int].vreg.0 == v by {
                let j0 = if v != vreg.ix() || j < i {
                    j
                } else {
                    j + 1
                };
                assert(k.in_vreg[v][j] == h.in_vreg[v][j0]);
            }
            lemma_vreg_lists_ok(self.func@, h, k);
        }
        self.in_vreg.remove_after(vreg.index(), prev.0, Ghost(i));
        Ok(())
    }

    /// Mark `range` as live for the given `vreg`. `num_ranges` is used to prevent excessive
    /// coalescing on pathological inputs.
    ///
    /// Returns the live range that contains the given range.
    pub fn add_liverange_to_vreg(
        &mut self,
        vreg: VRegIndex,
        range: CodeRange,
        num_ranges: &mut usize,
    ) -> (r: Result<LiveRangeIndex, RegAllocError>)
        requires
            old(self).wf(),
            vreg.0 < old(self)@.vregs.len(),
            range.within(old(self).func@.insts),
            *old(num_ranges) <= old(self)@.ranges.len(),
        ensures
            final(self).func == old(self).func,
            match graph_add_live(old(self)@, vreg.0, range, *old(num_ranges) as int) {
                Ok(a) => {
                    &&& r == Ok::<LiveRangeIndex, RegAllocError>(LiveRangeIndex(a.lr))
                    &&& final(self)@ == a.g
                    &&& *final(num_ranges) == a.num_ranges
                    &&& final(self).wf()
                    &&& a.lr < a.g.ranges.len()
                    &&& a.g.ranges[a.lr as int].vreg == vreg
                    &&& a.num_ranges <= a.g.ranges.len()
                    &&& vregs_kept(old(self)@, a.g)
                },
                Err(e) => r == Err::<LiveRangeIndex, RegAllocError>(e) && e is TooLarge,
            },
    {
        let ghost g0 = self@;
        let f = self.func;
        let pass = *num_ranges < COALESCE_LIMIT;
        let mut merged = LiveRangeIndex::invalid();
        let mut prev = LiveRangeIndex::invalid();
        let mut iter = LiveRangeIndex(self.in_vreg.first(vreg.index()));
        let ghost mut i: int = 0;
        while iter.is_valid() && ((range.from >= self.ranges[iter.index()].range.to && pass) || !(
        range.to <= self.ranges[iter.index()].range.from))
            invariant
                self.wf(),
                self.func == f,
                f == old(self).func,
                g0 == old(self)@,
                pass == (*old(num_ranges) < COALESCE_LIMIT),
                vreg.0 < self@.vregs.len(),
                range.within(f@.insts),
                g0.ranges.len() == self@.ranges.len(),
                vregs_kept(g0, self@),
                0 <= i <= self@.in_vreg[vreg.ix()].len(),
                prev.0 == node_at(self@.in_vreg[vreg.ix()], i - 1),
                iter.0 == node_at(self@.in_vreg[vreg.ix()], i),
                iter.0 == NIL <==> i == self@.in_vreg[vreg.ix()].len(),
                iter.0 != NIL ==> iter.0 < self@.ranges.len(),
                merged.is_valid() ==> merged.0 < self@.ranges.len()
                    && self@.ranges[merged.ix()].vreg == vreg,
                merged.is_valid() ==> exists|k: int|
                    0 <= k < i && #[trigger] self@.in_vreg[vreg.ix()][k] == merged.0,
                graph_scan(g0, vreg.0, range, pass, 0, NIL) == graph_scan(
                    self@,
                    vreg.0,
                    range,
                    pass,
                    i,
                    merged.0,
                ),
            decreases self@.in_vreg[vreg.ix()].len() - i,
        {
            let ghost g = self@;
            let ghost list = g.in_vreg[vreg.ix()];
            let existing = self.ranges[iter.index()];
            proof {
                assert(range_ok(f@, g, iter.ix()));
            }
            if range.from >= existing.range.to && pass {
                prev = iter;
                iter = LiveRangeIndex(self.in_vreg.next(iter.0, Ghost(vreg.ix()), Ghost(i)));
                proof {
                    i = i + 1;
                }
            } else if merged.is_invalid() {
                merged = iter;
                let mut lr = existing;
                if range.from < existing.range.from {
                    lr.range.from = range.from;
                }
                if range.to > existing.range.to {
                    lr.range.to = range.to;
                }
                proof {
                    lemma_set_range_ok(f@, g, iter.0, lr);
                }
                self.ranges.set(iter.index(), lr);
                assert(self@ == graph_set_range(g, iter.0, lr));
                prev = iter;
                iter = LiveRangeIndex(self.in_vreg.next(iter.0, Ghost(vreg.ix()), Ghost(i)));
                proof {
                    assert(self@.in_vreg[vreg.ix()][i] == merged.0);
                    i = i + 1;
                }
            } else {
                proof {
                    let k = choose|k: int|
                        0 <= k < i && #[trigger] self@.in_vreg[vreg.ix()][k] == merged.0;
                    lemma_neq(g.in_vreg, g.ranges.len() as int, vreg.ix(), i, vreg.ix(), k);
                }
                let next = LiveRangeIndex(self.in_vreg.next(iter.0, Ghost(vreg.ix()), Ghost(i)));
                match self.join_liverange(vreg, iter, prev, merged, Ghost(i)) {
                    Ok(()) => {},
                    Err(e) => {
                        return Err(e);
                    },
                }
                iter = next;
                proof {
                    assert(self@.in_vreg[vreg.ix()] == list.remove(i));
                    let k = choose|k: int|
                        0 <= k < i && #[trigger] g.in_vreg[vreg.ix()][k] == merged.0;
                    assert(self@.in_vreg[vreg.ix()][k] == merged.0);
                }
            }
        }
        if merged.is_invalid() {
            let ghost g = self@;
            let lr = match self.create_liverange(range) {
                Ok(lr) => lr,
                Err(e) => {
                    return Err(e);
                },
            };
            proof {
                lemma_add_range_ok(
                    f@,
                    g,
                    LiveRange { vreg: VRegIndex(vreg.0), ..fresh_range(range) },
                );
            }
            let ghost h0 = self@;
            self.ranges[lr.index()].vreg = vreg;
            let ghost h = self@;
            proof {
                assert(h == graph_add_range(
                    g,
                    LiveRange { vreg: VRegIndex(vreg.0), ..fresh_range(range) },
                ));
                lemma_insert_ok(h.in_vreg, h.ranges.len() as int, vreg.ix(), i, lr.0);
                let k = GraphState {
                    in_vreg: h.in_vreg.update(vreg.ix(), h.in_vreg[vreg.ix()].insert(i, lr.0)),
                    ..h
                };
                assert forall|v: int, j: int|
                    0 <= v < k.in_vreg.len() && 0 <= j < k.in_vreg[v].len() implies k.ranges[(
                #[trigger] k.in_vreg[v][j]) as int].vreg.0 == v by {
                    if !(v == vreg.ix() && j == i) {
                        let j0 = if v != vreg.ix() || j < i {
                            j
                        } else {
                            j - 1
                        };
                        assert(k.in_vreg[v][j] == h.in_vreg[v][j0]);
                        lemma_below(g.in_vreg, g.ranges.len() as int, v, j0);
                    }
                }
                lemma_vreg_lists_ok(f@, h, k);
            }
            self.in_vreg.insert_after(vreg.index(), prev.0, lr.0, Ghost(i));
            *num_ranges += 1;
            Ok(lr)
        } else {
            Ok(merged)
        }
    }
}

/// Handing over uses leaves the lists of the registers and bundles and what the live ranges refer
/// to as they are.
pub proof fn lemma_distribute_frame(g: GraphState, v: u32, from: u32, into: u32)
    requires
        from < g.ranges.len(),
        into < g.ranges.len(),
        g.in_range.len() == g.ranges.len(),
        graph_distribute(g, v, from, into) is Ok,
    ensures
        ({
            let h = graph_distribute(g, v, from, into)->Ok_0;
            &&& h == (GraphState { ranges: h.ranges, in_range: h.in_range, ..g })
            &&& h.ranges.len() == g.ranges.len()
            &&& h.in_range.len() == g.in_range.len()
            &&& forall|r: int|
                0 <= r < g.ranges.len() ==> {
                    &&& (#[trigger] h.ranges[r]).range == g.ranges[r].range
                    &&& h.ranges[r].vreg == g.ranges[r].vreg
                    &&& h.ranges[r].bundle == g.ranges[r].bundle
                    &&& r != into ==> h.ranges[r].def == g.ranges[r].def
                }
        }),
{
    lemma_move_uses_frame(g, from, into, g.ranges[into as int].range, 0);
}

pub proof fn lemma_move_uses_frame(
    g: GraphState,
    from: u32,
    into: u32,
    range: CodeRange,
    j: int,
)
    requires
        from < g.ranges.len(),
        into < g.ranges.len(),
        g.in_range.len() == g.ranges.len(),
        graph_move_uses(g, from, into, range, j) is Ok,
    ensures
        only_uses_moved(g, graph_move_uses(g, from, into, range, j)->Ok_0),
    decreases g.in_range[from as int].len() - j,
{
    let list = g.in_range[from as int];
    if j < 0 || j >= list.len() || from == into {
    } else {
        let pos = g.uses[list[j] as int].pos;
        if pos.ix() >= range.to.ix() {
        } else if range.has(pos) {
            match graph_insert_use(graph_remove_use(g, from, j), into, list[j]) {
                Ok(h) => {
                    lemma_move_uses_frame(h, from, into, range, j);
                    assert(only_uses_moved(g, h));
                },
                Err(e) => {},
            }
        } else {
            lemma_move_uses_frame(g, from, into, range, j + 1);
        }
    }
}

/// The first live range of register `v`, from position `i` on, that has the point.
pub open spec fn graph_find(g: GraphState, v: u32, pos: ProgPoint, i: int) -> Option<u32>
    decreases g.in_vreg[v as int].len() - i,
{
    let list = g.in_vreg[v as int];
    if i < 0 || i >= list.len() {
        None
    } else if g.ranges[list[i] as int].range.has(pos) {
        Some(list[i])
    } else {
        graph_find(g, v, pos, i + 1)
    }
}

impl LiveGraph {
    /// The live range of a register that has the point, if there is one.
    pub fn find_vreg_liverange_for_pos(&self, vreg: VRegIndex, pos: ProgPoint) -> (r: Option<
        LiveRangeIndex,
    >)
        requires
            self.wf(),
            vreg.0 < self@.vregs.len(),
        ensures
            match graph_find(self@, vreg.0, pos, 0) {
                Some(lr) => r == Some(LiveRangeIndex(lr)),
                None => r is None,
            },
    {
        let ghost list = self@.in_vreg[vreg.ix()];
        let mut range = LiveRangeIndex(self.in_vreg.first(vreg.index()));
        let ghost mut i: int = 0;
        while range.is_valid()
            invariant
                self.wf(),
                vreg.0 < self@.vregs.len(),
                list == self@.in_vreg[vreg.ix()],
                0 <= i <= list.len(),
                range.0 == node_at(list, i),
                range.0 == NIL <==> i == list.len(),
                range.0 != NIL ==> range.0 < self@.ranges.len(),
                graph_find(self@, vreg.0, pos, 0) == graph_find(self@, vreg.0, pos, i),
            decreases list.len() - i,
        {
            if self.ranges[range.index()].range.contains_point(pos) {
                return Some(range);
            }
            range = LiveRangeIndex(self.in_vreg.next(range.0, Ghost(vreg.ix()), Ghost(i)));
            proof {
                i = i + 1;
            }
        }
        None
    }
}

} // verus!
