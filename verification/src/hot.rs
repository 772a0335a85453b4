//! The code of inner loops.
use crate::cfg::{cfg_ok, CFGInfo, CfgModel};
use crate::code_range::{
    entries_insert, find_overlap, first_not_before, lemma_first_not_before, lemma_first_overlap,
    CodeRange, LiveRangeKey, LiveRangeSet, RangeEntry,
};
use crate::func::{block_ok, func_ok, FuncModel, Function};
use crate::graph::{fresh_range, graph_add_range, GraphState, LiveGraph, MAX_ENTRIES};
use crate::index::{Block, LiveRangeIndex};
use crate::liveness::{entries_ok, lemma_entries_insert_ok};
use crate::reg::RegAllocError;
use vstd::prelude::*;

verus! {

/// The greatest of the first `n` of these blocks that is not before block `b`.
pub open spec fn max_backedge(preds: Seq<Block>, b: int, n: int) -> Option<u32>
    decreases n,
{
    if n <= 0 {
        None
    } else {
        let m = max_backedge(preds, b, n - 1);
        let p = preds[n - 1].0;
        if p < b {
            m
        } else {
            match m {
                Some(q) => if q > p {
                    Some(q)
                } else {
                    Some(p)
                },
                None => Some(p),
            }
        }
    }
}

/// What the search for inner loops yields.
pub struct HotState {
    pub g: GraphState,
    pub hot: Seq<RangeEntry>,
}

/// The search for inner loops, from block `b` on. `header` and `backedge` are the first and the
/// last block of the loop that was entered last; if no other loop is entered up to its last
/// block, the loop is an inner one.
pub open spec fn hot_scan(
    f: FuncModel,
    cfg: CfgModel,
    s: HotState,
    b: int,
    header: Block,
    backedge: Block,
) -> Result<HotState, RegAllocError>
    decreases f.blocks - b,
{
    if b < 0 || b >= f.blocks {
        Ok(s)
    } else {
        let m = max_backedge(f.preds[b], b, f.preds[b].len() as int);
        let header = if m is Some {
            Block(b as u32)
        } else {
            header
        };
        let backedge = match m {
            Some(p) => Block(p),
            None => backedge,
        };
        if b == backedge.0 {
            let range = CodeRange {
                from: cfg.block_entry[header.ix()],
                to: cfg.block_exit[backedge.ix()].succ(),
            };
            if s.g.ranges.len() >= MAX_ENTRIES {
                Err(RegAllocError::TooLarge)
            } else {
                let lr = LiveRangeIndex(s.g.ranges.len() as u32);
                let t = HotState {
                    g: graph_add_range(s.g, fresh_range(range)),
                    hot: entries_insert(s.hot, LiveRangeKey::of(range), lr),
                };
                hot_scan(f, cfg, t, b + 1, header, backedge)
            }
        } else {
            hot_scan(f, cfg, s, b + 1, header, backedge)
        }
    }
}

/// The code of the inner loops.
pub open spec fn hot_code(f: FuncModel, cfg: CfgModel, g: GraphState) -> Result<
    HotState,
    RegAllocError,
> {
    hot_scan(
        f,
        cfg,
        HotState { g, hot: Seq::empty() },
        0,
        Block(u32::MAX),
        Block(u32::MAX),
    )
}

/// The greatest predecessor of a block that is not before it.
fn find_max_backedge<F: Function>(func: &F, block: Block) -> (r: Option<Block>)
    requires
        func_ok(func.model()),
        block.0 < func.model().blocks,
    ensures
        match max_backedge(
            func.model().preds[block.ix()],
            block.ix(),
            func.model().preds[block.ix()].len() as int,
        ) {
            Some(p) => r == Some(Block(p)) && block.0 <= p < func.model().blocks,
            None => r is None,
        },
{
    let ghost f = func.model();
    assert(block_ok(f, block.ix()));
    let preds = func.block_preds(block);
    let mut best: Option<Block> = None;
    let mut k: usize = 0;
    while k < preds.len()
        invariant
            block.0 < f.blocks,
            block_ok(f, block.ix()),
            preds@ == f.preds[block.ix()],
            k <= preds@.len(),
            match max_backedge(preds@, block.ix(), k as int) {
                Some(p) => best == Some(Block(p)) && block.0 <= p < f.blocks,
                None => best is None,
            },
        decreases preds@.len() - k,
    {
        let pred = preds[k];
        assert(f.preds[block.ix()][k as int] == pred);
        if pred.0 >= block.0 {
            best =
            match best {
                Some(q) => if q.0 > pred.0 {
                    Some(q)
                } else {
                    Some(pred)
                },
                None => Some(pred),
            };
        }
        k += 1;
    }
    best
}

impl LiveGraph {
    /// Find the code of the inner loops.
    pub fn compute_hot_code<F: Function>(&mut self, func: &F, cfginfo: &CFGInfo) -> (r: Result<
        LiveRangeSet,
        RegAllocError,
    >)
        requires
            old(self).wf(),
            old(self).func@ == func.model(),
            func_ok(func.model()),
            cfg_ok(func.model(), cfginfo@),
        ensures
            final(self).func == old(self).func,
            match hot_code(func.model(), cfginfo@, old(self)@) {
                Ok(s) => {
                    &&& r is Ok
                    &&& r->Ok_0@ == s.hot
                    &&& r->Ok_0.wf()
                    &&& entries_ok(s.hot, s.g.ranges.len() as int)
                    &&& final(self)@ == s.g
                    &&& final(self).wf()
                    &&& only_ranges_added(old(self)@, s.g)
                },
                Err(e) => r is Err && r->Err_0 == e && e !is SSA,
            },
    {
        let ghost f = func.model();
        let ghost cfg = cfginfo@;
        let ghost g0 = self@;
        let mut hot = LiveRangeSet::new();
        let mut header = Block::invalid();
        let mut backedge = Block::invalid();
        let n = func.blocks();
        let mut b: usize = 0;
        while b < n
            invariant
                self.wf(),
                self.func == old(self).func,
                self.func@ == f,
                f == func.model(),
                cfg == cfginfo@,
                g0 == old(self)@,
                func_ok(f),
                cfg_ok(f, cfg),
                n == f.blocks,
                b <= n,
                hot.wf(),
                entries_ok(hot@, self@.ranges.len() as int),
                only_ranges_added(g0, self@),
                backedge.is_valid() ==> header.0 <= backedge.0 && backedge.0 < f.blocks,
                hot_code(f, cfg, g0) == hot_scan(
                    f,
                    cfg,
                    HotState { g: self@, hot: hot@ },
                    b as int,
                    header,
                    backedge,
                ),
            decreases n - b,
        {
            let block = Block::new(b);
            match find_max_backedge(func, block) {
                Some(p) => {
                    header = block;
                    backedge = p;
                },
                None => {},
            }
            if block == backedge {
                proof {
                    assert(block_ok(f, header.ix()));
                    assert(block_ok(f, backedge.ix()));
                    if header.0 < backedge.0 {
                        assert(f.insns[header.ix()].to.0 <= f.insns[backedge.ix()].from.0);
                    }
                }
                let from = cfginfo.block_entry[header.index()];
                let to = cfginfo.block_exit[backedge.index()].next();
                let range = CodeRange { from, to };
                let ghost before = self@;
                let lr = match self.create_liverange(range) {
                    Ok(lr) => lr,
                    Err(e) => {
                        return Err(e);
                    },
                };
                proof {
                    assert forall|r: int| 0 <= r < g0.ranges.len() implies {
                        &&& #[trigger] self@.ranges[r] == g0.ranges[r]
                        &&& self@.in_range[r] == g0.in_range[r]
                    } by {
                        assert(before.ranges[r] == g0.ranges[r]);
                    }
                    assert forall|r: int| g0.ranges.len() <= r < self@.in_range.len() implies (
                    #[trigger] self@.in_range[r]).len() == 0 && !self@.ranges[r].def.is_valid() by {
                        if r < before.in_range.len() {
                            assert(before.in_range[r].len() == 0);
                        }
                    }
                }
                let ghost entries = hot@;
                hot.insert(LiveRangeKey::from_range(&range), lr);
                proof {
                    assert(entries_ok(entries, self@.ranges.len() as int));
                    lemma_entries_insert_ok(
                        entries,
                        LiveRangeKey::of(range),
                        lr,
                        self@.ranges.len() as int,
                    );
                }
            }
            b += 1;
        }
        Ok(hot)
    }
}

/// Live ranges of no register were added, and nothing else has changed.
pub open spec fn only_ranges_added(g: GraphState, h: GraphState) -> bool {
    &&& h == (GraphState { ranges: h.ranges, in_range: h.in_range, ..g })
    &&& h.ranges.len() >= g.ranges.len()
    &&& h.in_range.len() == h.ranges.len()
    &&& forall|r: int|
        0 <= r < g.ranges.len() ==> #[trigger] h.ranges[r] == g.ranges[r] && h.in_range[r]
            == g.in_range[r]
    &&& forall|r: int|
        g.ranges.len() <= r < h.in_range.len() ==> (#[trigger] h.in_range[r]).len() == 0
            && !h.ranges[r].def.is_valid()
}

/// The last block of the loop that begins with block `h`, if one does.
pub open spec fn loop_end(f: FuncModel, h: int) -> Option<u32> {
    max_backedge(f.preds[h], h, f.preds[h].len() as int)
}

/// Is there a loop from block `h` to block `e` in which no other one begins?
#[verifier::opaque]
pub open spec fn inner_loop(f: FuncModel, h: int, e: int) -> bool {
    &&& 0 <= h < f.blocks
    &&& e < f.blocks
    &&& loop_end(f, h) matches Some(x) && x == e
    &&& forall|b: int| h < b <= e ==> #[trigger] loop_end(f, b) is None
}

/// The code from block `h` to block `e`.
pub open spec fn loop_code(cfg: CfgModel, h: int, e: int) -> CodeRange {
    CodeRange { from: cfg.block_entry[h], to: cfg.block_exit[e].succ() }
}

/// Is the code from block `h` to block `e` among the hot code?
#[verifier::opaque]
pub open spec fn is_hot(cfg: CfgModel, s: HotState, h: int, e: int) -> bool {
    exists|k: int|
        0 <= k < s.hot.len() && (#[trigger] s.hot[k]).0 == LiveRangeKey::of(loop_code(cfg, h, e))
            && s.hot[k].1.ix() < s.g.ranges.len() && s.g.ranges[s.hot[k].1.ix()].range == loop_code(
            cfg,
            h,
            e,
        )
}

/// Is the entry the code of an inner loop that ends before block `b`?
#[verifier::opaque]
pub open spec fn of_inner(f: FuncModel, cfg: CfgModel, e: RangeEntry, b: int) -> bool {
    exists|h: int, last: int| #[trigger]
        inner_loop(f, h, last) && last < b && e.0 == LiveRangeKey::of(loop_code(cfg, h, last))
}

/// The hot code is that of the inner loops that end before block `b`.
pub open spec fn hot_upto(f: FuncModel, cfg: CfgModel, s: HotState, b: int) -> bool {
    &&& forall|k: int| 0 <= k < s.hot.len() ==> of_inner(f, cfg, #[trigger] s.hot[k], b)
    &&& forall|h: int, e: int| #[trigger] inner_loop(f, h, e) && e < b ==> is_hot(cfg, s, h, e)
}

/// The loop that was entered last before block `b`.
#[verifier::opaque]
pub open spec fn last_header(f: FuncModel, b: int, header: Block, backedge: Block) -> bool {
    if header == Block(u32::MAX) {
        &&& backedge == Block(u32::MAX)
        &&& forall|h: int| 0 <= h < b ==> #[trigger] loop_end(f, h) is None
    } else {
        &&& header.0 < b
        &&& loop_end(f, header.ix()) == Some(backedge.0)
        &&& forall|h: int| header.0 < h < b ==> #[trigger] loop_end(f, h) is None
    }
}

proof fn lemma_max_backedge(f: FuncModel, b: int, n: int)
    requires
        func_ok(f),
        0 <= b < f.blocks,
        0 <= n <= f.preds[b].len(),
    ensures
        max_backedge(f.preds[b], b, n) matches Some(p) ==> b <= p < f.blocks,
    decreases n,
{
    if n > 0 {
        lemma_max_backedge(f, b, n - 1);
        assert(block_ok(f, b));
        assert(f.preds[b][n - 1].0 < f.blocks);
    }
}

/// Inner loops do not reach into each other.
proof fn lemma_inner_apart(f: FuncModel, cfg: CfgModel, h: int, e: int, h2: int, e2: int)
    requires
        func_ok(f),
        cfg_ok(f, cfg),
        inner_loop(f, h, e),
        inner_loop(f, h2, e2),
        e < e2,
    ensures
        cfg.block_exit[e].ix() < cfg.block_entry[h2].ix(),
        LiveRangeKey::of(loop_code(cfg, h, e)).to <= LiveRangeKey::of(loop_code(cfg, h2, e2)).from,
{
    reveal(inner_loop);
    lemma_max_backedge(f, h, f.preds[h].len() as int);
    lemma_max_backedge(f, h2, f.preds[h2].len() as int);
    if h < h2 <= e {
        assert(loop_end(f, h2) is None);
    }
    if h2 < h {
        assert(loop_end(f, h) is None);
    }
    lemma_blocks_in_order(f, cfg, e, h2);
}

/// Blocks come one after the other.
proof fn lemma_blocks_in_order(f: FuncModel, cfg: CfgModel, a: int, b: int)
    requires
        func_ok(f),
        cfg_ok(f, cfg),
        0 <= a < b < f.blocks,
    ensures
        cfg.block_exit[a].ix() < cfg.block_entry[b].ix(),
        cfg.block_exit[a].succ().ix() == cfg.block_exit[a].ix() + 1,
        cfg.block_exit[a].ix() + 1 <= u32::MAX,
        cfg.block_entry[b].ix() <= u32::MAX,
{
    assert(block_ok(f, a));
    assert(block_ok(f, b));
    assert(f.insns[a].to.0 <= f.insns[b].from.0);
}

/// The loop that an entry is the code of.
proof fn lemma_loop_of(f: FuncModel, cfg: CfgModel, e: RangeEntry, b: int) -> (l: (int, int))
    requires
        of_inner(f, cfg, e, b),
    ensures
        inner_loop(f, l.0, l.1),
        l.1 < b,
        e.0 == LiveRangeKey::of(loop_code(cfg, l.0, l.1)),
{
    reveal(of_inner);
    let (h, last) = choose|h: int, last: int| #[trigger]
        inner_loop(f, h, last) && last < b && e.0 == LiveRangeKey::of(loop_code(cfg, h, last));
    (h, last)
}

proof fn lemma_of_loop(f: FuncModel, cfg: CfgModel, e: RangeEntry, b: int, h: int, last: int)
    requires
        inner_loop(f, h, last),
        last < b,
        e.0 == LiveRangeKey::of(loop_code(cfg, h, last)),
    ensures
        of_inner(f, cfg, e, b),
{
    reveal(of_inner);
}

/// Hot code stays so where an entry is added.
proof fn lemma_hot_stays(
    cfg: CfgModel,
    s: HotState,
    t: HotState,
    j: int,
    e: RangeEntry,
    h: int,
    last: int,
)
    requires
        is_hot(cfg, s, h, last),
        0 <= j <= s.hot.len(),
        t.hot == s.hot.insert(j, e),
        t.g.ranges.len() >= s.g.ranges.len(),
        forall|r: int| 0 <= r < s.g.ranges.len() ==> #[trigger] t.g.ranges[r] == s.g.ranges[r],
    ensures
        is_hot(cfg, t, h, last),
{
    reveal(is_hot);
    let k = choose|k: int|
        0 <= k < s.hot.len() && (#[trigger] s.hot[k]).0 == LiveRangeKey::of(
            loop_code(cfg, h, last),
        ) && s.hot[k].1.ix() < s.g.ranges.len() && s.g.ranges[s.hot[k].1.ix()].range == loop_code(
            cfg,
            h,
            last,
        );
    let m = if k < j {
        k
    } else {
        k + 1
    };
    assert(t.hot[m] == s.hot[k]);
    assert(t.g.ranges[s.hot[k].1.ix()] == s.g.ranges[s.hot[k].1.ix()]);
}

/// The code of an inner loop is added.
proof fn lemma_hot_added(f: FuncModel, cfg: CfgModel, s: HotState, b: int, h: int)
    requires
        func_ok(f),
        cfg_ok(f, cfg),
        hot_upto(f, cfg, s, b),
        inner_loop(f, h, b),
        s.g.ranges.len() < MAX_ENTRIES,
        forall|h2: int| #[trigger] inner_loop(f, h2, b) ==> h2 == h,
    ensures
        ({
            let range = loop_code(cfg, h, b);
            let lr = LiveRangeIndex(s.g.ranges.len() as u32);
            hot_upto(
                f,
                cfg,
                HotState {
                    g: graph_add_range(s.g, fresh_range(range)),
                    hot: entries_insert(s.hot, LiveRangeKey::of(range), lr),
                },
                b + 1,
            )
        }),
{
    let range = loop_code(cfg, h, b);
    let key = LiveRangeKey::of(range);
    let lr = LiveRangeIndex(s.g.ranges.len() as u32);
    let t = HotState {
        g: graph_add_range(s.g, fresh_range(range)),
        hot: entries_insert(s.hot, key, lr),
    };
    lemma_first_overlap(s.hot, key, 0);
    lemma_first_not_before(s.hot, key, 0);
    let i = find_overlap(s.hot, key);
    let j = first_not_before(s.hot, key, 0);
    if i < s.hot.len() {
        let (h1, e1) = lemma_loop_of(f, cfg, s.hot[i], b);
        lemma_inner_apart(f, cfg, h1, e1, h, b);
        assert(key.meets(s.hot[i].0));
    }
    assert(t.hot == s.hot.insert(j, (key, lr)));
    assert forall|k: int| 0 <= k < t.hot.len() implies of_inner(f, cfg, #[trigger] t.hot[k], b + 1) by {
        if k == j {
            lemma_of_loop(f, cfg, t.hot[k], b + 1, h, b);
        } else {
            let m = if k < j {
                k
            } else {
                k - 1
            };
            assert(t.hot[k] == s.hot[m]);
            let (h1, e1) = lemma_loop_of(f, cfg, s.hot[m], b);
            lemma_of_loop(f, cfg, t.hot[k], b + 1, h1, e1);
        }
    }
    assert forall|h1: int, e1: int| #[trigger] inner_loop(f, h1, e1) && e1 < b + 1 implies is_hot(
        cfg,
        t,
        h1,
        e1,
    ) by {
        if e1 < b {
            lemma_hot_stays(cfg, s, t, j, (key, lr), h1, e1);
        } else {
            reveal(is_hot);
            assert(t.hot[j] == (key, lr));
        }
    }
}

/// The loop that was entered last is an inner one where it ends, and the only one to end there.
proof fn lemma_last_is_inner(f: FuncModel, b: int, header: Block, backedge: Block)
    requires
        func_ok(f),
        0 <= b < f.blocks,
        last_header(f, b + 1, header, backedge),
    ensures
        b == backedge.0 ==> inner_loop(f, header.ix(), b),
        forall|h: int| #[trigger] inner_loop(f, h, b) ==> b == backedge.0 && h == header.ix(),
{
    reveal(inner_loop);
    reveal(last_header);
    assert forall|h: int| #[trigger] inner_loop(f, h, b) implies b == backedge.0 && h
        == header.ix() by {
        lemma_max_backedge(f, h, f.preds[h].len() as int);
        if header == Block(u32::MAX) {
            assert(loop_end(f, h) is None);
        } else if header.ix() < h {
            assert(loop_end(f, h) is None);
        } else if h < header.ix() {
            assert(loop_end(f, header.ix()) is None);
        }
    }
}

/// The next block is looked at.
proof fn lemma_next_header(f: FuncModel, b: int, header: Block, backedge: Block)
    requires
        func_ok(f),
        0 <= b < f.blocks,
        last_header(f, b, header, backedge),
    ensures
        loop_end(f, b) matches Some(p) ==> last_header(f, b + 1, Block(b as u32), Block(p)),
        loop_end(f, b) is None ==> last_header(f, b + 1, header, backedge),
{
    reveal(last_header);
}

/// Nothing is added where no inner loop ends.
proof fn lemma_hot_same(f: FuncModel, cfg: CfgModel, s: HotState, b: int)
    requires
        hot_upto(f, cfg, s, b),
        forall|h: int| !#[trigger] inner_loop(f, h, b),
    ensures
        hot_upto(f, cfg, s, b + 1),
{
    assert forall|k: int| 0 <= k < s.hot.len() implies of_inner(f, cfg, #[trigger] s.hot[k], b + 1) by {
        let (h1, e1) = lemma_loop_of(f, cfg, s.hot[k], b);
        lemma_of_loop(f, cfg, s.hot[k], b + 1, h1, e1);
    }
}

proof fn lemma_hot_scan(
    f: FuncModel,
    cfg: CfgModel,
    s: HotState,
    b: int,
    header: Block,
    backedge: Block,
)
    requires
        func_ok(f),
        cfg_ok(f, cfg),
        0 <= b <= f.blocks,
        hot_upto(f, cfg, s, b),
        last_header(f, b, header, backedge),
    ensures
        hot_scan(f, cfg, s, b, header, backedge) matches Ok(t) ==> hot_upto(
            f,
            cfg,
            t,
            f.blocks as int,
        ),
    decreases f.blocks - b,
{
    if b < f.blocks {
        let m = loop_end(f, b);
        lemma_next_header(f, b, header, backedge);
        let header2 = if m is Some {
            Block(b as u32)
        } else {
            header
        };
        let backedge2 = match m {
            Some(p) => Block(p),
            None => backedge,
        };
        lemma_last_is_inner(f, b, header2, backedge2);
        if b == backedge2.0 {
            let h = header2.ix();
            if s.g.ranges.len() < MAX_ENTRIES {
                lemma_hot_added(f, cfg, s, b, h);
                let range = loop_code(cfg, h, b);
                let lr = LiveRangeIndex(s.g.ranges.len() as u32);
                let t = HotState {
                    g: graph_add_range(s.g, fresh_range(range)),
                    hot: entries_insert(s.hot, LiveRangeKey::of(range), lr),
                };
                assert(backedge2.ix() == b);
                lemma_hot_scan(f, cfg, t, b + 1, header2, backedge2);
            }
        } else {
            lemma_hot_same(f, cfg, s, b);
            lemma_hot_scan(f, cfg, s, b + 1, header2, backedge2);
        }
    }
}

/// The hot code is the code of the inner loops, and nothing else.
pub proof fn law_hot_is_inner(f: FuncModel, cfg: CfgModel, g: GraphState)
    requires
        func_ok(f),
        cfg_ok(f, cfg),
    ensures
        hot_code(f, cfg, g) matches Ok(s) ==> {
            &&& forall|k: int|
                0 <= k < s.hot.len() ==> of_inner(f, cfg, #[trigger] s.hot[k], f.blocks as int)
            &&& forall|h: int, e: int| #[trigger] inner_loop(f, h, e) ==> is_hot(cfg, s, h, e)
        },
{
    let s = HotState { g, hot: Seq::empty() };
    assert(last_header(f, 0, Block(u32::MAX), Block(u32::MAX))) by {
        reveal(last_header);
    }
    assert forall|h: int, e: int| #[trigger] inner_loop(f, h, e) implies 0 <= e < f.blocks by {
        reveal(inner_loop);
        lemma_max_backedge(f, h, f.preds[h].len() as int);
    }
    lemma_hot_scan(f, cfg, s, 0, Block(u32::MAX), Block(u32::MAX));
}

} // verus!
