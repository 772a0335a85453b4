//! Ranges of program points, and sets of disjoint ranges.
use core::cmp::Ordering;
use crate::index::LiveRangeIndex;
use crate::reg::{ProgPoint, MAX_INSTS};
use vstd::prelude::*;

verus! {

/// A range from `from` (inclusive) to `to` (exclusive).
#[derive(Clone, Copy, Debug, PartialEq, Eq, Structural)]
pub struct CodeRange {
    pub from: ProgPoint,
    pub to: ProgPoint,
}

impl CodeRange {
    /// Is the point in this range?
    pub open spec fn has(self, p: ProgPoint) -> bool {
        self.from.ix() <= p.ix() < self.to.ix()
    }

    /// Does this range end no later than the other one begins?
    pub open spec fn precedes(self, other: CodeRange) -> bool {
        self.to.ix() <= other.from.ix()
    }

    /// The range begins before it ends, and both ends are points of a program with `insts`
    /// instructions.
    pub open spec fn within(self, insts: nat) -> bool {
        &&& self.from.ix() < self.to.ix()
        &&& self.to.ix() <= 2 * insts
    }

    /// Does the range end where it begins?
    pub fn is_empty(&self) -> (r: bool)
        ensures
            r == (self.from == self.to),
    {
        self.from == self.to
    }

    /// Does this range cover `other`?
    pub fn contains(&self, other: &Self) -> (r: bool)
        ensures
            r == (self.from.ix() <= other.from.ix() && other.to.ix() <= self.to.ix()),
    {
        other.from >= self.from && other.to <= self.to
    }

    /// Is the point in this range?
    pub fn contains_point(&self, other: ProgPoint) -> (r: bool)
        ensures
            r == self.has(other),
    {
        other >= self.from && other < self.to
    }

    /// Do the two ranges reach into each other?
    pub open spec fn meets(self, other: CodeRange) -> bool {
        other.to.ix() > self.from.ix() && other.from.ix() < self.to.ix()
    }

    /// Do the two ranges reach into each other?
    pub fn overlaps(&self, other: &Self) -> (r: bool)
        ensures
            r == self.meets(*other),
    {
        other.to > self.from && other.from < self.to
    }

    /// The number of instructions between the two ends.
    pub fn len(&self) -> (n: usize)
        requires
            self.to.inst.is_valid(),
            self.from.inst.0 <= self.to.inst.0,
        ensures
            n == self.to.inst.0 - self.from.inst.0,
    {
        self.to.inst.index() - self.from.inst.index()
    }

    /// The order of two ranges: one that ends before the other begins is less, and two that
    /// reach into each other are equal.
    pub open spec fn range_ordering(self, other: CodeRange) -> Ordering {
        if self.precedes(other) {
            Ordering::Less
        } else if other.precedes(self) {
            Ordering::Greater
        } else {
            Ordering::Equal
        }
    }

    /// The order of two ranges.
    pub fn cmp(&self, other: &Self) -> (r: Ordering)
        ensures
            r == self.range_ordering(*other),
    {
        if self.to <= other.from {
            Ordering::Less
        } else if self.from >= other.to {
            Ordering::Greater
        } else {
            Ordering::Equal
        }
    }
}

impl PartialOrd for CodeRange {
    fn partial_cmp(&self, other: &Self) -> (r: Option<Ordering>) {
        Some(CodeRange::cmp(self, other))
    }
}

impl vstd::std_specs::cmp::PartialOrdSpecImpl for CodeRange {
    open spec fn obeys_partial_cmp_spec() -> bool {
        true
    }

    open spec fn partial_cmp_spec(&self, other: &Self) -> Option<Ordering> {
        Some(self.range_ordering(*other))
    }
}

/// Two ranges compare as equal exactly if they reach into each other.
pub proof fn law_order_equal_is_overlap(a: CodeRange, b: CodeRange)
    ensures
        a.range_ordering(b) == Ordering::Equal <==> a.meets(b),
{
}

/// Overlap is symmetric.
pub proof fn law_overlap_symmetric(a: CodeRange, b: CodeRange)
    ensures
        a.meets(b) == b.meets(a),
{
}

/// Two non-empty ranges overlap exactly if some point is in both.
pub proof fn law_overlap_is_common_point(a: CodeRange, b: CodeRange)
    requires
        a.from.ix() < a.to.ix(),
        b.from.ix() < b.to.ix(),
    ensures
        a.meets(b) <==> exists|p: ProgPoint| a.has(p) && b.has(p),
{
    if a.meets(b) {
        let p = if a.from.ix() <= b.from.ix() {
            b.from
        } else {
            a.from
        };
        assert(a.has(p) && b.has(p));
    }
}

/// A range as a key: the places of its two ends.
#[derive(Clone, Copy, Debug)]
pub struct LiveRangeKey {
    pub from: u32,
    pub to: u32,
}

impl LiveRangeKey {
    /// Do the two keys reach into each other?
    pub open spec fn meets(self, other: LiveRangeKey) -> bool {
        self.to > other.from && self.from < other.to
    }

    /// The key of a range.
    pub open spec fn of(range: CodeRange) -> LiveRangeKey {
        LiveRangeKey { from: range.from.ix() as u32, to: range.to.ix() as u32 }
    }

    /// The key of `range`.
    pub fn from_range(range: &CodeRange) -> (r: Self)
        requires
            range.from.inst.0 <= MAX_INSTS,
            range.to.inst.0 <= MAX_INSTS,
        ensures
            r == Self::of(*range),
            r.from == range.from.ix(),
            r.to == range.to.ix(),
    {
        Self { from: range.from.to_index(), to: range.to.to_index() }
    }

    /// The order of two keys: one that ends before the other begins is less, and two that reach
    /// into each other are equal.
    pub open spec fn range_ordering(self, other: LiveRangeKey) -> Ordering {
        if self.to <= other.from {
            Ordering::Less
        } else if self.from >= other.to {
            Ordering::Greater
        } else {
            Ordering::Equal
        }
    }

    /// The order of two keys.
    pub fn cmp(&self, other: &Self) -> (r: Ordering)
        ensures
            r == self.range_ordering(*other),
    {
        if self.to <= other.from {
            Ordering::Less
        } else if self.from >= other.to {
            Ordering::Greater
        } else {
            Ordering::Equal
        }
    }
}

impl PartialEq for LiveRangeKey {
    fn eq(&self, other: &Self) -> (r: bool) {
        self.to > other.from && self.from < other.to
    }
}

impl vstd::std_specs::cmp::PartialEqSpecImpl for LiveRangeKey {
    open spec fn obeys_eq_spec() -> bool {
        true
    }

    open spec fn eq_spec(&self, other: &Self) -> bool {
        self.meets(*other)
    }
}

impl Eq for LiveRangeKey {

}

impl PartialOrd for LiveRangeKey {
    fn partial_cmp(&self, other: &Self) -> (r: Option<Ordering>) {
        Some(LiveRangeKey::cmp(self, other))
    }
}

impl vstd::std_specs::cmp::PartialOrdSpecImpl for LiveRangeKey {
    open spec fn obeys_partial_cmp_spec() -> bool {
        true
    }

    open spec fn partial_cmp_spec(&self, other: &Self) -> Option<Ordering> {
        Some(self.range_ordering(*other))
    }
}

/// An entry of a set of ranges.
pub type RangeEntry = (LiveRangeKey, LiveRangeIndex);

/// The entries are non-empty, in program order, and do not reach into each other.
pub open spec fn entries_disjoint(s: Seq<RangeEntry>) -> bool {
    &&& forall|i: int| 0 <= i < s.len() ==> (#[trigger] s[i]).0.from < s[i].0.to
    &&& forall|i: int, j: int|
        #![trigger s[i], s[j]]
        0 <= i < j < s.len() ==> s[i].0.to <= s[j].0.from
}

/// The first position from `i` on whose entry reaches into `key`; the length if there is none.
pub open spec fn first_overlap(s: Seq<RangeEntry>, key: LiveRangeKey, i: int) -> int
    decreases s.len() - i,
{
    if i >= s.len() || i < 0 {
        s.len() as int
    } else if key.meets(s[i].0) {
        i
    } else {
        first_overlap(s, key, i + 1)
    }
}

/// The position of the entry that reaches into `key`; the length if there is none.
pub open spec fn find_overlap(s: Seq<RangeEntry>, key: LiveRangeKey) -> int {
    first_overlap(s, key, 0)
}

/// The first position from `i` on whose entry does not end before `key` begins.
pub open spec fn first_not_before(s: Seq<RangeEntry>, key: LiveRangeKey, i: int) -> int
    decreases s.len() - i,
{
    if i >= s.len() || i < 0 || s[i].0.to > key.from {
        i
    } else {
        first_not_before(s, key, i + 1)
    }
}

/// The range that is looked up by `key`: one that reaches into it.
pub open spec fn entries_get(s: Seq<RangeEntry>, key: LiveRangeKey) -> Option<LiveRangeIndex> {
    let i = find_overlap(s, key);
    if i < s.len() {
        Some(s[i].1)
    } else {
        None
    }
}

/// The entries after `lr` was put in under `key`. Where an entry reaches into `key` its range is
/// replaced and its key stays.
pub open spec fn entries_insert(
    s: Seq<RangeEntry>,
    key: LiveRangeKey,
    lr: LiveRangeIndex,
) -> Seq<RangeEntry> {
    let i = find_overlap(s, key);
    if i < s.len() {
        s.update(i, (s[i].0, lr))
    } else {
        s.insert(first_not_before(s, key, 0), (key, lr))
    }
}

/// The entries after the one that reaches into `key` was taken out.
pub open spec fn entries_remove(s: Seq<RangeEntry>, key: LiveRangeKey) -> Seq<RangeEntry> {
    let i = find_overlap(s, key);
    if i < s.len() {
        s.remove(i)
    } else {
        s
    }
}

pub proof fn lemma_first_overlap(s: Seq<RangeEntry>, key: LiveRangeKey, i: int)
    requires
        0 <= i <= s.len(),
    ensures
        i <= first_overlap(s, key, i) <= s.len(),
        first_overlap(s, key, i) < s.len() ==> key.meets(s[first_overlap(s, key, i)].0),
        forall|j: int| i <= j < first_overlap(s, key, i) ==> !key.meets(#[trigger] s[j].0),
    decreases s.len() - i,
{
    if i < s.len() && !key.meets(s[i].0) {
        lemma_first_overlap(s, key, i + 1);
    }
}

pub proof fn lemma_first_not_before(s: Seq<RangeEntry>, key: LiveRangeKey, i: int)
    requires
        0 <= i <= s.len(),
    ensures
        i <= first_not_before(s, key, i) <= s.len(),
        first_not_before(s, key, i) < s.len() ==> s[first_not_before(s, key, i)].0.to > key.from,
        forall|j: int| i <= j < first_not_before(s, key, i) ==> (#[trigger] s[j]).0.to <= key.from,
    decreases s.len() - i,
{
    if i < s.len() && s[i].0.to <= key.from {
        lemma_first_not_before(s, key, i + 1);
    }
}

/// In disjoint entries, a position that splits them at the beginning of `key` is the one at
/// which a lookup ends.
pub proof fn lemma_split_position(s: Seq<RangeEntry>, key: LiveRangeKey, p: int)
    requires
        entries_disjoint(s),
        0 <= p <= s.len(),
        forall|j: int| 0 <= j < p ==> (#[trigger] s[j]).0.to <= key.from,
        p < s.len() ==> s[p].0.to > key.from,
    ensures
        first_not_before(s, key, 0) == p,
        find_overlap(s, key) == if p < s.len() && s[p].0.from < key.to {
            p
        } else {
            s.len() as int
        },
{
    lemma_first_not_before(s, key, 0);
    lemma_first_overlap(s, key, 0);
    let q = first_not_before(s, key, 0);
    if q < p {
        assert(s[q].0.to > key.from);
    }
    if p < q {
        assert(s[p].0.to <= key.from);
    }
    let o = find_overlap(s, key);
    if o < s.len() {
        if o < p {
            assert(s[o].0.to <= key.from);
        }
        if o > p {
            assert(s[p].0.to <= s[o].0.from);
            assert(!key.meets(s[p].0));
        }
    }
    if p < s.len() && s[p].0.from < key.to {
        assert(key.meets(s[p].0));
    }
}

/// A set of ranges that do not reach into each other, each with the live range it stands for,
/// looked up by overlap.
#[derive(Debug)]
pub struct LiveRangeSet {
    pub entries: Vec<RangeEntry>,
}

impl LiveRangeSet {
    /// The entries of the set, in program order.
    pub open spec fn view(&self) -> Seq<RangeEntry> {
        self.entries@
    }

    /// The entries are non-empty, in program order, and do not reach into each other.
    pub open spec fn wf(&self) -> bool {
        entries_disjoint(self@)
    }

    /// The empty set.
    pub fn new() -> (r: Self)
        ensures
            r@ == Seq::<RangeEntry>::empty(),
            r.wf(),
    {
        Self { entries: Vec::new() }
    }

    /// The first position whose entry does not end before `key` begins.
    fn position(&self, key: &LiveRangeKey) -> (p: usize)
        requires
            self.wf(),
        ensures
            p <= self@.len(),
            forall|j: int| 0 <= j < p ==> (#[trigger] self@[j]).0.to <= key.from,
            p < self@.len() ==> self@[p as int].0.to > key.from,
    {
        let mut lo: usize = 0;
        let mut hi: usize = self.entries.len();
        while lo < hi
            invariant
                self.wf(),
                lo <= hi <= self@.len(),
                forall|j: int| 0 <= j < lo ==> (#[trigger] self@[j]).0.to <= key.from,
                hi < self@.len() ==> self@[hi as int].0.to > key.from,
            decreases hi - lo,
        {
            let mid: usize = lo + (hi - lo) / 2;
            if self.entries[mid].0.to <= key.from {
                assert forall|j: int| 0 <= j < mid + 1 implies (#[trigger] self@[j]).0.to
                    <= key.from by {
                    if j < mid {
                        assert(self@[j].0.to <= self@[mid as int].0.from);
                    }
                }
                lo = mid + 1;
            } else {
                hi = mid;
            }
        }
        lo
    }

    /// The live range of the entry that reaches into `key`, if there is one.
    pub fn get(&self, key: &LiveRangeKey) -> (r: Option<LiveRangeIndex>)
        requires
            self.wf(),
        ensures
            r == entries_get(self@, *key),
    {
        let p = self.position(key);
        proof {
            lemma_split_position(self@, *key, p as int);
        }
        if p < self.entries.len() && self.entries[p].0.from < key.to {
            Some(self.entries[p].1)
        } else {
            None
        }
    }

    /// Does an entry reach into `key`?
    pub fn contains_key(&self, key: &LiveRangeKey) -> (r: bool)
        requires
            self.wf(),
        ensures
            r == (entries_get(self@, *key) is Some),
    {
        self.get(key).is_some()
    }

    /// Put `lr` in under `key`; where an entry reaches into `key` its live range is replaced and
    /// its key stays.
    pub fn insert(&mut self, key: LiveRangeKey, lr: LiveRangeIndex)
        requires
            old(self).wf(),
            key.from < key.to,
        ensures
            final(self)@ == entries_insert(old(self)@, key, lr),
            final(self).wf(),
    {
        let p = self.position(&key);
        let ghost s = self@;
        proof {
            lemma_split_position(s, key, p as int);
        }
        if p < self.entries.len() && self.entries[p].0.from < key.to {
            let k = self.entries[p].0;
            self.entries.set(p, (k, lr));
        } else {
            self.entries.insert(p, (key, lr));
            proof {
                let t = s.insert(p as int, (key, lr));
                assert forall|i: int, j: int|
                    #![trigger t[i], t[j]]
                    0 <= i < j < t.len() implies t[i].0.to <= t[j].0.from by {
                    let i0 = if i <= p {
                        i
                    } else {
                        i - 1
                    };
                    let j0 = if j <= p {
                        j
                    } else {
                        j - 1
                    };
                    if j == p {
                        assert(s[i].0.to <= key.from);
                    } else if i == p {
                        if j0 > p {
                            assert(s[p as int].0.to <= s[j0].0.from);
                        }
                    } else {
                        assert(t[i] == s[i0] && t[j] == s[j0]);
                        assert(s[i0].0.to <= s[j0].0.from);
                    }
                }
                assert forall|i: int| 0 <= i < t.len() implies (#[trigger] t[i]).0.from
                    <= t[i].0.to by {
                    if i < p {
                        assert(t[i] == s[i]);
                    } else if i > p {
                        assert(t[i] == s[i - 1]);
                    }
                }
            }
        }
    }

    /// Take out the entry that reaches into `key`, if there is one.
    pub fn remove(&mut self, key: &LiveRangeKey)
        requires
            old(self).wf(),
        ensures
            final(self)@ == entries_remove(old(self)@, *key),
            final(self).wf(),
    {
        let p = self.position(key);
        let ghost s = self@;
        proof {
            lemma_split_position(s, *key, p as int);
        }
        if p < self.entries.len() && self.entries[p].0.from < key.to {
            self.entries.remove(p);
            proof {
                let t = s.remove(p as int);
                assert forall|i: int, j: int|
                    #![trigger t[i], t[j]]
                    0 <= i < j < t.len() implies t[i].0.to <= t[j].0.from by {
                    let i0 = if i < p {
                        i
                    } else {
                        i + 1
                    };
                    let j0 = if j < p {
                        j
                    } else {
                        j + 1
                    };
                    assert(t[i] == s[i0] && t[j] == s[j0]);
                    assert(s[i0].0.to <= s[j0].0.from);
                }
            }
        }
    }
}

} // verus!
