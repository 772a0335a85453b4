//! The queue of bundles that wait for a register.
use crate::index::LiveBundleIndex;
use vstd::prelude::*;

verus! {

/// A bundle with its priority.
#[derive(Clone, Copy, Debug, PartialEq, Eq, Structural)]
pub struct PrioQueueEntry {
    pub prio: u32,
    pub bundle: LiveBundleIndex,
}

impl PrioQueueEntry {
    /// Entries are ordered by priority, then by bundle.
    pub open spec fn le(self, other: PrioQueueEntry) -> bool {
        self.prio < other.prio || (self.prio == other.prio && self.bundle.0 <= other.bundle.0)
    }
}

/// The entries are in ascending order.
pub open spec fn queue_sorted(s: Seq<PrioQueueEntry>) -> bool {
    forall|i: int, j: int| #![trigger s[i], s[j]] 0 <= i < j < s.len() ==> s[i].le(s[j])
}

/// The first position from `i` on whose entry is greater than `e`.
pub open spec fn queue_position(s: Seq<PrioQueueEntry>, e: PrioQueueEntry, i: int) -> int
    decreases s.len() - i,
{
    if i >= s.len() || i < 0 || !s[i].le(e) {
        i
    } else {
        queue_position(s, e, i + 1)
    }
}

/// The queue after `e` was put in.
pub open spec fn queue_insert(s: Seq<PrioQueueEntry>, e: PrioQueueEntry) -> Seq<PrioQueueEntry> {
    s.insert(queue_position(s, e, 0), e)
}

pub proof fn lemma_queue_position(s: Seq<PrioQueueEntry>, e: PrioQueueEntry, i: int)
    requires
        0 <= i <= s.len(),
    ensures
        i <= queue_position(s, e, i) <= s.len(),
        forall|j: int| i <= j < queue_position(s, e, i) ==> (#[trigger] s[j]).le(e),
        queue_position(s, e, i) < s.len() ==> !s[queue_position(s, e, i)].le(e),
    decreases s.len() - i,
{
    if i < s.len() && s[i].le(e) {
        lemma_queue_position(s, e, i + 1);
    }
}

/// No entry has a higher priority than the last one, and what is put in has none of a higher priority
/// before it and none of a lower one behind it.
pub proof fn law_queue_by_priority(s: Seq<PrioQueueEntry>, e: PrioQueueEntry, i: int)
    requires
        queue_sorted(s),
        0 <= i < s.len(),
    ensures
        s[i].prio <= s.last().prio,
        ({
            let p = queue_position(s, e, 0);
            &&& 0 <= p <= s.len()
            &&& i < p ==> s[i].prio <= e.prio
            &&& p <= i ==> e.prio <= s[i].prio
        }),
{
    lemma_queue_position(s, e, 0);
    let p = queue_position(s, e, 0);
    if i < s.len() - 1 {
        assert(s[i].le(s[s.len() - 1]));
    }
    if p < i {
        assert(s[p].le(s[i]));
    }
}

/// A greatest entry is taken out first, and putting an entry in changes nothing else.
#[derive(Debug)]
pub struct PrioQueue {
    pub entries: Vec<PrioQueueEntry>,
}

impl PrioQueue {
    /// The entries in ascending order.
    pub open spec fn view(&self) -> Seq<PrioQueueEntry> {
        self.entries@
    }

    /// The entries are in ascending order.
    pub open spec fn wf(&self) -> bool {
        queue_sorted(self@)
    }

    /// The empty queue.
    pub fn new() -> (r: Self)
        ensures
            r@ == Seq::<PrioQueueEntry>::empty(),
            r.wf(),
    {
        PrioQueue { entries: Vec::new() }
    }

    /// Put `bundle` in with the low 32 bits of `prio` as its priority.
    pub fn insert(&mut self, bundle: LiveBundleIndex, prio: usize)
        requires
            old(self).wf(),
        ensures
            final(self)@ == queue_insert(
                old(self)@,
                (PrioQueueEntry { prio: prio as u32, bundle }),
            ),
            final(self).wf(),
            final(self)@.to_multiset() == old(self)@.to_multiset().insert(
                (PrioQueueEntry { prio: prio as u32, bundle }),
            ),
    {
        let e = PrioQueueEntry { prio: prio as u32, bundle };
        let mut lo: usize = 0;
        let mut hi: usize = self.entries.len();
        while lo < hi
            invariant
                self.wf(),
                lo <= hi <= self@.len(),
                forall|j: int| 0 <= j < lo ==> (#[trigger] self@[j]).le(e),
                hi < self@.len() ==> !self@[hi as int].le(e),
            decreases hi - lo,
        {
            let mid: usize = lo + (hi - lo) / 2;
            let m = self.entries[mid];
            if m.prio < e.prio || (m.prio == e.prio && m.bundle.0 <= e.bundle.0) {
                assert forall|j: int| 0 <= j < mid + 1 implies (#[trigger] self@[j]).le(e) by {
                    if j < mid {
                        assert(self@[j].le(self@[mid as int]));
                    }
                }
                lo = mid + 1;
            } else {
                hi = mid;
            }
        }
        let ghost s = self@;
        proof {
            lemma_queue_position(s, e, 0);
            let q = queue_position(s, e, 0);
            if q < lo {
                assert(s[q].le(e));
            }
            if lo < q {
                assert(s[lo as int].le(e));
            }
            s.to_multiset_ensures();
            assert(s.insert(lo as int, e).to_multiset() =~= s.to_multiset().insert(e)) by {
                vstd::seq_lib::to_multiset_insert(s, lo as int, e);
            }
        }
        self.entries.insert(lo, e);
        proof {
            let t = self@;
            assert forall|i: int, j: int|
                #![trigger t[i], t[j]]
                0 <= i < j < t.len() implies t[i].le(t[j]) by {
                let i0 = if i <= lo {
                    i
                } else {
                    i - 1
                };
                let j0 = if j <= lo {
                    j
                } else {
                    j - 1
                };
                if j == lo {
                    assert(s[i].le(e));
                } else if i == lo {
                    if j0 > lo {
                        assert(s[lo as int].le(s[j0]));
                    }
                } else {
                    assert(t[i] == s[i0] && t[j] == s[j0]);
                    assert(s[i0].le(s[j0]));
                }
            }
        }
    }

    /// Does nothing wait?
    pub fn is_empty(self) -> (r: bool)
        ensures
            r == (self@.len() == 0),
    {
        self.entries.is_empty()
    }

    /// The number of entries.
    pub fn len(&self) -> (n: usize)
        ensures
            n == self@.len(),
    {
        self.entries.len()
    }

    /// Take out the bundle of a greatest entry.
    pub fn pop(&mut self) -> (r: Option<LiveBundleIndex>)
        requires
            old(self).wf(),
        ensures
            final(self).wf(),
            old(self)@.len() == 0 ==> r is None && final(self)@ == old(self)@,
            old(self)@.len() > 0 ==> {
                &&& r == Some(old(self)@.last().bundle)
                &&& final(self)@ == old(self)@.drop_last()
                &&& forall|i: int|
                    0 <= i < old(self)@.len() ==> (#[trigger] old(self)@[i]).le(old(self)@.last())
            },
    {
        match self.entries.pop() {
            Some(entry) => Some(entry.bundle),
            None => None,
        }
    }
}

} // verus!
