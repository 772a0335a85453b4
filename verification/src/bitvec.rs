//! Sets of small numbers.
use vstd::prelude::*;

verus! {

/// A set of small numbers, one bit each. It grows as numbers are put in.
#[derive(Debug)]
pub struct BitVec {
    bits: Vec<bool>,
}

impl View for BitVec {
    type V = Set<int>;

    closed spec fn view(&self) -> Set<int> {
        Set::new(|i: int| 0 <= i < self.bits@.len() && self.bits@[i])
    }
}

impl BitVec {
    /// The empty set.
    pub fn new() -> (r: Self)
        ensures
            r@ == Set::<int>::empty(),
    {
        let r = BitVec { bits: Vec::new() };
        assert(r@ =~= Set::<int>::empty());
        r
    }

    /// Put `idx` in, or take it out.
    pub fn set(&mut self, idx: usize, val: bool)
        ensures
            val ==> final(self)@ == old(self)@.insert(idx as int),
            !val ==> final(self)@ == old(self)@.remove(idx as int),
    {
        let ghost before = self@;
        while val && self.bits.len() <= idx
            invariant
                self@ == before,
            ensures
                val ==> idx < self.bits@.len(),
            decreases idx + 1 - self.bits@.len(),
        {
            self.bits.push(false);
            assert(self@ =~= before);
        }
        if idx < self.bits.len() {
            self.bits.set(idx, val);
        }
        proof {
            if val {
                assert(self@ =~= before.insert(idx as int));
            } else {
                assert(self@ =~= before.remove(idx as int));
            }
        }
    }

    /// Is `idx` in the set?
    pub fn get(&self, idx: usize) -> (r: bool)
        ensures
            r == self@.contains(idx as int),
    {
        idx < self.bits.len() && self.bits[idx]
    }

    /// Put in all that `other` holds.
    pub fn or(&mut self, other: &Self)
        ensures
            final(self)@ == old(self)@.union(other@),
    {
        let ghost before = self@;
        let mut i: usize = 0;
        while i < other.bits.len()
            invariant
                i <= other.bits@.len(),
                forall|j: int| #[trigger]
                    self@.contains(j) <==> before.contains(j) || (j < i && other@.contains(j)),
            decreases other.bits@.len() - i,
        {
            if other.bits[i] {
                assert(other@.contains(i as int));
                self.set(i, true);
            } else {
                assert(!other@.contains(i as int));
            }
            i += 1;
        }
        assert(self@ =~= before.union(other@));
    }
}

} // verus!
