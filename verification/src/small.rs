//! Short sequences of 32-bit numbers, kept inline while they are short.
use vstd::prelude::*;

verus! {

/// A short sequence of 32-bit numbers, held in a `smallvec::SmallVec`.
#[verifier::external_body]
pub struct IndexVec {
    items: smallvec::SmallVec<[u32; 4]>,
}

/// The numbers that the sequence holds, in order.
pub uninterp spec fn small_items(v: IndexVec) -> Seq<u32>;

impl View for IndexVec {
    type V = Seq<u32>;

    open spec fn view(&self) -> Seq<u32> {
        small_items(*self)
    }
}

/// `smallvec::SmallVec::new`: a vector that holds nothing.
#[verifier::external_body]
pub(crate) fn small_new() -> (v: IndexVec)
    ensures
        small_items(v) == Seq::<u32>::empty(),
{
    IndexVec { items: smallvec::SmallVec::new() }
}

/// `smallvec::SmallVec::from_elem`: a vector that holds `n` times `x`.
#[verifier::external_body]
pub(crate) fn small_from_elem(x: u32, n: usize) -> (v: IndexVec)
    requires
        n <= 0x1fff_ffff,
    ensures
        small_items(v) == Seq::<u32>::new(n as nat, |i: int| x),
{
    IndexVec { items: smallvec::SmallVec::from_elem(x, n) }
}

/// `smallvec::SmallVec::push`: the item is appended.
#[verifier::external_body]
pub(crate) fn small_push(v: &mut IndexVec, x: u32)
    ensures
        small_items(*final(v)) == small_items(*old(v)).push(x),
{
    v.items.push(x);
}

/// `smallvec::SmallVec::clear`: nothing is held any more.
#[verifier::external_body]
pub(crate) fn small_clear(v: &mut IndexVec)
    ensures
        small_items(*final(v)) == Seq::<u32>::empty(),
{
    v.items.clear();
}

/// `smallvec::SmallVec::len`: the number of items.
#[verifier::external_body]
pub(crate) fn small_len(v: &IndexVec) -> (n: usize)
    ensures
        n == small_items(*v).len(),
{
    v.items.len()
}

/// `smallvec::SmallVec::index`: the item at a position within the length.
#[verifier::external_body]
pub(crate) fn small_get(v: &IndexVec, i: usize) -> (x: u32)
    requires
        i < small_items(*v).len(),
    ensures
        x == small_items(*v)[i as int],
{
    v.items[i]
}

/// `smallvec::SmallVec::index_mut`: the item at a position within the length is replaced.
#[verifier::external_body]
pub(crate) fn small_set(v: &mut IndexVec, i: usize, x: u32)
    requires
        i < small_items(*old(v)).len(),
    ensures
        small_items(*final(v)) == small_items(*old(v)).update(i as int, x),
{
    v.items[i] = x;
}

} // verus!
