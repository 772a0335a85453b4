//! A stable sort by key.
use vstd::prelude::*;

verus! {

/// A value with a number by which it is sorted.
pub trait HasKey: Sized {
    /// The number.
    spec fn key(&self) -> int;
}

/// A value whose number can be computed.
pub trait Keyed: HasKey {
    /// The number.
    fn sort_key(&self) -> (k: u128)
        ensures
            k == self.key(),
    ;
}

/// The first position from `i` on whose key is at least `k`.
pub open spec fn lower_position<T: HasKey>(s: Seq<T>, k: int, i: int) -> int
    decreases s.len() - i,
{
    if i >= s.len() || i < 0 || s[i].key() >= k {
        i
    } else {
        lower_position(s, k, i + 1)
    }
}

/// The items in ascending order of their keys. Items with one key stay in their order.
pub open spec fn stable_sort<T: HasKey>(s: Seq<T>) -> Seq<T>
    decreases s.len(),
{
    if s.len() == 0 {
        s
    } else {
        let t = stable_sort(s.drop_first());
        t.insert(lower_position(t, s[0].key(), 0), s[0])
    }
}

/// The keys are ascending.
pub open spec fn keys_sorted<T: HasKey>(s: Seq<T>) -> bool {
    forall|i: int, j: int| #![trigger s[i], s[j]] 0 <= i < j < s.len() ==> s[i].key() <= s[j].key()
}

pub proof fn lemma_lower_position<T: HasKey>(s: Seq<T>, k: int, i: int)
    requires
        0 <= i <= s.len(),
    ensures
        i <= lower_position(s, k, i) <= s.len(),
        forall|j: int| i <= j < lower_position(s, k, i) ==> (#[trigger] s[j]).key() < k,
        lower_position(s, k, i) < s.len() ==> s[lower_position(s, k, i)].key() >= k,
    decreases s.len() - i,
{
    if i < s.len() && s[i].key() < k {
        lemma_lower_position(s, k, i + 1);
    }
}

/// Sorting yields the same items in ascending order of their keys.
pub proof fn law_stable_sort<T: HasKey>(s: Seq<T>)
    ensures
        keys_sorted(stable_sort(s)),
        stable_sort(s).len() == s.len(),
        stable_sort(s).to_multiset() == s.to_multiset(),
    decreases s.len(),
{
    if s.len() > 0 {
        let r = s.drop_first();
        let t = stable_sort(r);
        law_stable_sort(r);
        let x = s[0];
        lemma_lower_position(t, x.key(), 0);
        let p = lower_position(t, x.key(), 0);
        let u = t.insert(p, x);
        assert forall|i: int, j: int|
            #![trigger u[i], u[j]]
            0 <= i < j < u.len() implies u[i].key() <= u[j].key() by {
            let i0 = if i <= p {
                i
            } else {
                i - 1
            };
            let j0 = if j <= p {
                j
            } else {
                j - 1
            };
            if j == p {
                assert(t[i].key() < x.key());
            } else if i == p {
                if j0 > p {
                    assert(t[p].key() <= t[j0].key());
                }
            } else {
                assert(u[i] == t[i0] && u[j] == t[j0]);
                assert(t[i0].key() <= t[j0].key());
            }
        }
        vstd::seq_lib::to_multiset_insert(t, p, x);
        assert(s =~= r.insert(0, x));
        vstd::seq_lib::to_multiset_insert(r, 0, x);
    }
}

/// Does an item have the key?
pub open spec fn has_key<T: HasKey>(k: int) -> spec_fn(T) -> bool {
    |x: T| x.key() == k
}

/// An item that precedes another one with the same key still precedes it after sorting: what
/// the sorted sequence holds of one key is what the sequence holds of it, in order.
pub proof fn law_sort_is_stable<T: HasKey>(s: Seq<T>, k: int)
    ensures
        stable_sort(s).filter(has_key(k)) == s.filter(has_key(k)),
    decreases s.len(),
{
    let f = has_key::<T>(k);
    if s.len() > 0 {
        let r = s.drop_first();
        let t = stable_sort(r);
        law_sort_is_stable(r, k);
        law_stable_sort(r);
        let x = s[0];
        lemma_lower_position(t, x.key(), 0);
        let p = lower_position(t, x.key(), 0);
        let a = t.subrange(0, p);
        let b = t.subrange(p, t.len() as int);
        assert(t =~= a + b);
        assert(t.insert(p, x) =~= a.push(x) + b);
        assert(s =~= seq![x] + r);
        Seq::filter_distributes_over_add(a, b, f);
        Seq::filter_distributes_over_add(a.push(x), b, f);
        Seq::filter_distributes_over_add(seq![x], r, f);
        reveal_with_fuel(Seq::filter, 2);
        assert(a.push(x).drop_last() =~= a);
        assert(seq![x].drop_last() =~= Seq::<T>::empty());
        if f(x) {
            assert forall|i: int| 0 <= i < a.len() implies !f(#[trigger] a[i]) by {
                assert(a[i] == t[i]);
            }
            lemma_filter_none(a, f);
            assert(t.insert(p, x).filter(f) =~= seq![x] + b.filter(f));
            assert(t.filter(f) =~= b.filter(f));
        } else {
            assert(t.insert(p, x).filter(f) =~= t.filter(f));
            assert(s.filter(f) =~= r.filter(f));
        }
    }
}

pub proof fn lemma_filter_none<T>(s: Seq<T>, f: spec_fn(T) -> bool)
    requires
        forall|i: int| 0 <= i < s.len() ==> !f(#[trigger] s[i]),
    ensures
        s.filter(f) == Seq::<T>::empty(),
    decreases s.len(),
{
    reveal_with_fuel(Seq::filter, 1);
    if s.len() > 0 {
        lemma_filter_none(s.drop_last(), f);
    }
}

/// Only the keys matter to the order: sorting goes through a change of the items that keeps their
/// keys.
pub proof fn lemma_sort_mapped<A: HasKey, B: HasKey>(s: Seq<A>, f: spec_fn(A) -> B)
    requires
        forall|i: int| 0 <= i < s.len() ==> f(#[trigger] s[i]).key() == s[i].key(),
    ensures
        stable_sort(s.map_values(f)) == stable_sort(s).map_values(f),
    decreases s.len(),
{
    let t = s.map_values(f);
    if s.len() > 0 {
        let rest = s.drop_first();
        assert forall|i: int| 0 <= i < rest.len() implies f(#[trigger] rest[i]).key()
            == rest[i].key() by {
            assert(rest[i] == s[i + 1]);
        }
        lemma_sort_mapped(rest, f);
        assert(t.drop_first() =~= rest.map_values(f));
        let u = stable_sort(rest);
        assert forall|i: int| 0 <= i < u.len() implies f(#[trigger] u[i]).key() == u[i].key() by {
            lemma_sorted_member(rest, i);
        }
        lemma_position_mapped(u, f, s[0].key(), 0);
        lemma_lower_position(u, s[0].key(), 0);
        assert(t[0] == f(s[0]));
        assert(stable_sort(t) =~= stable_sort(s).map_values(f));
    } else {
        assert(stable_sort(t) =~= stable_sort(s).map_values(f));
    }
}

proof fn lemma_position_mapped<A: HasKey, B: HasKey>(
    s: Seq<A>,
    f: spec_fn(A) -> B,
    k: int,
    i: int,
)
    requires
        0 <= i <= s.len(),
        forall|j: int| 0 <= j < s.len() ==> f(#[trigger] s[j]).key() == s[j].key(),
    ensures
        lower_position(s.map_values(f), k, i) == lower_position(s, k, i),
    decreases s.len() - i,
{
    if i < s.len() {
        assert(s.map_values(f)[i] == f(s[i]));
        lemma_position_mapped(s, f, k, i + 1);
    }
}

/// Every item is among the sorted ones.
pub proof fn lemma_sorted_has<T: HasKey>(s: Seq<T>, i: int)
    requires
        0 <= i < s.len(),
    ensures
        stable_sort(s).contains(s[i]),
{
    law_stable_sort(s);
    s.to_multiset_ensures();
    stable_sort(s).to_multiset_ensures();
    assert(s.contains(s[i]));
    assert(s.to_multiset().contains(s[i]));
}

/// Every sorted item is one of the items.
pub proof fn lemma_sorted_member<T: HasKey>(s: Seq<T>, k: int)
    requires
        0 <= k < stable_sort(s).len(),
    ensures
        s.contains(stable_sort(s)[k]),
    decreases s.len(),
{
    if s.len() > 0 {
        let rest = s.drop_first();
        let t = stable_sort(rest);
        let p = lower_position(t, s[0].key(), 0);
        lemma_lower_position(t, s[0].key(), 0);
        if k == p {
            assert(stable_sort(s)[k] == s[0]);
        } else {
            let j = if k < p {
                k
            } else {
                k - 1
            };
            lemma_sorted_member(rest, j);
            assert(stable_sort(s)[k] == t[j]);
            let i = choose|i: int| 0 <= i < rest.len() && rest[i] == t[j];
            assert(s[i + 1] == t[j]);
        }
    }
}

/// Sort the items by their keys.
pub fn sort_by_key<T: Keyed>(items: Vec<T>) -> (r: Vec<T>)
    ensures
        r@ == stable_sort(items@),
        keys_sorted(r@),
{
    let ghost s = items@;
    let mut items = items;
    let mut sorted: Vec<T> = Vec::new();
    assert(s.subrange(s.len() as int, s.len() as int) =~= Seq::<T>::empty());
    while items.len() > 0
        invariant
            items@.len() <= s.len(),
            items@ == s.subrange(0, items@.len() as int),
            sorted@ == stable_sort(s.subrange(items@.len() as int, s.len() as int)),
        decreases items@.len(),
    {
        let x = items.pop().unwrap();
        let ghost n = items@.len() as int;
        let ghost rest = s.subrange(n + 1, s.len() as int);
        let ghost all = s.subrange(n, s.len() as int);
        let k = x.sort_key();
        proof {
            law_stable_sort(rest);
            assert(items@ =~= s.subrange(0, n));
            assert(all.drop_first() =~= rest);
            assert(all[0] == x);
        }
        let mut lo: usize = 0;
        let mut hi: usize = sorted.len();
        while lo < hi
            invariant
                keys_sorted(sorted@),
                lo <= hi <= sorted@.len(),
                forall|j: int| 0 <= j < lo ==> (#[trigger] sorted@[j]).key() < k,
                hi < sorted@.len() ==> sorted@[hi as int].key() >= k,
            decreases hi - lo,
        {
            let mid: usize = lo + (hi - lo) / 2;
            if sorted[mid].sort_key() < k {
                assert forall|j: int| 0 <= j < mid + 1 implies (#[trigger] sorted@[j]).key() < k by {
                    if j < mid {
                        assert(sorted@[j].key() <= sorted@[mid as int].key());
                    }
                }
                lo = mid + 1;
            } else {
                hi = mid;
            }
        }
        proof {
            lemma_lower_position(sorted@, k as int, 0);
            let q = lower_position(sorted@, k as int, 0);
            if q < lo {
                assert(sorted@[q].key() < k);
            }
            if lo < q {
                assert(sorted@[lo as int].key() < k);
            }
        }
        sorted.insert(lo, x);
    }
    proof {
        assert(s.subrange(0, s.len() as int) =~= s);
        law_stable_sort(s);
    }
    sorted
}

} // verus!
