//! Families of singly linked lists over one table of nodes.
use vstd::prelude::*;

verus! {

/// The end of a list.
pub const NIL: u32 = u32::MAX;

/// The node at position `i` of a list, or the end.
pub open spec fn node_at(list: Seq<u32>, i: int) -> u32 {
    if 0 <= i < list.len() {
        list[i]
    } else {
        NIL
    }
}

/// Numbered lists of numbered nodes. A node is in at most one list, and at one position of it.
/// Each list keeps its first and its last node, and each node the one that follows it.
pub struct ListFamily {
    first: Vec<u32>,
    last: Vec<u32>,
    next: Vec<u32>,
    lists: Ghost<Seq<Seq<u32>>>,
}

/// No node occurs twice, and every node is below `nodes`.
#[verifier::opaque]
pub open spec fn lists_ok(lists: Seq<Seq<u32>>, nodes: int) -> bool {
    &&& forall|l: int, i: int|
        0 <= l < lists.len() && 0 <= i < lists[l].len() ==> (#[trigger] lists[l][i]) < nodes
    &&& forall|l: int, i: int, m: int, j: int|
        #![trigger lists[l][i], lists[m][j]]
        0 <= l < lists.len() && 0 <= i < lists[l].len() && 0 <= m < lists.len() && 0 <= j
            < lists[m].len() && lists[l][i] == lists[m][j] ==> l == m && i == j
}

/// The link of the node at position `i` leads to the node after it.
spec fn link_ok(next: Seq<u32>, s: Seq<u32>, i: int) -> bool {
    next[s[i] as int] == node_at(s, i + 1)
}

/// Is the node in none of the lists?
pub open spec fn is_free(lists: Seq<Seq<u32>>, n: u32) -> bool {
    forall|l: int, i: int|
        0 <= l < lists.len() && 0 <= i < lists[l].len() ==> (#[trigger] lists[l][i]) != n
}

pub proof fn lemma_below(lists: Seq<Seq<u32>>, nodes: int, l: int, i: int)
    requires
        lists_ok(lists, nodes),
        0 <= l < lists.len(),
        0 <= i < lists[l].len(),
    ensures
        lists[l][i] < nodes,
{
    reveal(lists_ok);
}

pub proof fn lemma_distinct(lists: Seq<Seq<u32>>, nodes: int, l: int, i: int, m: int, j: int)
    requires
        lists_ok(lists, nodes),
        0 <= l < lists.len(),
        0 <= i < lists[l].len(),
        0 <= m < lists.len(),
        0 <= j < lists[m].len(),
        lists[l][i] == lists[m][j],
    ensures
        l == m,
        i == j,
{
    reveal(lists_ok);
}

pub proof fn lemma_neq(lists: Seq<Seq<u32>>, nodes: int, l: int, i: int, m: int, j: int)
    requires
        lists_ok(lists, nodes),
        0 <= l < lists.len(),
        0 <= i < lists[l].len(),
        0 <= m < lists.len(),
        0 <= j < lists[m].len(),
        l != m || i != j,
    ensures
        lists[l][i] != lists[m][j],
{
    reveal(lists_ok);
}

pub proof fn lemma_insert_ok(a: Seq<Seq<u32>>, nodes: int, l: int, i: int, n: u32)
    requires
        lists_ok(a, nodes),
        0 <= l < a.len(),
        0 <= i <= a[l].len(),
        n < nodes,
        is_free(a, n),
    ensures
        lists_ok(a.update(l, a[l].insert(i, n)), nodes),
{
    reveal(lists_ok);
    let b = a.update(l, a[l].insert(i, n));
    assert forall|m: int, j: int| 0 <= m < b.len() && 0 <= j < b[m].len() implies (
    #[trigger] b[m][j]) < nodes by {
        let j0 = if m != l || j < i {
            j
        } else {
            j - 1
        };
        if !(m == l && j == i) {
            assert(b[m][j] == a[m][j0]);
        }
    }
    assert forall|m: int, j: int, o: int, k: int|
        #![trigger b[m][j], b[o][k]]
        0 <= m < b.len() && 0 <= j < b[m].len() && 0 <= o < b.len() && 0 <= k < b[o].len()
            && b[m][j] == b[o][k] implies m == o && j == k by {
        let j0 = if m != l || j < i {
            j
        } else {
            j - 1
        };
        let k0 = if o != l || k < i {
            k
        } else {
            k - 1
        };
        if m == l && j == i {
            if !(o == l && k == i) {
                assert(b[o][k] == a[o][k0]);
            }
        } else if o == l && k == i {
            assert(b[m][j] == a[m][j0]);
        } else {
            assert(b[m][j] == a[m][j0]);
            assert(b[o][k] == a[o][k0]);
        }
    }
}

pub proof fn lemma_remove_ok(a: Seq<Seq<u32>>, nodes: int, l: int, i: int)
    requires
        lists_ok(a, nodes),
        0 <= l < a.len(),
        0 <= i < a[l].len(),
    ensures
        lists_ok(a.update(l, a[l].remove(i)), nodes),
        is_free(a.update(l, a[l].remove(i)), a[l][i]),
{
    reveal(lists_ok);
    let b = a.update(l, a[l].remove(i));
    assert forall|m: int, j: int| 0 <= m < b.len() && 0 <= j < b[m].len() implies (
    #[trigger] b[m][j]) < nodes && b[m][j] != a[l][i] by {
        let j0 = if m != l || j < i {
            j
        } else {
            j + 1
        };
        assert(b[m][j] == a[m][j0]);
    }
    assert forall|m: int, j: int, o: int, k: int|
        #![trigger b[m][j], b[o][k]]
        0 <= m < b.len() && 0 <= j < b[m].len() && 0 <= o < b.len() && 0 <= k < b[o].len()
            && b[m][j] == b[o][k] implies m == o && j == k by {
        let j0 = if m != l || j < i {
            j
        } else {
            j + 1
        };
        let k0 = if o != l || k < i {
            k
        } else {
            k + 1
        };
        assert(b[m][j] == a[m][j0]);
        assert(b[o][k] == a[o][k0]);
    }
}

pub proof fn lemma_split_ok(a: Seq<Seq<u32>>, nodes: int, l: int, i: int, into: int)
    requires
        lists_ok(a, nodes),
        0 <= l < a.len(),
        0 <= into < a.len(),
        l != into,
        a[into].len() == 0,
        0 <= i <= a[l].len(),
    ensures
        lists_ok(a.update(l, a[l].take(i)).update(into, a[l].skip(i)), nodes),
{
    reveal(lists_ok);
    let b = a.update(l, a[l].take(i)).update(into, a[l].skip(i));
    assert forall|m: int, j: int| 0 <= m < b.len() && 0 <= j < b[m].len() implies (
    #[trigger] b[m][j]) < nodes by {
        if m == into {
            assert(b[m][j] == a[l][j + i]);
        } else {
            assert(b[m][j] == a[m][j]);
        }
    }
    assert forall|m: int, j: int, o: int, k: int|
        #![trigger b[m][j], b[o][k]]
        0 <= m < b.len() && 0 <= j < b[m].len() && 0 <= o < b.len() && 0 <= k < b[o].len()
            && b[m][j] == b[o][k] implies m == o && j == k by {
        let (m0, j0) = if m == into {
            (l, j + i)
        } else {
            (m, j)
        };
        let (o0, k0) = if o == into {
            (l, k + i)
        } else {
            (o, k)
        };
        assert(b[m][j] == a[m0][j0]);
        assert(b[o][k] == a[o0][k0]);
    }
}

impl ListFamily {
    /// The nodes of each list.
    pub closed spec fn view(&self) -> Seq<Seq<u32>> {
        self.lists@
    }

    /// The number of nodes.
    pub closed spec fn nodes(&self) -> nat {
        self.next@.len()
    }

    /// The links of list `l` follow its nodes.
    spec fn linked(&self, l: int) -> bool {
        let s = self.lists@[l];
        &&& self.first@[l] == node_at(s, 0)
        &&& self.last@[l] == node_at(s, s.len() - 1)
        &&& forall|i: int| 0 <= i < s.len() ==> #[trigger] link_ok(self.next@, s, i)
    }

    /// The links follow the nodes of the lists.
    pub closed spec fn wf(&self) -> bool {
        &&& self.first@.len() == self.lists@.len()
        &&& self.last@.len() == self.lists@.len()
        &&& self.next@.len() < u32::MAX
        &&& lists_ok(self.lists@, self.next@.len() as int)
        &&& forall|l: int| 0 <= l < self.lists@.len() ==> #[trigger] self.linked(l)
    }

    /// No node occurs twice.
    pub proof fn lemma_ok(&self)
        requires
            self.wf(),
        ensures
            lists_ok(self@, self.nodes() as int),
            self.nodes() < u32::MAX,
    {
    }

    /// No list and no node.
    pub fn new() -> (r: Self)
        ensures
            r.wf(),
            r@ == Seq::<Seq<u32>>::empty(),
            r.nodes() == 0,
    {
        proof {
            reveal(lists_ok);
        }
        ListFamily { first: Vec::new(), last: Vec::new(), next: Vec::new(), lists: Ghost(Seq::empty()) }
    }

    /// Append an empty list.
    pub fn add_list(&mut self)
        requires
            old(self).wf(),
        ensures
            final(self).wf(),
            final(self)@ == old(self)@.push(Seq::empty()),
            final(self).nodes() == old(self).nodes(),
    {
        let ghost s0 = *self;
        self.first.push(NIL);
        self.last.push(NIL);
        self.lists = Ghost(self.lists@.push(Seq::empty()));
        proof {
            reveal(lists_ok);
            assert forall|l: int| 0 <= l < self.lists@.len() implies #[trigger] self.linked(l) by {
                if l < s0.lists@.len() {
                    assert(s0.linked(l));
                }
            }
        }
    }

    /// Append a node that is in no list.
    pub fn add_node(&mut self)
        requires
            old(self).wf(),
            old(self).nodes() + 1 < u32::MAX,
        ensures
            final(self).wf(),
            final(self)@ == old(self)@,
            final(self).nodes() == old(self).nodes() + 1,
            is_free(final(self)@, old(self).nodes() as u32),
    {
        let ghost s0 = *self;
        self.next.push(NIL);
        proof {
            reveal(lists_ok);
            assert forall|l: int| 0 <= l < self.lists@.len() implies #[trigger] self.linked(l) by {
                assert(s0.linked(l));
                let s = s0.lists@[l];
                assert forall|i: int| 0 <= i < s.len() implies #[trigger] link_ok(
                    self.next@,
                    s,
                    i,
                ) by {
                    assert(link_ok(s0.next@, s, i));
                    lemma_below(s0.lists@, s0.next@.len() as int, l, i);
                }
            }
        }
    }

    /// The number of lists.
    pub fn len(&self) -> (n: usize)
        requires
            self.wf(),
        ensures
            n == self@.len(),
    {
        self.first.len()
    }

    /// The first node of a list, or the end.
    pub fn first(&self, l: usize) -> (n: u32)
        requires
            self.wf(),
            l < self@.len(),
        ensures
            n == node_at(self@[l as int], 0),
            n == NIL <==> self@[l as int].len() == 0,
            n != NIL ==> n < self.nodes(),
    {
        assert(self.linked(l as int));
        proof {
            if self@[l as int].len() > 0 {
                lemma_below(self.lists@, self.next@.len() as int, l as int, 0);
            }
        }
        self.first[l]
    }

    /// The last node of a list, or the end.
    pub fn last(&self, l: usize) -> (n: u32)
        requires
            self.wf(),
            l < self@.len(),
        ensures
            n == node_at(self@[l as int], self@[l as int].len() - 1),
            n == NIL <==> self@[l as int].len() == 0,
            n != NIL ==> n < self.nodes(),
    {
        assert(self.linked(l as int));
        proof {
            if self@[l as int].len() > 0 {
                lemma_below(
                    self.lists@,
                    self.next@.len() as int,
                    l as int,
                    self.lists@[l as int].len() - 1,
                );
            }
        }
        self.last[l]
    }

    /// The node after `n`, which stands at position `i` of list `l`, or the end.
    pub fn next(&self, n: u32, Ghost(l): Ghost<int>, Ghost(i): Ghost<int>) -> (r: u32)
        requires
            self.wf(),
            0 <= l < self@.len(),
            0 <= i < self@[l].len(),
            self@[l][i] == n,
        ensures
            r == node_at(self@[l], i + 1),
            r == NIL <==> i + 1 == self@[l].len(),
            r != NIL ==> r < self.nodes(),
    {
        assert(self.linked(l));
        proof {
            lemma_below(self.lists@, self.next@.len() as int, l, i);
            if i + 1 < self@[l].len() {
                lemma_below(self.lists@, self.next@.len() as int, l, i + 1);
            }
        }
        assert(link_ok(self.next@, self.lists@[l], i));
        self.next[n as usize]
    }

    /// Put the free node `n` into list `l` at position `i`, after node `prev` or, where `prev` is
    /// the end, at the front.
    pub fn insert_after(&mut self, l: usize, prev: u32, n: u32, Ghost(i): Ghost<int>)
        requires
            old(self).wf(),
            l < old(self)@.len(),
            0 <= i <= old(self)@[l as int].len(),
            prev == node_at(old(self)@[l as int], i - 1),
            n < old(self).nodes(),
            is_free(old(self)@, n),
        ensures
            final(self).wf(),
            final(self)@ == old(self)@.update(l as int, old(self)@[l as int].insert(i, n)),
            final(self).nodes() == old(self).nodes(),
    {
        let ghost s0 = *self;
        let ghost s = s0.lists@[l as int];
        let ghost t = s.insert(i, n);
        proof {
            assert(self.linked(l as int));
            if i > 0 {
                lemma_below(s0.lists@, s0.next@.len() as int, l as int, i - 1);
            }
        }
        proof {
            if i > 0 {
                assert(link_ok(s0.next@, s, i - 1));
            }
        }
        let follow: u32 = if prev != NIL {
            self.next[prev as usize]
        } else {
            self.first[l]
        };
        assert(follow == node_at(s, i));
        self.next.set(n as usize, follow);
        if prev != NIL {
            self.next.set(prev as usize, n);
        } else {
            self.first.set(l, n);
        }
        if follow == NIL {
            self.last.set(l, n);
        }
        proof {
            if i < s.len() {
                lemma_below(s0.lists@, s0.next@.len() as int, l as int, i);
            }
        }
        self.lists = Ghost(self.lists@.update(l as int, t));
        proof {
            let a = s0.lists@;
            let b = self.lists@;
            lemma_insert_ok(a, s0.next@.len() as int, l as int, i, n);
            assert forall|m: int| 0 <= m < b.len() implies #[trigger] self.linked(m) by {
                assert(s0.linked(m));
                if m == l {
                    assert forall|j: int| 0 <= j < t.len() implies #[trigger] link_ok(
                        self.next@,
                        t,
                        j,
                    ) by {
                        if j < i {
                            lemma_below(a, s0.next@.len() as int, m, j);
assert(t[j] == a[m][j]);
                            assert(link_ok(s0.next@, s, j));
                            if j < i - 1 {
                                lemma_neq(a, s0.next@.len() as int, m, j, m, i - 1);
                                assert(t[j + 1] == s[j + 1]);
                            } else {
                                assert(prev == s[j]);
                            }
                            assert(t[j] != n);
                        } else if j == i {
                            if prev != NIL {
                                assert(a[m][i - 1] != n);
                            }
                            if i < s.len() {
                                assert(t[i + 1] == s[i]);
                            }
                        } else {
                            lemma_below(a, s0.next@.len() as int, m, j - 1);
assert(t[j] == a[m][j - 1]);
                            assert(link_ok(s0.next@, s, j - 1));
                            if i > 0 {
                                lemma_neq(a, s0.next@.len() as int, m, j - 1, m, i - 1);
                            }
                            assert(t[j] != n);
                            if j + 1 < t.len() {
                                assert(t[j + 1] == s[j]);
                            }
                        }
                    }
                    if i < s.len() {
                        assert(t[t.len() - 1] == s[s.len() - 1]);
                    }
                } else {
                    let u = a[m];
                    assert forall|j: int| 0 <= j < u.len() implies #[trigger] link_ok(
                        self.next@,
                        u,
                        j,
                    ) by {
                        assert(link_ok(s0.next@, u, j));
                        lemma_below(a, s0.next@.len() as int, m, j);
                        assert(a[m][j] != n);
                        if i > 0 {
                            lemma_neq(a, s0.next@.len() as int, m, j, l as int, i - 1);
                        }
                    }
                }
            }
        }
    }

    /// Take the node at position `i` out of list `l`: the one after node `prev` or, where `prev`
    /// is the end, the first one.
    pub fn remove_after(&mut self, l: usize, prev: u32, Ghost(i): Ghost<int>) -> (n: u32)
        requires
            old(self).wf(),
            l < old(self)@.len(),
            0 <= i < old(self)@[l as int].len(),
            prev == node_at(old(self)@[l as int], i - 1),
        ensures
            final(self).wf(),
            n == old(self)@[l as int][i],
            n < old(self).nodes(),
            final(self)@ == old(self)@.update(l as int, old(self)@[l as int].remove(i)),
            final(self).nodes() == old(self).nodes(),
            is_free(final(self)@, n),
    {
        let ghost s0 = *self;
        let ghost s = s0.lists@[l as int];
        let ghost t = s.remove(i);
        proof {
            assert(self.linked(l as int));
            if i > 0 {
                lemma_below(s0.lists@, s0.next@.len() as int, l as int, i - 1);
            }
            lemma_below(s0.lists@, s0.next@.len() as int, l as int, i);
        }
        proof {
            if i > 0 {
                assert(link_ok(s0.next@, s, i - 1));
            }
            assert(link_ok(s0.next@, s, i));
        }
        let n: u32 = if prev != NIL {
            self.next[prev as usize]
        } else {
            self.first[l]
        };
        assert(n == s[i]);
        let follow: u32 = self.next[n as usize];
        if prev != NIL {
            self.next.set(prev as usize, follow);
        } else {
            self.first.set(l, follow);
        }
        if follow == NIL {
            self.last.set(l, prev);
        }
        proof {
            if i + 1 < s.len() {
                lemma_below(s0.lists@, s0.next@.len() as int, l as int, i + 1);
            }
        }
        self.lists = Ghost(self.lists@.update(l as int, t));
        proof {
            let a = s0.lists@;
            let b = self.lists@;
            lemma_remove_ok(a, s0.next@.len() as int, l as int, i);
            assert forall|m: int| 0 <= m < b.len() implies #[trigger] self.linked(m) by {
                assert(s0.linked(m));
                if m == l {
                    assert forall|j: int| 0 <= j < t.len() implies #[trigger] link_ok(
                        self.next@,
                        t,
                        j,
                    ) by {
                        if j < i {
                            lemma_below(a, s0.next@.len() as int, m, j);
assert(t[j] == a[m][j]);
                            assert(link_ok(s0.next@, s, j));
                            if j < i - 1 {
                                lemma_neq(a, s0.next@.len() as int, m, j, m, i - 1);
                                assert(t[j + 1] == s[j + 1]);
                            } else {
                                assert(prev == s[j]);
                                assert(link_ok(s0.next@, s, i));
                                if i < t.len() {
                                    assert(t[i] == s[i + 1]);
                                }
                            }
                        } else {
                            lemma_below(a, s0.next@.len() as int, m, j + 1);
assert(t[j] == a[m][j + 1]);
                            assert(link_ok(s0.next@, s, j + 1));
                            if i > 0 {
                                lemma_neq(a, s0.next@.len() as int, m, j + 1, m, i - 1);
                            }
                            if j + 1 < t.len() {
                                assert(t[j + 1] == s[j + 2]);
                            }
                        }
                    }
                    assert(link_ok(s0.next@, s, i));
                    if i + 1 < s.len() {
                        assert(t[t.len() - 1] == s[s.len() - 1]);
                        assert(t[i] == s[i + 1]);
                    } else if i > 0 {
                        assert(t[t.len() - 1] == s[i - 1]);
                    }
                    if i > 0 {
                        assert(t[0] == s[0]);
                    }
                } else {
                    let u = a[m];
                    assert forall|j: int| 0 <= j < u.len() implies #[trigger] link_ok(
                        self.next@,
                        u,
                        j,
                    ) by {
                        assert(link_ok(s0.next@, u, j));
                        lemma_below(a, s0.next@.len() as int, m, j);
                        if i > 0 {
                            lemma_neq(a, s0.next@.len() as int, m, j, l as int, i - 1);
                        }
                    }
                }
            }
        }
        n
    }

    /// Move the nodes after `prev`, which stands at position `i - 1` of list `l`, to the empty
    /// list `into`. Where `prev` is the end, all nodes are moved.
    pub fn split_after(&mut self, l: usize, prev: u32, into: usize, Ghost(i): Ghost<int>)
        requires
            old(self).wf(),
            l < old(self)@.len(),
            into < old(self)@.len(),
            l != into,
            old(self)@[into as int].len() == 0,
            0 <= i <= old(self)@[l as int].len(),
            prev == node_at(old(self)@[l as int], i - 1),
        ensures
            final(self).wf(),
            final(self)@ == old(self)@.update(l as int, old(self)@[l as int].take(i)).update(
                into as int,
                old(self)@[l as int].skip(i),
            ),
            final(self).nodes() == old(self).nodes(),
    {
        let ghost s0 = *self;
        let ghost s = s0.lists@[l as int];
        let ghost t = s.take(i);
        let ghost u = s.skip(i);
        proof {
            assert(self.linked(l as int));
            assert(self.linked(into as int));
            if i > 0 {
                lemma_below(s0.lists@, s0.next@.len() as int, l as int, i - 1);
            }
            if i < s.len() {
                lemma_below(s0.lists@, s0.next@.len() as int, l as int, i);
            }
        }
        proof {
            if i > 0 {
                assert(link_ok(s0.next@, s, i - 1));
            }
        }
        let follow: u32 = if prev != NIL {
            self.next[prev as usize]
        } else {
            self.first[l]
        };
        assert(follow == node_at(s, i));
        if follow != NIL {
            let tail = self.last[l];
            self.first.set(into, follow);
            self.last.set(into, tail);
            self.last.set(l, prev);
            if prev != NIL {
                self.next.set(prev as usize, NIL);
            } else {
                self.first.set(l, NIL);
            }
        }
        self.lists = Ghost(self.lists@.update(l as int, t).update(into as int, u));
        proof {
            let a = s0.lists@;
            let b = self.lists@;
            lemma_split_ok(a, s0.next@.len() as int, l as int, i, into as int);
            assert forall|m: int| 0 <= m < b.len() implies #[trigger] self.linked(m) by {
                assert(s0.linked(m));
                if m == l {
                    assert forall|j: int| 0 <= j < t.len() implies #[trigger] link_ok(
                        self.next@,
                        t,
                        j,
                    ) by {
                        lemma_below(a, s0.next@.len() as int, m, j);
assert(t[j] == a[m][j]);
                        assert(link_ok(s0.next@, s, j));
                        if i > 0 && j < i - 1 {
                            lemma_neq(a, s0.next@.len() as int, m, j, m, i - 1);
                        }
                    }
                } else if m == into {
                    assert forall|j: int| 0 <= j < u.len() implies #[trigger] link_ok(
                        self.next@,
                        u,
                        j,
                    ) by {
                        lemma_below(a, s0.next@.len() as int, l as int, j + i);
assert(u[j] == a[l as int][j + i]);
                        assert(link_ok(s0.next@, s, j + i));
                        if i > 0 {
                            lemma_neq(a, s0.next@.len() as int, l as int, j + i, l as int, i - 1);
                        }
                    }
                } else {
                    let v = a[m];
                    assert forall|j: int| 0 <= j < v.len() implies #[trigger] link_ok(
                        self.next@,
                        v,
                        j,
                    ) by {
                        assert(link_ok(s0.next@, v, j));
                        lemma_below(a, s0.next@.len() as int, m, j);
                        if i > 0 {
                            lemma_neq(a, s0.next@.len() as int, m, j, l as int, i - 1);
                        }
                    }
                }
            }
        }
    }
}

} // verus!
