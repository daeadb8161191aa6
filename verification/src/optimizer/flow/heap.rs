use vstd::multiset::Multiset;
use vstd::prelude::*;

verus! {

broadcast use {
    vstd::seq_lib::group_to_multiset_ensures,
    vstd::multiset::group_multiset_axioms,
    vstd::seq_lib::to_multiset_update,
};

/// An entry of the queue: a distance and the node it belongs to.
pub type Entry = (i64, usize);

/// Entries are ordered by distance, and by node where distances agree.
pub open spec fn entry_le(a: Entry, b: Entry) -> bool {
    a.0 < b.0 || (a.0 == b.0 && a.1 <= b.1)
}

/// Index of the parent of slot `k` in the implicit binary tree.
pub open spec fn parent(k: int) -> int {
    (k - 1) / 2
}

/// Slot `k` is not smaller than its parent.
pub open spec fn ordered_at(s: Seq<Entry>, k: int) -> bool {
    k >= 1 ==> entry_le(s[parent(k)], s[k])
}

/// Every slot is not smaller than its parent.
pub open spec fn heap_ordered(s: Seq<Entry>) -> bool {
    forall|k: int| 0 <= k < s.len() ==> #[trigger] ordered_at(s, k)
}

/// In an ordered heap the root is a least entry.
pub proof fn lemma_root_least(s: Seq<Entry>, k: int)
    requires
        heap_ordered(s),
        0 <= k < s.len(),
    ensures
        entry_le(s[0], s[k]),
    decreases k,
{
    if k > 0 {
        assert(ordered_at(s, k));
        lemma_root_least(s, parent(k));
    }
}

fn entry_less(a: Entry, b: Entry) -> (r: bool)
    ensures
        r == !entry_le(b, a),
{
    a.0 < b.0 || (a.0 == b.0 && a.1 < b.1)
}

/// A priority queue of entries that hands out a least entry first.
pub struct MinHeap {
    items: Vec<Entry>,
}

impl MinHeap {
    /// The entries in the queue, with their multiplicities.
    pub closed spec fn content(&self) -> Multiset<Entry> {
        self.items@.to_multiset()
    }

    /// The representation invariant: the slots are heap ordered.
    pub closed spec fn wf(&self) -> bool {
        heap_ordered(self.items@)
    }

    /// An empty queue.
    pub fn new() -> (h: Self)
        ensures
            h.wf(),
            h.content() == Multiset::<Entry>::empty(),
    {
        let h = MinHeap { items: Vec::new() };
        assert(h.items@.to_multiset() =~= Multiset::<Entry>::empty());
        h
    }

    /// Number of entries in the queue.
    pub fn len(&self) -> (n: usize)
        ensures
            n == self.content().len(),
    {
        self.items.len()
    }

    fn swap(&mut self, i: usize, j: usize)
        requires
            i < old(self).items@.len(),
            j < old(self).items@.len(),
        ensures
            final(self).items@ == old(self).items@.update(i as int, old(self).items@[j as int]).update(
                j as int,
                old(self).items@[i as int],
            ),
            final(self).items@.len() == old(self).items@.len(),
            final(self).content() == old(self).content(),
    {
        let ghost s = self.items@;
        let a = self.items[i];
        let b = self.items[j];
        self.items[i] = b;
        self.items[j] = a;
        proof {
            let s1 = s.update(i as int, b);
            assert(self.items@ == s1.update(j as int, a));
            assert(s1.to_multiset() == s.to_multiset().insert(b).remove(a));
            assert(s1.update(j as int, a).to_multiset() == s1.to_multiset().insert(a).remove(
                s1[j as int],
            ));
            assert(self.items@.to_multiset() =~= s.to_multiset());
        }
    }

    /// Adds an entry.
    pub fn push(&mut self, x: Entry)
        requires
            old(self).wf(),
        ensures
            final(self).wf(),
            final(self).content() == old(self).content().insert(x),
    {
        let ghost s0 = self.items@;
        self.items.push(x);
        let mut i: usize = self.items.len() - 1;
        proof {
            assert forall|k: int| 0 <= k < self.items@.len() && k != i implies #[trigger] ordered_at(
                self.items@,
                k,
            ) by {
                assert(ordered_at(s0, k));
            }
        }
        while i > 0
            invariant
                i < self.items@.len(),
                self.items@.to_multiset() == s0.to_multiset().insert(x),
                forall|k: int|
                    0 <= k < self.items@.len() && k != i ==> #[trigger] ordered_at(self.items@, k),
                forall|c: int|
                    1 <= c < self.items@.len() && parent(c) == i && i >= 1 ==> entry_le(
                        self.items@[parent(i as int)],
                        #[trigger] self.items@[c],
                    ),
            ensures
                heap_ordered(self.items@),
                self.items@.to_multiset() == s0.to_multiset().insert(x),
            decreases i,
        {
            let p = (i - 1) / 2;
            if entry_less(self.items[i], self.items[p]) {
                let ghost s = self.items@;
                self.swap(i, p);
                proof {
                    let t = self.items@;
                    assert(ordered_at(s, p as int));
                    assert forall|k: int| 0 <= k < t.len() && k != p implies #[trigger] ordered_at(
                        t,
                        k,
                    ) by {
                        if k == i {
                        } else if k >= 1 && parent(k) == p {
                            assert(ordered_at(s, k));
                        } else if k >= 1 && parent(k) == i {
                            assert(entry_le(s[parent(i as int)], s[k]));
                        } else {
                            assert(ordered_at(s, k));
                        }
                    }
                    assert forall|c: int| 1 <= c < t.len() && parent(c) == p && p >= 1 implies entry_le(
                        t[parent(p as int)],
                        #[trigger] t[c],
                    ) by {
                        if c != i {
                            assert(ordered_at(s, c));
                        }
                    }
                }
                i = p;
            } else {
                proof {
                    assert forall|k: int| 0 <= k < self.items@.len() implies #[trigger] ordered_at(
                        self.items@,
                        k,
                    ) by {
                    }
                }
                break ;
            }
        }
    }

    /// Removes and returns a least entry, or `None` when the queue is empty.
    pub fn pop(&mut self) -> (r: Option<Entry>)
        requires
            old(self).wf(),
        ensures
            final(self).wf(),
            match r {
                Some(m) => {
                    &&& old(self).content().count(m) > 0
                    &&& final(self).content() == old(self).content().remove(m)
                    &&& forall|y: Entry| old(self).content().count(y) > 0 ==> entry_le(m, y)
                },
                None => old(self).content().len() == 0 && final(self).content() == old(
                    self,
                ).content(),
            },
    {
        let ghost s0 = self.items@;
        let len0 = self.items.len();
        if len0 == 0 {
            return None;
        }
        let top = self.items[0];
        proof {
            assert forall|y: Entry| s0.to_multiset().count(y) > 0 implies entry_le(top, y) by {
                assert(s0.contains(y));
                let k = choose|k: int| 0 <= k < s0.len() && s0[k] == y;
                lemma_root_least(s0, k);
            }
            assert(s0.contains(top));
        }
        self.swap(0, len0 - 1);
        let ghost s1 = self.items@;
        let last = self.items.pop();
        proof {
            assert(self.items@ =~= s1.remove(len0 - 1));
            assert(s1[len0 - 1] == top);
            assert forall|k: int| 0 <= k < self.items@.len() && k >= 1 && parent(k) != 0
                implies #[trigger] ordered_at(self.items@, k) by {
                assert(ordered_at(s0, k));
            }
        }
        let n = self.items.len();
        let mut i: usize = 0;
        loop
            invariant
                n == self.items@.len(),
                n < usize::MAX,
                i <= n,
                self.items@.to_multiset() == s0.to_multiset().remove(top),
                forall|k: int|
                    1 <= k < n && parent(k) != i ==> #[trigger] ordered_at(self.items@, k),
                forall|c: int|
                    1 <= c < n && parent(c) == i && i >= 1 ==> entry_le(
                        self.items@[parent(i as int)],
                        #[trigger] self.items@[c],
                    ),
            ensures
                heap_ordered(self.items@),
                self.items@.to_multiset() == s0.to_multiset().remove(top),
            decreases n - i,
        {
            if i >= n / 2 {
                proof {
                    assert forall|k: int| 0 <= k < n implies #[trigger] ordered_at(self.items@, k) by {
                        if k >= 1 && parent(k) == i {
                            assert(2 * i + 1 >= n);
                        }
                    }
                }
                break ;
            }
            let l = 2 * i + 1;
            let mut m = l;
            if l + 1 < n && entry_less(self.items[l + 1], self.items[l]) {
                m = l + 1;
            }
            if entry_less(self.items[m], self.items[i]) {
                let ghost s = self.items@;
                self.swap(i, m);
                proof {
                    let t = self.items@;
                    assert forall|k: int| 1 <= k < n && parent(k) != m implies #[trigger] ordered_at(
                        t,
                        k,
                    ) by {
                        if parent(k) == i {
                            assert(k == l || k == l + 1);
                        } else if k == i {
                            assert(entry_le(s[parent(i as int)], s[m as int]));
                        } else {
                            assert(ordered_at(s, k));
                        }
                    }
                    assert forall|c: int| 1 <= c < n && parent(c) == m && m >= 1 implies entry_le(
                        t[parent(m as int)],
                        #[trigger] t[c],
                    ) by {
                        assert(ordered_at(s, c));
                    }
                }
                i = m;
            } else {
                proof {
                    assert forall|k: int| 0 <= k < n implies #[trigger] ordered_at(self.items@, k) by {
                        if k >= 1 && parent(k) == i {
                            assert(k == l || k == l + 1);
                        }
                    }
                }
                break ;
            }
        }
        Some(top)
    }
}

} // verus!
