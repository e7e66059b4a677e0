//! Binary min-heap of (distance, vertex) entries, with counters of its use.

use vstd::prelude::*;
use vstd::multiset::Multiset;

verus! {

/// A heap entry: a vertex and the tentative distance it was entered with.
#[derive(Clone, Copy, Debug, PartialEq, Eq, Structural)]
pub struct HeapItem {
    pub dist: u64,
    pub node: u32,
}

/// Slot `i` holds a distance no larger than slot `c`, where there is a slot `c`.
pub open spec fn le_at(s: Seq<HeapItem>, i: int, c: int) -> bool {
    c < s.len() ==> s[i].dist <= s[c].dist
}

/// Slot `i` holds a distance no larger than its two children.
pub open spec fn child_ok(s: Seq<HeapItem>, i: int) -> bool {
    le_at(s, i, 2 * i + 1) && le_at(s, i, 2 * i + 2)
}

/// Every slot holds a distance no larger than its children's.
pub open spec fn heap_ordered(s: Seq<HeapItem>) -> bool {
    forall|i: int| 0 <= i < s.len() ==> #[trigger] child_ok(s, i)
}

/// What holds of slot `j` while slot `h` may be smaller than its parent.
spec fn above_ok(s: Seq<HeapItem>, j: int, h: int) -> bool {
    &&& 2 * j + 1 != h ==> le_at(s, j, 2 * j + 1)
    &&& 2 * j + 2 != h ==> le_at(s, j, 2 * j + 2)
    &&& (2 * j + 1 == h || 2 * j + 2 == h) ==> le_at(s, j, 2 * h + 1) && le_at(s, j, 2 * h + 2)
}

/// Ordered, but slot `h` may be smaller than its parent.
spec fn ordered_above(s: Seq<HeapItem>, h: int) -> bool {
    forall|j: int| 0 <= j < s.len() ==> #[trigger] above_ok(s, j, h)
}

/// What holds of slot `j` while slot `h` may be larger than its children.
spec fn below_ok(s: Seq<HeapItem>, j: int, h: int) -> bool {
    &&& j != h ==> child_ok(s, j)
    &&& (2 * j + 1 == h || 2 * j + 2 == h) ==> le_at(s, j, 2 * h + 1) && le_at(s, j, 2 * h + 2)
}

/// Ordered, but slot `h` may be larger than its children.
spec fn ordered_below(s: Seq<HeapItem>, h: int) -> bool {
    forall|j: int| 0 <= j < s.len() ==> #[trigger] below_ok(s, j, h)
}

/// The sequence with slots `i` and `j` exchanged.
spec fn swapped(s: Seq<HeapItem>, i: int, j: int) -> Seq<HeapItem> {
    s.update(i, s[j]).update(j, s[i])
}

/// Exchanging two slots keeps the entries.
proof fn lemma_swapped_multiset(s: Seq<HeapItem>, i: int, j: int)
    requires
        0 <= i < s.len(),
        0 <= j < s.len(),
    ensures
        swapped(s, i, j).to_multiset() == s.to_multiset(),
{
    broadcast use vstd::multiset::group_multiset_axioms;

    let s1 = s.update(i, s[j]);
    vstd::seq_lib::to_multiset_update(s, i, s[j]);
    vstd::seq_lib::to_multiset_update(s1, j, s[i]);
    vstd::seq_lib::to_multiset_contains(s, s[i]);
    vstd::seq_lib::to_multiset_contains(s, s[j]);
    assert(s.contains(s[i]));
    assert(s.contains(s[j]));
    assert(swapped(s, i, j).to_multiset() =~= s.to_multiset());
}

/// In an ordered heap no entry is below the root.
pub proof fn lemma_root_is_min(s: Seq<HeapItem>, i: int)
    requires
        heap_ordered(s),
        0 <= i < s.len(),
    ensures
        s[0].dist <= s[i].dist,
    decreases i,
{
    if i > 0 {
        let p = (i - 1) / 2;
        assert(child_ok(s, p));
        lemma_root_is_min(s, p);
    }
}

/// A binary min-heap keyed on distance. It counts the entries pushed and
/// popped and records the largest size it reached.
pub struct MinHeap {
    data: Vec<HeapItem>,
    pushes: u64,
    pops: u64,
    max_size: u64,
}

impl MinHeap {
    /// The entries held, as a multiset.
    pub closed spec fn items(&self) -> Multiset<HeapItem> {
        self.data@.to_multiset()
    }

    /// Number of entries held.
    pub closed spec fn size(&self) -> nat {
        self.data@.len()
    }

    /// Entries pushed so far.
    pub closed spec fn pushed(&self) -> u64 {
        self.pushes
    }

    /// Entries popped so far.
    pub closed spec fn popped(&self) -> u64 {
        self.pops
    }

    /// Largest number of entries held at once so far.
    pub closed spec fn peak(&self) -> u64 {
        self.max_size
    }

    /// The heap order holds and the counters agree with the content.
    pub closed spec fn wf(&self) -> bool {
        &&& heap_ordered(self.data@)
        &&& self.pushes == self.pops + self.data@.len()
        &&& self.data@.len() <= self.max_size <= self.pushes
    }

    /// What `items` and `size` have in common.
    pub proof fn lemma_size(&self)
        ensures
            self.items().len() == self.size(),
            self.size() == 0 <==> self.items() =~= Multiset::empty(),
            self.wf() ==> self.pushed() == self.popped() + self.size(),
            self.wf() ==> self.size() <= self.peak() <= self.pushed(),
    {
        broadcast use vstd::multiset::group_multiset_axioms;

        vstd::seq_lib::to_multiset_len(self.data@);
        if self.size() == 0 {
            assert(self.data@ =~= Seq::empty());
        } else {
            vstd::seq_lib::to_multiset_contains(self.data@, self.data@[0]);
            assert(self.data@.contains(self.data@[0]));
        }
    }

    /// An empty heap with room for `cap` entries.
    pub fn with_cap(cap: usize) -> (h: MinHeap)
        ensures
            h.wf(),
            h.items() =~= Multiset::empty(),
            h.size() == 0,
            h.pushed() == 0,
            h.popped() == 0,
            h.peak() == 0,
    {
        let h = MinHeap { data: Vec::with_capacity(cap), pushes: 0, pops: 0, max_size: 0 };
        proof {
            broadcast use vstd::multiset::group_multiset_axioms;

            vstd::seq_lib::to_multiset_len(h.data@);
            vstd::multiset::lemma_multiset_empty_len(h.data@.to_multiset());
        }
        h
    }

    /// Number of entries held.
    pub fn len(&self) -> (r: usize)
        ensures
            r == self.size(),
    {
        self.data.len()
    }

    /// Entries pushed, entries popped, and the largest size reached.
    pub fn counters(&self) -> (r: (u64, u64, u64))
        ensures
            r.0 == self.pushed(),
            r.1 == self.popped(),
            r.2 == self.peak(),
    {
        (self.pushes, self.pops, self.max_size)
    }

    /// Adds an entry.
    pub fn push(&mut self, item: HeapItem)
        requires
            old(self).wf(),
            old(self).pushed() < u64::MAX,
        ensures
            final(self).wf(),
            final(self).items() == old(self).items().insert(item),
            final(self).size() == old(self).size() + 1,
            final(self).pushed() == old(self).pushed() + 1,
            final(self).popped() == old(self).popped(),
            final(self).peak() == if old(self).peak() > old(self).size() {
                old(self).peak()
            } else {
                (old(self).size() + 1) as u64
            },
    {
        proof {
            vstd::seq_lib::to_multiset_build(self.data@, item);
        }
        self.data.push(item);
        self.pushes = self.pushes + 1;
        let len: usize = self.data.len();
        if len as u64 > self.max_size {
            self.max_size = len as u64;
        }
        assert(ordered_above(self.data@, len - 1)) by {
            assert forall|j: int| 0 <= j < len implies #[trigger] above_ok(
                self.data@,
                j,
                len - 1,
            ) by {
                if j < len - 1 {
                    assert(child_ok(old(self).data@, j));
                }
            }
        }
        self.sift_up(len - 1);
    }

    /// Removes and returns an entry of least distance; `None` where the heap is empty.
    pub fn pop(&mut self) -> (r: Option<HeapItem>)
        requires
            old(self).wf(),
        ensures
            final(self).wf(),
            final(self).pushed() == old(self).pushed(),
            final(self).peak() == old(self).peak(),
            match r {
                None => {
                    &&& old(self).size() == 0
                    &&& final(self).items() == old(self).items()
                    &&& final(self).size() == 0
                    &&& final(self).popped() == old(self).popped()
                },
                Some(x) => {
                    &&& old(self).items().count(x) > 0
                    &&& forall|y: HeapItem| old(self).items().count(y) > 0 ==> x.dist <= y.dist
                    &&& final(self).items() == old(self).items().remove(x)
                    &&& final(self).size() + 1 == old(self).size()
                    &&& final(self).popped() == old(self).popped() + 1
                },
            },
    {
        let len: usize = self.data.len();
        if len == 0 {
            return None;
        }
        let ghost s0 = self.data@;
        let top = self.data[0];
        let last = self.data[len - 1];
        self.data[0] = last;
        self.data.pop();
        self.pops = self.pops + 1;
        proof {
            assert forall|y: HeapItem| s0.to_multiset().count(y) > 0 implies top.dist
                <= y.dist by {
                vstd::seq_lib::to_multiset_contains(s0, y);
                let i = choose|i: int| 0 <= i < s0.len() && s0[i] == y;
                lemma_root_is_min(s0, i);
            }
            vstd::seq_lib::to_multiset_contains(s0, top);
            assert(s0.contains(top));
            let s1 = swapped(s0, 0, len - 1);
            lemma_swapped_multiset(s0, 0, len - 1);
            assert(s1.last() == top);
            assert(self.data@ =~= s1.drop_last());
            assert(s1 =~= self.data@.push(top));
            vstd::seq_lib::to_multiset_build(self.data@, top);
            broadcast use vstd::multiset::group_multiset_axioms;

            assert(self.data@.to_multiset() =~= s0.to_multiset().remove(top));
        }
        if len > 1 {
            assert(ordered_below(self.data@, 0)) by {
                assert forall|j: int| 0 <= j < self.data@.len() implies #[trigger] below_ok(
                    self.data@,
                    j,
                    0,
                ) by {
                    assert(child_ok(s0, j));
                }
            }
            self.sift_down(0);
        } else {
            assert(heap_ordered(self.data@));
        }
        Some(top)
    }

    fn sift_up(&mut self, idx: usize)
        requires
            idx < old(self).data@.len(),
            ordered_above(old(self).data@, idx as int),
        ensures
            heap_ordered(final(self).data@),
            final(self).data@.to_multiset() == old(self).data@.to_multiset(),
            final(self).data@.len() == old(self).data@.len(),
            final(self).pushes == old(self).pushes,
            final(self).pops == old(self).pops,
            final(self).max_size == old(self).max_size,
    {
        let mut i: usize = idx;
        while i > 0
            invariant
                i < self.data@.len(),
                ordered_above(self.data@, i as int),
                self.data@.to_multiset() == old(self).data@.to_multiset(),
                self.data@.len() == old(self).data@.len(),
                self.pushes == old(self).pushes,
                self.pops == old(self).pops,
                self.max_size == old(self).max_size,
            decreases i,
        {
            let p: usize = (i - 1) / 2;
            let a = self.data[i];
            let b = self.data[p];
            if a.dist < b.dist {
                let ghost s = self.data@;
                self.data[i] = b;
                self.data[p] = a;
                proof {
                    assert(self.data@ =~= swapped(s, i as int, p as int));
                    lemma_swapped_multiset(s, i as int, p as int);
                    let t = self.data@;
                    assert(above_ok(s, p as int, i as int));
                    assert forall|j: int| 0 <= j < t.len() implies #[trigger] above_ok(
                        t,
                        j,
                        p as int,
                    ) by {
                        assert(above_ok(s, j, i as int));
                    }
                }
                i = p;
            } else {
                proof {
                    let t = self.data@;
                    assert forall|j: int| 0 <= j < t.len() implies #[trigger] child_ok(t, j) by {
                        assert(above_ok(t, j, i as int));
                    }
                }
                return ;
            }
        }
        proof {
            let t = self.data@;
            assert forall|j: int| 0 <= j < t.len() implies #[trigger] child_ok(t, j) by {
                assert(above_ok(t, j, 0));
            }
        }
    }

    fn sift_down(&mut self, idx: usize)
        requires
            idx < old(self).data@.len(),
            ordered_below(old(self).data@, idx as int),
        ensures
            heap_ordered(final(self).data@),
            final(self).data@.to_multiset() == old(self).data@.to_multiset(),
            final(self).data@.len() == old(self).data@.len(),
            final(self).pushes == old(self).pushes,
            final(self).pops == old(self).pops,
            final(self).max_size == old(self).max_size,
    {
        let n: usize = self.data.len();
        let mut i: usize = idx;
        while i < n / 2
            invariant
                i < n,
                n == self.data@.len(),
                ordered_below(self.data@, i as int),
                self.data@.to_multiset() == old(self).data@.to_multiset(),
                self.data@.len() == old(self).data@.len(),
                self.pushes == old(self).pushes,
                self.pops == old(self).pops,
                self.max_size == old(self).max_size,
            decreases n - i,
        {
            let left: usize = i * 2 + 1;
            let right: usize = left + 1;
            let mut best: usize = left;
            if right < n && self.data[right].dist < self.data[left].dist {
                best = right;
            }
            let a = self.data[i];
            let b = self.data[best];
            if b.dist < a.dist {
                let ghost s = self.data@;
                self.data[i] = b;
                self.data[best] = a;
                proof {
                    assert(self.data@ =~= swapped(s, i as int, best as int));
                    lemma_swapped_multiset(s, i as int, best as int);
                    let t = self.data@;
                    assert(below_ok(s, best as int, i as int));
                    assert forall|j: int| 0 <= j < t.len() implies #[trigger] below_ok(
                        t,
                        j,
                        best as int,
                    ) by {
                        assert(below_ok(s, j, i as int));
                    }
                }
                i = best;
            } else {
                proof {
                    let t = self.data@;
                    assert forall|j: int| 0 <= j < t.len() implies #[trigger] child_ok(t, j) by {
                        assert(below_ok(t, j, i as int));
                    }
                }
                return ;
            }
        }
        proof {
            let t = self.data@;
            assert forall|j: int| 0 <= j < t.len() implies #[trigger] child_ok(t, j) by {
                assert(below_ok(t, j, i as int));
            }
        }
    }
}

} // verus!
