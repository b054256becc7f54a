//! An array-backed binary min-heap over [`Vertex`] values, ordered by their
//! `value` field. The heap may be bounded: pushing into a full bounded heap
//! first evicts the current minimum.

use crate::graph::Vertex;
use vstd::prelude::*;

verus! {

/// Slot of the parent of heap slot `i`.
pub open spec fn heap_parent(i: int) -> int {
    (i - 1) / 2
}

/// `j` lies on the path from slot `i` up to the root: the only slots
/// sift-up may move.
pub open spec fn on_heap_path_up(j: int, i: int) -> bool
    decreases i,
{
    j == i || (0 < i && on_heap_path_up(j, heap_parent(i)))
}

/// The sequence satisfies the binary min-heap ordering: no slot holds a
/// smaller value than its parent's.
pub open spec fn is_min_heap(s: Seq<Vertex>) -> bool {
    forall|i: int| 1 <= i < s.len() ==> s[heap_parent(i)].value <= #[trigger] s[i].value
}

/// Min-heap ordering everywhere except possibly on the edge from `i`'s
/// parent down to `i`; in exchange, `i`'s children are bounded below by
/// `i`'s parent. This is the state sift-up repairs.
spec fn heap_except_up(s: Seq<Vertex>, i: int) -> bool {
    &&& forall|j: int|
        1 <= j < s.len() && j != i ==> s[heap_parent(j)].value <= #[trigger] s[j].value
    &&& (0 < i ==> forall|j: int|
        1 <= j < s.len() && heap_parent(j) == i ==> s[heap_parent(i)].value
            <= #[trigger] s[j].value)
}

/// Min-heap ordering everywhere except possibly on the edges from `r` down
/// to its children; in exchange, those children are bounded below by `r`'s
/// parent. This is the state sift-down repairs.
spec fn heap_except_down(s: Seq<Vertex>, r: int) -> bool {
    &&& forall|j: int|
        1 <= j < s.len() && heap_parent(j) != r ==> s[heap_parent(j)].value
            <= #[trigger] s[j].value
    &&& (0 < r ==> forall|j: int|
        1 <= j < s.len() && heap_parent(j) == r ==> s[heap_parent(r)].value
            <= #[trigger] s[j].value)
}

/// In a min-heap, the root holds a minimal value.
pub proof fn lemma_heap_root_min(s: Seq<Vertex>, i: int)
    requires
        is_min_heap(s),
        0 <= i < s.len(),
    ensures
        s[0].value <= s[i].value,
    decreases i,
{
    if i > 0 {
        assert(0 <= heap_parent(i) < i);
        lemma_heap_root_min(s, heap_parent(i));
    }
}

/// Swapping two slots of a sequence leaves its multiset of elements
/// unchanged.
proof fn lemma_swap_multiset(s: Seq<Vertex>, i: int, j: int)
    requires
        0 <= i < s.len(),
        0 <= j < s.len(),
        i != j,
    ensures
        s.update(i, s[j]).update(j, s[i]).to_multiset() == s.to_multiset(),
{
    broadcast use vstd::seq_lib::to_multiset_update;
    broadcast use vstd::seq_lib::to_multiset_contains;
    broadcast use vstd::multiset::group_multiset_axioms;

    let s1 = s.update(i, s[j]);
    let s2 = s1.update(j, s[i]);
    assert(s.contains(s[i]));
    assert(s1.to_multiset() == s.to_multiset().insert(s[j]).remove(s[i]));
    assert(s1[j] == s[j]);
    assert(s2.to_multiset() == s1.to_multiset().insert(s[i]).remove(s[j]));
    assert(s2.to_multiset() =~= s.to_multiset());
}

/// A bounded or unbounded binary min-heap. Its view is the sequence of
/// live elements: the backing vector may be longer, the slots past the
/// live prefix are dead storage.
pub struct PriorityQueue {
    data: Vec<Vertex>,
    size: usize,
    maxsize: Option<usize>,
}

impl View for PriorityQueue {
    type V = Seq<Vertex>;

    closed spec fn view(&self) -> Seq<Vertex> {
        self.data@.subrange(0, self.size as int)
    }
}

impl PriorityQueue {
    /// The bound on the number of live elements, if one was set.
    pub closed spec fn max_size(&self) -> Option<usize> {
        self.maxsize
    }

    /// Well-formedness: the live prefix lies inside the backing vector and
    /// satisfies the min-heap ordering.
    pub closed spec fn wf(&self) -> bool {
        &&& self.size <= self.data@.len()
        &&& is_min_heap(self@)
    }

    /// True when a bound is set and the number of live elements has
    /// reached it, so that the next push evicts first.
    pub open spec fn at_capacity(&self) -> bool {
        match self.max_size() {
            Some(m) => self@.len() == m,
            None => false,
        }
    }

    /// The number of live elements.
    pub fn len(&self) -> (n: usize)
        requires
            self.wf(),
        ensures
            n == self@.len(),
    {
        self.size
    }

    /// A copy of the live elements, in backing-array order.
    pub fn entries(&self) -> (v: Vec<Vertex>)
        requires
            self.wf(),
        ensures
            v@ == self@,
    {
        let mut v: Vec<Vertex> = Vec::new();
        let mut i: usize = 0;
        while i < self.size
            invariant
                self.wf(),
                i <= self.size,
                v@ == self@.subrange(0, i as int),
            decreases self.size - i,
        {
            v.push(self.data[i]);
            i = i + 1;
            proof {
                assert(v@ =~= self@.subrange(0, i as int));
            }
        }
        proof {
            assert(v@ =~= self@);
        }
        v
    }

    /// Restores the min-heap ordering by sifting slot `i` up towards the
    /// root, swapping it with its parent while it is the smaller of the
    /// two.
    #[verifier::rlimit(50)]
    fn _heapify_up(&mut self, i: usize)
        requires
            old(self).size <= old(self).data@.len(),
            i < old(self).size,
            heap_except_up(old(self)@, i as int),
        ensures
            final(self).size == old(self).size,
            final(self).maxsize == old(self).maxsize,
            final(self).data@.len() == old(self).data@.len(),
            is_min_heap(final(self)@),
            final(self)@.to_multiset() == old(self)@.to_multiset(),
            // locality: only slots on the path from `i` to the root move,
            // and the dead slots past the live prefix are untouched
            forall|j: int|
                0 <= j < old(self).size && !on_heap_path_up(j, i as int) ==> final(self).data@[j]
                    == old(self).data@[j],
            forall|j: int|
                old(self).size <= j < old(self).data@.len() ==> final(self).data@[j]
                    == old(self).data@[j],
        decreases i,
    {
        if i == 0 {
            assert(is_min_heap(self@));
            return;
        }
        let parent: usize = (i - 1) / 2;
        assert(parent == heap_parent(i as int));
        assert(parent < i);
        if self.data[parent].value > self.data[i].value {
            let ghost s = self@;
            let a = self.data[parent];
            let b = self.data[i];
            self.data[parent] = b;
            self.data[i] = a;
            proof {
                assert(self@ =~= s.update(parent as int, s[i as int]).update(
                    i as int,
                    s[parent as int],
                ));
                lemma_swap_multiset(s, parent as int, i as int);
                assert(heap_except_up(self@, parent as int)) by {
                    let t = self@;
                    assert forall|j: int|
                        1 <= j < t.len() && j != parent implies t[heap_parent(j)].value
                            <= #[trigger] t[j].value by {
                        {
                            if j == i {
                                assert(t[heap_parent(j)].value <= t[j].value);
                            } else if heap_parent(j) == i {
                                // j is a child of i; the old grandparent bound
                                // gives s[parent] <= s[j].
                                assert(s[heap_parent(i as int)].value <= s[j].value);
                                assert(t[heap_parent(j)].value <= t[j].value);
                            } else if heap_parent(j) == parent {
                                // j is i's sibling: s[parent] <= s[j] held, and
                                // the new occupant of parent is smaller still.
                                assert(s[heap_parent(j)].value <= s[j].value);
                                assert(t[heap_parent(j)].value <= t[j].value);
                            } else {
                                assert(t[heap_parent(j)].value <= t[j].value);
                            }
                        }
                    }
                    if 0 < parent {
                        assert forall|j: int|
                            1 <= j < t.len() && heap_parent(j) == parent implies t[heap_parent(
                                parent as int,
                            )].value <= #[trigger] t[j].value by {
                            {
                                assert(s[heap_parent(parent as int)].value
                                    <= s[parent as int].value);
                                if j == i {
                                    assert(t[j] == s[parent as int]);
                                } else {
                                    assert(s[parent as int].value <= s[j].value);
                                }
                            }
                        }
                    }
                }
            }
            let ghost mid = self.data@;
            self._heapify_up(parent);
            proof {
                assert forall|j: int|
                    0 <= j < old(self).size && !on_heap_path_up(j, i as int) implies self.data@[j]
                    == old(self).data@[j] by {
                    assert(!on_heap_path_up(j, parent as int));
                    assert(on_heap_path_up(parent as int, parent as int));
                    assert(j != i && j != parent);
                    assert(self.data@[j] == mid[j]);
                    assert(mid[j] == old(self).data@[j]);
                }
                assert forall|j: int|
                    old(self).size <= j < old(self).data@.len() implies self.data@[j]
                    == old(self).data@[j] by {
                    assert(self.data@[j] == mid[j]);
                    assert(mid[j] == old(self).data@[j]);
                }
            }
        } else {
            assert(is_min_heap(self@)) by {
                let t = self@;
                assert forall|j: int| 1 <= j < t.len() implies t[heap_parent(j)].value
                    <= #[trigger] t[j].value by {
                    if j != i {
                        assert(t[heap_parent(j)].value <= t[j].value);
                    }
                }
            }
        }
    }

    /// Restores the min-heap ordering by sifting slot `root` down towards
    /// the leaves, swapping it with its smallest child while a child is
    /// smaller.
    #[verifier::rlimit(50)]
    fn _heapify_down(&mut self, root: usize)
        requires
            old(self).size <= old(self).data@.len(),
            root < old(self).size,
            heap_except_down(old(self)@, root as int),
        ensures
            final(self).size == old(self).size,
            final(self).maxsize == old(self).maxsize,
            final(self).data@.len() == old(self).data@.len(),
            is_min_heap(final(self)@),
            final(self)@.to_multiset() == old(self)@.to_multiset(),
            // locality: sift-down works inside the live prefix, the dead
            // slots past it are untouched
            forall|j: int|
                old(self).size <= j < old(self).data@.len() ==> final(self).data@[j]
                    == old(self).data@[j],
        decreases old(self).size - root,
    {
        let mut min: usize = root;
        // The left child 2*root+1 exists exactly when root < size / 2, and
        // the right child 2*root+2 exactly when root < (size - 1) / 2;
        // testing the slot first keeps the index arithmetic in bounds.
        if root < self.size / 2 {
            let left = 2 * root + 1;
            if self.data[left].value < self.data[min].value {
                min = left;
            }
        }
        if root < (self.size - 1) / 2 {
            let right = 2 * root + 2;
            if self.data[right].value < self.data[min].value {
                min = right;
            }
        }
        if min != root {
            let ghost s = self@;
            let a = self.data[root];
            let b = self.data[min];
            self.data[root] = b;
            self.data[min] = a;
            proof {
                assert(self@ =~= s.update(root as int, s[min as int]).update(
                    min as int,
                    s[root as int],
                ));
                lemma_swap_multiset(s, root as int, min as int);
                assert(heap_parent(min as int) == root as int);
                assert(heap_except_down(self@, min as int)) by {
                    let t = self@;
                    assert forall|j: int|
                        1 <= j < t.len() && heap_parent(j) != min implies t[heap_parent(j)].value
                            <= #[trigger] t[j].value by {
                        {
                            if j == root {
                                // root > 0 here, since heap_parent(root) != min
                                // and j >= 1; the grandparent bound applies.
                                assert(s[heap_parent(root as int)].value <= s[min as int].value);
                            } else if j == min {
                                assert(t[heap_parent(j)] == s[min as int]);
                                assert(s[min as int].value < s[root as int].value);
                            } else if heap_parent(j) == root {
                                // j is the sibling of min under root.
                                assert(s[min as int].value <= s[j].value);
                            } else {
                                assert(s[heap_parent(j)].value <= s[j].value);
                            }
                        }
                    }
                    assert forall|j: int|
                        1 <= j < t.len() && heap_parent(j) == min implies t[heap_parent(
                            min as int,
                        )].value <= #[trigger] t[j].value by {
                        {
                            assert(s[heap_parent(j)].value <= s[j].value);
                            assert(t[j] == s[j]);
                            assert(t[heap_parent(min as int)] == s[min as int]);
                        }
                    }
                }
            }
            let ghost mid = self.data@;
            self._heapify_down(min);
            proof {
                assert forall|j: int|
                    old(self).size <= j < old(self).data@.len() implies self.data@[j]
                    == old(self).data@[j] by {
                    assert(self.data@[j] == mid[j]);
                    assert(mid[j] == old(self).data@[j]);
                }
            }
        } else {
            assert(is_min_heap(self@)) by {
                let t = self@;
                assert forall|j: int| 1 <= j < t.len() implies t[heap_parent(j)].value
                    <= #[trigger] t[j].value by {
                    if heap_parent(j) == root {
                        assert(j == 2 * root + 1 || j == 2 * root + 2);
                    }
                }
            }
        }
    }

    /// Inserts `val`. If a bound is set and the heap is full, the current
    /// minimum is evicted first, so the number of live elements never
    /// grows past the bound (except for the degenerate bound 0, which
    /// still admits the fresh element).
    #[verifier::rlimit(100)]
    #[verifier::spinoff_prover]
    pub fn push(&mut self, val: Vertex)
        requires
            old(self).wf(),
        ensures
            final(self).wf(),
            final(self).max_size() == old(self).max_size(),
            !old(self).at_capacity() ==> {
                &&& final(self)@.to_multiset() == old(self)@.to_multiset().insert(val)
                &&& final(self)@.len() == old(self)@.len() + 1
            },
            old(self).at_capacity() && old(self)@.len() > 0 ==> {
                &&& final(self)@.to_multiset() == old(self)@.to_multiset().remove(
                    old(self)@[0],
                ).insert(val)
                &&& final(self)@.len() == old(self)@.len()
                &&& forall|x: Vertex|
                    old(self)@.to_multiset().count(x) > 0 ==> old(self)@[0].value <= x.value
            },
            old(self).at_capacity() && old(self)@.len() == 0 ==> {
                &&& final(self)@.to_multiset() == old(self)@.to_multiset().insert(val)
                &&& final(self)@.len() == 1
            },
            // A bounded heap never grows past its bound (except for the
            // degenerate bound 0, where there is nothing to evict).
            (match old(self).max_size() {
                Some(m) => old(self)@.len() <= m && m > 0 ==> final(self)@.len() <= m,
                None => true,
            }),
    {
        broadcast use vstd::seq_lib::to_multiset_build;

        if self.maxsize.is_some() && self.size == self.maxsize.unwrap() {
            self.pop();
        }
        let ghost mid = self@;
        let i = self.size;
        if i < self.data.len() {
            self.data[i] = val;
            self.size = i + 1;
        } else {
            self.data.push(val);
            self.size = self.data.len();
        }
        proof {
            assert(self@ =~= mid.push(val));
            assert(heap_except_up(self@, i as int)) by {
                let t = self@;
                assert forall|j: int|
                    1 <= j < t.len() && j != i implies t[heap_parent(j)].value
                        <= #[trigger] t[j].value by {
                    {
                        assert(t[j] == mid[j] && t[heap_parent(j)] == mid[heap_parent(j)]);
                        assert(is_min_heap(mid));
                    }
                }
                assert forall|j: int| 1 <= j < t.len() && heap_parent(j) == i implies false by {
                    assert(j >= 2 * i + 1);
                }
            }
        }
        self._heapify_up(i);
    }

    /// Removes and returns the minimum, or `None` on an empty heap, which
    /// callers use as their loop-termination signal. The last live element
    /// moves into the vacated root slot and sifts down.
    pub fn pop(&mut self) -> (r: Option<Vertex>)
        requires
            old(self).wf(),
        ensures
            final(self).wf(),
            final(self).max_size() == old(self).max_size(),
            match r {
                None => old(self)@.len() == 0 && *final(self) == *old(self),
                Some(v) => {
                    &&& old(self)@.len() > 0
                    &&& v == old(self)@[0]
                    &&& forall|x: Vertex|
                        old(self)@.to_multiset().count(x) > 0 ==> v.value <= x.value
                    &&& final(self)@.to_multiset() == old(self)@.to_multiset().remove(v)
                    &&& final(self)@.len() == old(self)@.len() - 1
                },
            },
    {
        broadcast use vstd::seq_lib::to_multiset_remove;

        if self.size == 0 {
            return None;
        }
        proof {
            let s = self@;
            assert forall|x: Vertex| s.to_multiset().count(x) > 0 implies s[0].value
                <= x.value by {
                broadcast use vstd::seq_lib::to_multiset_contains;

                assert(s.contains(x));
                let k = choose|k: int| 0 <= k < s.len() && s[k] == x;
                lemma_heap_root_min(s, k);
            }
        }
        let ghost s = self@;
        let top = self.data[0];
        let last_index = self.size - 1;
        let last = self.data[last_index];
        self.data[0] = last;
        self.data[last_index] = top;
        self.size = last_index;
        proof {
            // The new live prefix is the old one with the last element
            // moved to the root and the tail dropped.
            if last_index == 0 {
                assert(self@ =~= s.remove(0));
            } else {
                let swapped = s.update(0, s[last_index as int]).update(last_index as int, s[0]);
                assert(self@ =~= swapped.remove(last_index as int));
                lemma_swap_multiset(s, 0, last_index as int);
                assert(swapped[last_index as int] == s[0]);
                assert(self@.to_multiset() == s.to_multiset().remove(s[0]));
            }
            assert(self@.to_multiset() == s.to_multiset().remove(s[0]));
        }
        if self.size > 0 {
            proof {
                assert(heap_except_down(self@, 0)) by {
                    let t = self@;
                    assert forall|j: int|
                        1 <= j < t.len() && heap_parent(j) != 0 implies t[heap_parent(j)].value
                            <= #[trigger] t[j].value by {
                        {
                            assert(t[j] == s[j] && t[heap_parent(j)] == s[heap_parent(j)]);
                        }
                    }
                }
            }
            self._heapify_down(0);
        }
        Some(top)
    }
}

/// Starts a heap from the given backing elements (dead storage: the
/// logical size starts at 0 in either case) and the given bound.
pub fn build_priority_queue(data: Option<Vec<Vertex>>, maxsize: Option<usize>) -> (q:
    PriorityQueue)
    ensures
        q.wf(),
        q@ == Seq::<Vertex>::empty(),
        q.max_size() == maxsize,
{
    let q = match data {
        Some(x) => PriorityQueue { data: x, size: 0, maxsize },
        None => PriorityQueue { data: Vec::new(), size: 0, maxsize },
    };
    proof {
        assert(q@ =~= Seq::<Vertex>::empty());
    }
    q
}

} // verus!
