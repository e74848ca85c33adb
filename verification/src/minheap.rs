//! An indexed binary min-heap over the slots `0..bound`: each slot is in the
//! heap at most once, with an integer key, and a key can be lowered in place.

use vstd::prelude::*;

verus! {

/// The parent of heap position `i`.
pub open spec fn up(i: int) -> int {
    (i - 1) / 2
}

/// An indexed binary min-heap: `heap` lists the slots in heap order, `pos`
/// gives each slot's place in `heap` (`None` when absent), and `key` holds
/// each slot's key.
pub struct IndexedMinHeap {
    heap: Vec<usize>,
    pos: Vec<Option<usize>>,
    key: Vec<u64>,
}

impl IndexedMinHeap {
    /// The slots in the heap, each with its key.
    pub closed spec fn view(&self) -> Seq<Option<u64>> {
        Seq::new(self.pos@.len(), |x: int| if self.pos@[x] is Some { Some(self.key@[x]) } else { None })
    }

    /// The keys of heap positions `a` and `b` are in heap order.
    spec fn ordered(&self, a: int, b: int) -> bool {
        self.key@[self.heap@[a] as int] <= self.key@[self.heap@[b] as int]
    }

    /// `heap` and `pos` agree, and every slot lies below the bound.
    spec fn indexed(&self) -> bool {
        &&& self.key@.len() == self.pos@.len()
        &&& forall|i: int| 0 <= i < self.heap@.len() ==> (#[trigger] self.heap@[i]) < self.pos@.len()
            && self.pos@[self.heap@[i] as int] is Some && self.pos@[self.heap@[i] as int].unwrap() == i
        &&& forall|x: int| 0 <= x < self.pos@.len() && (#[trigger] self.pos@[x]) is Some
            ==> self.pos@[x].unwrap() < self.heap@.len() && self.heap@[self.pos@[x].unwrap() as int] == x
    }

    /// Every position but the root holds a key no smaller than its parent's.
    spec fn heap_ordered(&self) -> bool {
        forall|i: int| 0 < i < self.heap@.len() ==> #[trigger] self.ordered(up(i), i)
    }

    /// Well-formedness.
    pub closed spec fn wf(&self) -> bool {
        self.indexed() && self.heap_ordered()
    }

    /// The number of slots.
    pub closed spec fn bound(&self) -> nat {
        self.pos@.len()
    }

    /// An empty heap over `bound` slots.
    pub fn new(bound: usize) -> (h: Self)
        ensures
            h.wf(),
            h@.len() == bound,
            forall|x: int| 0 <= x < bound ==> #[trigger] h@[x] is None,
    {
        let mut pos: Vec<Option<usize>> = Vec::new();
        let mut key: Vec<u64> = Vec::new();
        while pos.len() < bound
            invariant
                pos@.len() <= bound,
                key@.len() == pos@.len(),
                forall|x: int| 0 <= x < pos@.len() ==> #[trigger] pos@[x] is None,
            decreases bound - pos@.len(),
        {
            pos.push(None);
            key.push(0);
        }
        let h = IndexedMinHeap { heap: Vec::new(), pos, key };
        assert(h@.len() == bound);
        h
    }

    /// Whether `node` is in the heap.
    pub fn contains(&self, node: usize) -> (b: bool)
        requires
            self.wf(),
            node < self@.len(),
        ensures
            b == self@[node as int] is Some,
    {
        self.pos[node].is_some()
    }

    /// Exchanges the entries at heap positions `i` and `j`.
    fn swap(&mut self, i: usize, j: usize)
        requires
            old(self).indexed(),
            i < old(self).heap@.len(),
            j < old(self).heap@.len(),
        ensures
            final(self).indexed(),
            final(self).key@ == old(self).key@,
            final(self).heap@ == old(self).heap@.update(i as int, old(self).heap@[j as int])
                .update(j as int, old(self).heap@[i as int]),
            forall|x: int| 0 <= x < final(self).pos@.len() ==> ((#[trigger] final(self).pos@[x]) is Some
                <==> old(self).pos@[x] is Some),
            final(self).pos@.len() == old(self).pos@.len(),
            final(self)@ == old(self)@,
    {
        let hi = self.heap[i];
        let hj = self.heap[j];
        self.heap.set(i, hj);
        self.heap.set(j, hi);
        self.pos.set(hj, Some(i));
        self.pos.set(hi, Some(j));
        proof {
            assert forall|x: int| 0 <= x < self.pos@.len() && (#[trigger] self.pos@[x]) is Some
                implies self.pos@[x].unwrap() < self.heap@.len() && self.heap@[self.pos@[x].unwrap() as int] == x by {
                if x != hi && x != hj {
                    assert(old(self).pos@[x] is Some);
                    assert(old(self).heap@[old(self).pos@[x].unwrap() as int] == x);
                }
            }
            assert forall|x: int| 0 <= x < self.pos@.len() implies ((#[trigger] self.pos@[x]) is Some
                <==> old(self).pos@[x] is Some) by {
                if x == hi || x == hj {
                    assert(old(self).pos@[x] is Some);
                }
            }
            assert(old(self).pos@[hi as int] == Some(i));
            assert(old(self).pos@[hj as int] == Some(j));
            assert(hi == hj ==> i == j);
            assert forall|k: int| 0 <= k < self.heap@.len() implies (#[trigger] self.heap@[k]) < self.pos@.len()
                && self.pos@[self.heap@[k] as int] is Some && self.pos@[self.heap@[k] as int].unwrap() == k by {
                if k != i && k != j {
                    assert(old(self).pos@[old(self).heap@[k] as int].unwrap() == k);
                    assert(old(self).pos@[old(self).heap@[i as int] as int] == Some(i));
                    assert(old(self).pos@[old(self).heap@[j as int] as int] == Some(j));
                }
            }
            assert(self@ =~= old(self)@);
        }
    }

    /// Heap order holds at every position but `i`.
    spec fn ordered_except(&self, i: int) -> bool {
        forall|k: int| 0 < k < self.heap@.len() && k != i ==> #[trigger] self.ordered(up(k), k)
    }

    /// Heap order holds at every position whose parent is not `i`.
    spec fn ordered_below(&self, i: int) -> bool {
        forall|k: int| 0 < k < self.heap@.len() && up(k) != i ==> #[trigger] self.ordered(up(k), k)
    }

    /// The children of `i` hold keys no smaller than the parent of `i`.
    spec fn bridged(&self, i: int) -> bool {
        i > 0 ==> forall|k: int| 0 < k < self.heap@.len() && up(k) == i ==> #[trigger] self.ordered(up(i), k)
    }

    /// Moves the entry at position `i` up until its parent's key is no larger.
    fn sift_up(&mut self, i: usize)
        requires
            old(self).indexed(),
            i < old(self).heap@.len(),
            old(self).ordered_except(i as int),
            old(self).bridged(i as int),
        ensures
            final(self).wf(),
            final(self)@ == old(self)@,
            final(self).heap@.len() == old(self).heap@.len(),
    {
        let mut i = i;
        while i > 0
            invariant
                self.indexed(),
                i < self.heap@.len(),
                self.ordered_except(i as int),
                self.bridged(i as int),
                self@ == old(self)@,
                self.heap@.len() == old(self).heap@.len(),
            decreases i,
        {
            let p = (i - 1) / 2;
            if self.key[self.heap[i]] < self.key[self.heap[p]] {
                let ghost h0 = *self;
                self.swap(i, p);
                proof {
                    assert forall|k: int| 0 < k < self.heap@.len() && k != p implies #[trigger] self.ordered(up(k), k) by {
                        if k == i {
                        } else if up(k) == i {
                            assert(h0.ordered(up(i as int), k));
                        } else if up(k) == p {
                            assert(h0.ordered(up(k), k));
                        } else {
                            assert(h0.ordered(up(k), k));
                        }
                    }
                    if p > 0 {
                        assert forall|k: int| 0 < k < self.heap@.len() && up(k) == p implies #[trigger] self.ordered(up(p as int), k) by {
                            assert(h0.ordered(up(p as int), p as int));
                            if k != i {
                                assert(h0.ordered(up(k), k));
                            }
                        }
                    }
                }
                i = p;
            } else {
                proof {
                    assert forall|k: int| 0 < k < self.heap@.len() implies #[trigger] self.ordered(up(k), k) by {
                        if k != i {
                            assert(self.ordered(up(k), k));
                        }
                    }
                }
                return;
            }
        }
        proof {
            assert forall|k: int| 0 < k < self.heap@.len() implies #[trigger] self.ordered(up(k), k) by {
                assert(k != i);
            }
        }
    }

    /// Moves the entry at position `i` down until no child has a smaller key.
    fn sift_down(&mut self, i: usize)
        requires
            old(self).indexed(),
            i < old(self).heap@.len(),
            old(self).ordered_below(i as int),
            old(self).bridged(i as int),
        ensures
            final(self).wf(),
            final(self)@ == old(self)@,
            final(self).heap@.len() == old(self).heap@.len(),
    {
        let len = self.heap.len();
        let mut i = i;
        loop
            invariant
                self.indexed(),
                len == self.heap@.len(),
                i < len,
                self.ordered_below(i as int),
                self.bridged(i as int),
                self@ == old(self)@,
                len == old(self).heap@.len(),
            decreases len - i,
        {
            if len / 2 <= i {
                proof {
                    assert forall|k: int| 0 < k < self.heap@.len() implies #[trigger] self.ordered(up(k), k) by {
                        assert(up(k) != i);
                    }
                }
                return;
            }
            let left = 2 * i + 1;
            let right = left + 1;
            let mut smallest = i;
            if self.key[self.heap[left]] < self.key[self.heap[smallest]] {
                smallest = left;
            }
            if right < len && self.key[self.heap[right]] < self.key[self.heap[smallest]] {
                smallest = right;
            }
            if smallest == i {
                proof {
                    assert forall|k: int| 0 < k < self.heap@.len() implies #[trigger] self.ordered(up(k), k) by {
                        if up(k) == i {
                            assert(k == left || k == right);
                        }
                    }
                }
                return;
            }
            let ghost h0 = *self;
            let c = smallest;
            proof {
                assert(up(c as int) == i);
                assert(h0.ordered(c as int, left as int));
                if right < len {
                    assert(h0.ordered(c as int, right as int));
                }
            }
            self.swap(i, c);
            proof {
                assert forall|k: int| 0 < k < self.heap@.len() && up(k) != c implies #[trigger] self.ordered(up(k), k) by {
                    if k == c {
                    } else if up(k) == i {
                        assert(k == left || k == right);
                    } else if k == i {
                        assert(h0.ordered(up(i as int), c as int));
                    } else {
                        assert(h0.ordered(up(k), k));
                    }
                }
                assert forall|k: int| 0 < k < self.heap@.len() && up(k) == c implies #[trigger] self.ordered(up(c as int), k) by {
                    assert(h0.ordered(up(k), k));
                }
            }
            i = c;
        }
    }

    /// The root holds a key no larger than any other position's.
    proof fn lemma_root_min(&self, i: int)
        requires
            self.indexed(),
            self.heap_ordered(),
            0 <= i < self.heap@.len(),
        ensures
            self.ordered(0, i),
        decreases i,
    {
        if i > 0 {
            assert(self.ordered(up(i), i));
            self.lemma_root_min(up(i));
        }
    }

    /// Inserts `node` with key `k`, or lowers its key to `k` if it is present
    /// with a larger one. Returns whether its key changed.
    pub fn push_or_decrease(&mut self, node: usize, k: u64) -> (changed: bool)
        requires
            old(self).wf(),
            node < old(self)@.len(),
        ensures
            final(self).wf(),
            final(self)@.len() == old(self)@.len(),
            old(self)@[node as int] is Some ==> (changed <==> k < old(self)@[node as int].unwrap()),
            old(self)@[node as int] is None ==> changed,
            changed ==> final(self)@ == old(self)@.update(node as int, Some(k)),
            !changed ==> final(self)@ == old(self)@,
    {
        match self.pos[node] {
            Some(at) => {
                if k < self.key[node] {
                    let ghost h0 = *self;
                    self.key.set(node, k);
                    proof {
                        assert(h0.heap@[at as int] == node);
                        assert forall|q: int| 0 < q < self.heap@.len() && q != at implies #[trigger] self.ordered(up(q), q) by {
                            assert(h0.ordered(up(q), q));
                            if up(q) == at {
                                assert(self.heap@[q] != node) by {
                                    assert(h0.pos@[h0.heap@[q] as int].unwrap() == q);
                                }
                            }
                        }
                        if at > 0 {
                            assert forall|q: int| 0 < q < self.heap@.len() && up(q) == at implies #[trigger] self.ordered(up(at as int), q) by {
                                assert(h0.ordered(up(q), q));
                                assert(h0.ordered(up(at as int), at as int));
                                assert(self.heap@[q] != node) by {
                                    assert(h0.pos@[h0.heap@[q] as int].unwrap() == q);
                                }
                                assert(self.heap@[up(at as int)] != node) by {
                                    assert(h0.pos@[h0.heap@[up(at as int)] as int].unwrap() == up(at as int));
                                }
                            }
                        }
                        assert(self@ =~= h0@.update(node as int, Some(k)));
                    }
                    self.sift_up(at);
                    true
                } else {
                    false
                }
            },
            None => {
                let ghost h0 = *self;
                let at = self.heap.len();
                self.key.set(node, k);
                self.pos.set(node, Some(at));
                self.heap.push(node);
                proof {
                    assert forall|q: int| 0 <= q < self.heap@.len() implies (#[trigger] self.heap@[q]) < self.pos@.len()
                        && self.pos@[self.heap@[q] as int] is Some && self.pos@[self.heap@[q] as int].unwrap() == q by {
                        if q < at {
                            assert(h0.heap@[q] != node) by {
                                assert(h0.pos@[h0.heap@[q] as int] is Some);
                            }
                        }
                    }
                    assert forall|x: int| 0 <= x < self.pos@.len() && (#[trigger] self.pos@[x]) is Some
                        implies self.pos@[x].unwrap() < self.heap@.len() && self.heap@[self.pos@[x].unwrap() as int] == x by {
                        if x != node {
                            assert(h0.pos@[x] is Some);
                        }
                    }
                    assert forall|q: int| 0 < q < self.heap@.len() && q != at implies #[trigger] self.ordered(up(q), q) by {
                        assert(h0.ordered(up(q), q));
                        assert(h0.heap@[q] != node) by {
                            assert(h0.pos@[h0.heap@[q] as int] is Some);
                        }
                        assert(h0.heap@[up(q)] != node) by {
                            assert(h0.pos@[h0.heap@[up(q)] as int] is Some);
                        }
                    }
                    assert(self@ =~= h0@.update(node as int, Some(k)));
                }
                self.sift_up(at);
                true
            },
        }
    }

    /// Takes out and returns a slot with the least key; `None` when the heap
    /// is empty.
    pub fn pop_min(&mut self) -> (r: Option<usize>)
        requires
            old(self).wf(),
        ensures
            final(self).wf(),
            final(self)@.len() == old(self)@.len(),
            r is None <==> forall|x: int| 0 <= x < old(self)@.len() ==> #[trigger] old(self)@[x] is None,
            r is None ==> final(self)@ == old(self)@,
            r is Some ==> r.unwrap() < old(self)@.len() && old(self)@[r.unwrap() as int] is Some
                && (forall|x: int| 0 <= x < old(self)@.len() && #[trigger] old(self)@[x] is Some
                    ==> old(self)@[r.unwrap() as int].unwrap() <= old(self)@[x].unwrap())
                && final(self)@ == old(self)@.update(r.unwrap() as int, None),
    {
        if self.heap.len() == 0 {
            proof {
                assert forall|x: int| 0 <= x < self@.len() implies #[trigger] self@[x] is None by {
                    if self.pos@[x] is Some {
                        assert(self.pos@[x].unwrap() < self.heap@.len());
                    }
                }
            }
            return None;
        }
        let ghost h0 = *self;
        proof {
            assert forall|x: int| 0 <= x < h0@.len() && #[trigger] h0@[x] is Some implies
                h0@[h0.heap@[0] as int].unwrap() <= h0@[x].unwrap() by {
                let q = h0.pos@[x].unwrap() as int;
                h0.lemma_root_min(q);
            }
        }
        let last = self.heap.len() - 1;
        self.swap(0, last);
        let ghost h1 = *self;
        let node = self.heap.pop().unwrap();
        self.pos.set(node, None);
        proof {
            assert(node == h0.heap@[0]);
            assert forall|q: int| 0 <= q < self.heap@.len() implies (#[trigger] self.heap@[q]) < self.pos@.len()
                && self.pos@[self.heap@[q] as int] is Some && self.pos@[self.heap@[q] as int].unwrap() == q by {
                assert(h1.heap@[q] == self.heap@[q]);
                assert(h1.pos@[h1.heap@[q] as int].unwrap() == q);
                assert(h1.heap@[q] != node);
            }
            assert forall|x: int| 0 <= x < self.pos@.len() && (#[trigger] self.pos@[x]) is Some
                implies self.pos@[x].unwrap() < self.heap@.len() && self.heap@[self.pos@[x].unwrap() as int] == x by {
                assert(h1.pos@[x] is Some);
                assert(h1.heap@[h1.pos@[x].unwrap() as int] == x);
            }
            assert forall|q: int| 0 < q < self.heap@.len() && up(q) != 0 implies #[trigger] self.ordered(up(q), q) by {
                assert(h0.ordered(up(q), q));
            }
            assert(self@ =~= h0@.update(node as int, None));
        }
        if self.heap.len() > 0 {
            self.sift_down(0);
        } else {
            proof {
                assert(self.heap_ordered());
            }
        }
        Some(node)
    }
}

} // verus!
