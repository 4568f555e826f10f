use vstd::prelude::*;

verus! {

/// The order of heap keys: lexicographic on (frequency, tiebreak).
pub open spec fn key_lt(a: (u64, u64), b: (u64, u64)) -> bool {
    a.0 < b.0 || (a.0 == b.0 && a.1 < b.1)
}

pub open spec fn key_le(a: (u64, u64), b: (u64, u64)) -> bool {
    !key_lt(b, a)
}

/// The position of the parent of heap position `p`.
pub open spec fn parent(p: int) -> int {
    (p - 1) / 2
}

/// A binary min-heap of item indices below a fixed capacity, ordered by a key kept per
/// item, that also knows where each item sits in it: the item with the least key is
/// found in constant time, and the key of any item can be changed in logarithmic time.
pub struct IndexedMinHeap {
    heap: Vec<usize>,
    heap_pos: Vec<usize>,
    keys: Vec<(u64, u64)>,
    len: usize,
}

impl IndexedMinHeap {
    /// The number of items the heap can hold.
    pub open spec fn capacity(&self) -> nat {
        self.keys().len()
    }

    /// The key of each item, stored or not.
    pub closed spec fn keys(&self) -> Seq<(u64, u64)> {
        self.keys@
    }

    /// The items stored in the heap.
    pub closed spec fn members(&self) -> Set<usize> {
        Set::new(|x: usize| x < self.heap_pos@.len() && self.heap_pos@[x as int] < self.len)
    }

    pub closed spec fn size(&self) -> nat {
        self.len as nat
    }

    closed spec fn key_at(&self, p: int) -> (u64, u64) {
        self.keys@[self.heap@[p] as int]
    }

    closed spec fn ordered_at(&self, p: int) -> bool {
        key_le(self.key_at(parent(p)), self.key_at(p))
    }

    /// Positions and items are inverse to each other.
    closed spec fn shape(&self) -> bool {
        &&& self.heap@.len() == self.keys@.len()
        &&& self.heap_pos@.len() == self.keys@.len()
        &&& self.len <= self.keys@.len() < usize::MAX
        &&& forall|p: int| 0 <= p < self.len ==> {
            &&& (#[trigger] self.heap@[p]) < self.keys@.len()
            &&& self.heap_pos@[self.heap@[p] as int] == p
        }
        &&& forall|x: int| 0 <= x < self.keys@.len() ==> {
            ||| (#[trigger] self.heap_pos@[x]) == usize::MAX
            ||| (self.heap_pos@[x] < self.len && self.heap@[self.heap_pos@[x] as int] == x)
        }
    }

    /// Every position except `i` holds a key no less than its parent's.
    closed spec fn ordered_except(&self, i: int) -> bool {
        forall|p: int| 0 < p < self.len && p != i ==> #[trigger] self.ordered_at(p)
    }

    /// Every position whose parent is not `i` holds a key no less than its parent's.
    closed spec fn ordered_below_except(&self, i: int) -> bool {
        forall|p: int| 0 < p < self.len && parent(p) != i ==> #[trigger] self.ordered_at(p)
    }

    /// The parent of `i` is no greater than the children of `i`.
    closed spec fn bridged(&self, i: int) -> bool {
        i > 0 ==> forall|c: int|
            0 < c < self.len && parent(c) == i ==> key_le(
                self.key_at(parent(i)),
                #[trigger] self.key_at(c),
            )
    }

    /// The heap is well formed: positions and items agree, and every parent's key is no
    /// greater than its children's.
    pub closed spec fn wf(&self) -> bool {
        &&& self.shape()
        &&& self.ordered_except(0)
    }

    /// An empty heap for items below `capacity`.
    pub fn new(capacity: usize) -> (h: Self)
        requires
            capacity < usize::MAX,
        ensures
            h.wf(),
            h.capacity() == capacity,
            h.members() == Set::<usize>::empty(),
            h.size() == 0,
            h.keys() == Seq::new(capacity as nat, |i: int| (0u64, 0u64)),
    {
        let mut heap: Vec<usize> = Vec::new();
        let mut heap_pos: Vec<usize> = Vec::new();
        let mut keys: Vec<(u64, u64)> = Vec::new();
        let mut i: usize = 0;
        while i < capacity
            invariant
                i <= capacity,
                heap@.len() == i,
                heap_pos@.len() == i,
                keys@.len() == i,
                forall|x: int| 0 <= x < i ==> heap_pos@[x] == usize::MAX,
                forall|x: int| 0 <= x < i ==> keys@[x] == (0u64, 0u64),
            decreases capacity - i,
        {
            heap.push(0);
            heap_pos.push(usize::MAX);
            keys.push((0, 0));
            i = i + 1;
        }
        let h = IndexedMinHeap { heap, heap_pos, keys, len: 0 };
        assert(h.members() =~= Set::<usize>::empty());
        assert(h.keys() =~= Seq::new(capacity as nat, |i: int| (0u64, 0u64)));
        h
    }

    /// The key of item `i`.
    pub fn key(&self, i: usize) -> (k: (u64, u64))
        requires
            i < self.capacity(),
        ensures
            k == self.keys()[i as int],
    {
        self.keys[i]
    }

    /// Compares the keys at two heap positions.
    #[inline(always)]
    fn less(&self, i: usize, j: usize) -> (r: bool)
        requires
            self.shape(),
            i < self.len,
            j < self.len,
        ensures
            r == key_lt(self.key_at(i as int), self.key_at(j as int)),
    {
        let a = self.keys[self.heap[i]];
        let b = self.keys[self.heap[j]];
        a.0 < b.0 || (a.0 == b.0 && a.1 < b.1)
    }

    /// Exchanges the items at two heap positions.
    #[inline(always)]
    fn swap(&mut self, i: usize, j: usize)
        requires
            old(self).shape(),
            i < old(self).len,
            j < old(self).len,
        ensures
            final(self).shape(),
            final(self).len == old(self).len,
            final(self).keys@ == old(self).keys@,
            final(self).heap@ == old(self).heap@.update(i as int, old(self).heap@[j as int]).update(
                j as int,
                old(self).heap@[i as int],
            ),
            final(self).members() == old(self).members(),
    {
        let a = self.heap[i];
        let b = self.heap[j];
        self.heap.set(i, b);
        self.heap.set(j, a);
        self.heap_pos.set(b, i);
        self.heap_pos.set(a, j);
        assert(self.members() =~= old(self).members());
    }

    /// Moves the item at `pos` up past every parent with a greater key.
    fn sift_up(&mut self, pos: usize)
        requires
            old(self).shape(),
            pos < old(self).len,
            old(self).ordered_except(pos as int),
            old(self).bridged(pos as int),
        ensures
            final(self).wf(),
            final(self).len == old(self).len,
            final(self).keys@ == old(self).keys@,
            final(self).members() == old(self).members(),
    {
        let ghost keys0 = self.keys@;
        let ghost members0 = self.members();
        let ghost len0 = self.len;
        let mut pos = pos;
        loop
            invariant_except_break
                self.shape(),
                pos < self.len,
                self.len == len0,
                self.keys@ == keys0,
                self.members() == members0,
                self.ordered_except(pos as int),
                self.bridged(pos as int),
            ensures
                self.wf(),
                self.len == len0,
                self.keys@ == keys0,
                self.members() == members0,
            decreases pos,
        {
            if pos == 0 {
                break;
            }
            let parent_pos = (pos - 1) / 2;
            if self.less(pos, parent_pos) {
                let ghost before = *self;
                self.swap(pos, parent_pos);
                proof {
                    let i = pos as int;
                    let q = parent_pos as int;
                    assert(parent(i) == q);
                    assert forall|p: int| 0 < p < self.len && p != q implies #[trigger] self.ordered_at(p) by {
                        if p == i {
                        } else if parent(p) == i {
                            assert(before.key_at(p) == self.key_at(p));
                        } else if parent(p) == q {
                            assert(before.ordered_at(p));
                        } else {
                            assert(before.ordered_at(p));
                            assert(before.key_at(p) == self.key_at(p));
                            assert(before.key_at(parent(p)) == self.key_at(parent(p)));
                        }
                    }
                    if q > 0 {
                        assert(before.ordered_at(q));
                        assert forall|c: int| 0 < c < self.len && parent(c) == q implies key_le(
                            self.key_at(parent(q)),
                            #[trigger] self.key_at(c),
                        ) by {
                            if c != i {
                                assert(before.ordered_at(c));
                            }
                        }
                    }
                }
                pos = parent_pos;
            } else {
                assert(self.ordered_at(pos as int));
                break;
            }
        }
    }

    /// Moves the item at `pos` down past every child with a smaller key.
    fn sift_down(&mut self, pos: usize)
        requires
            old(self).shape(),
            pos < old(self).len,
            old(self).ordered_below_except(pos as int),
            old(self).bridged(pos as int),
        ensures
            final(self).wf(),
            final(self).len == old(self).len,
            final(self).keys@ == old(self).keys@,
            final(self).members() == old(self).members(),
    {
        let ghost keys0 = self.keys@;
        let ghost members0 = self.members();
        let len = self.len;
        let mut pos = pos;
        loop
            invariant_except_break
                self.shape(),
                pos < len,
                self.len == len,
                self.keys@ == keys0,
                self.members() == members0,
                self.ordered_below_except(pos as int),
                self.bridged(pos as int),
            ensures
                self.wf(),
                self.len == len,
                self.keys@ == keys0,
                self.members() == members0,
            decreases len - pos,
        {
            let left = if pos < len / 2 { 2 * pos + 1 } else { len };
            let right = if pos < len / 2 { 2 * pos + 2 } else { len };
            let mut smallest = pos;
            if left < len && self.less(left, smallest) {
                smallest = left;
            }
            if right < len && self.less(right, smallest) {
                smallest = right;
            }
            proof {
                assert forall|c: int| 0 < c < len && parent(c) == pos implies c == left || c == right by {
                }
            }
            if smallest == pos {
                assert forall|p: int| 0 < p < self.len implies #[trigger] self.ordered_at(p) by {
                    if parent(p) == pos {
                        assert(p == left || p == right);
                    }
                }
                break;
            } else {
                let ghost before = *self;
                self.swap(pos, smallest);
                proof {
                    let i = pos as int;
                    let s = smallest as int;
                    assert(parent(s) == i);
                    assert forall|p: int| 0 < p < self.len && parent(p) != s implies #[trigger] self.ordered_at(p) by {
                        if p == s {
                            assert(before.key_at(p) == self.key_at(i));
                        } else if p == i {
                            assert(before.key_at(parent(p)) == self.key_at(parent(p)));
                        } else if parent(p) == i {
                            assert(p == left || p == right);
                            assert(before.key_at(p) == self.key_at(p));
                        } else {
                            assert(before.ordered_at(p));
                            assert(before.key_at(p) == self.key_at(p));
                            assert(before.key_at(parent(p)) == self.key_at(parent(p)));
                        }
                    }
                    assert forall|c: int| 0 < c < self.len && parent(c) == s implies key_le(
                        self.key_at(parent(s)),
                        #[trigger] self.key_at(c),
                    ) by {
                        assert(before.ordered_at(c));
                        assert(before.key_at(c) == self.key_at(c));
                    }
                }
                pos = smallest;
            }
        }
    }

    /// Adds item `line_index` with the given key.
    pub fn insert(&mut self, line_index: usize, key: (u64, u64))
        requires
            old(self).wf(),
            line_index < old(self).capacity(),
            !old(self).members().contains(line_index),
            old(self).size() < old(self).capacity(),
        ensures
            final(self).wf(),
            final(self).capacity() == old(self).capacity(),
            final(self).members() == old(self).members().insert(line_index),
            final(self).keys() == old(self).keys().update(line_index as int, key),
            final(self).size() == old(self).size() + 1,
    {
        let ghost before = *self;
        let pos = self.len;
        self.heap.set(pos, line_index);
        self.heap_pos.set(line_index, pos);
        self.keys.set(line_index, key);
        self.len = self.len + 1;
        proof {
            assert forall|p: int| 0 <= p < self.len implies self.heap@[p] != line_index || p == pos by {
                if p < pos {
                    assert(before.heap_pos@[before.heap@[p] as int] == p);
                }
            }
            assert forall|p: int| 0 < p < self.len && p != pos implies #[trigger] self.ordered_at(p) by {
                assert(before.ordered_at(p));
                assert(self.heap@[p] != line_index);
                assert(self.heap@[parent(p)] != line_index);
            }
            assert(self.members() =~= before.members().insert(line_index));
        }
        self.sift_up(pos);
        assert(self.keys() =~= before.keys().update(line_index as int, key));
    }

    /// The item with the least key.
    #[inline(always)]
    pub fn peek_min(&self) -> (r: usize)
        requires
            self.wf(),
            self.size() > 0,
        ensures
            self.members().contains(r),
            forall|m: usize| #[trigger] self.members().contains(m) ==> key_le(
                self.keys()[r as int],
                self.keys()[m as int],
            ),
    {
        proof {
            assert forall|m: usize| #[trigger] self.members().contains(m) implies key_le(
                self.keys()[self.heap@[0] as int],
                self.keys()[m as int],
            ) by {
                self.lemma_root_le(self.heap_pos@[m as int] as int);
            }
        }
        self.heap[0]
    }

    /// A heap that holds an item is not empty, and the item lies below the capacity.
    pub proof fn lemma_member_nonempty(&self, x: usize)
        requires
            self.wf(),
            self.members().contains(x),
        ensures
            self.size() > 0,
            x < self.capacity(),
    {
    }

    proof fn lemma_root_le(&self, p: int)
        requires
            self.wf(),
            0 <= p < self.len,
        ensures
            key_le(self.key_at(0), self.key_at(p)),
        decreases p,
    {
        if p > 0 {
            assert(self.ordered_at(p));
            self.lemma_root_le(parent(p));
        }
    }

    /// Gives item `line_index` a new key.
    pub fn update(&mut self, line_index: usize, key: (u64, u64))
        requires
            old(self).wf(),
            old(self).members().contains(line_index),
        ensures
            final(self).wf(),
            final(self).capacity() == old(self).capacity(),
            final(self).members() == old(self).members(),
            final(self).keys() == old(self).keys().update(line_index as int, key),
            final(self).size() == old(self).size(),
    {
        let ghost before = *self;
        let old_key = self.keys[line_index];
        self.keys.set(line_index, key);
        let pos = self.heap_pos[line_index];
        proof {
            assert(self.members() =~= before.members());
            assert forall|p: int| 0 <= p < self.len && p != pos implies self.heap@[p] != line_index by {
                assert(before.heap_pos@[before.heap@[p] as int] == p);
            }
        }
        if key.0 < old_key.0 || (key.0 == old_key.0 && key.1 < old_key.1) {
            proof {
                assert forall|p: int| 0 < p < self.len && p != pos implies #[trigger] self.ordered_at(p) by {
                    assert(before.ordered_at(p));
                }
                if pos > 0 {
                    assert(before.ordered_at(pos as int));
                    assert forall|c: int| 0 < c < self.len && parent(c) == pos implies key_le(
                        self.key_at(parent(pos as int)),
                        #[trigger] self.key_at(c),
                    ) by {
                        assert(before.ordered_at(c));
                    }
                }
            }
            self.sift_up(pos);
        } else {
            proof {
                assert forall|p: int| 0 < p < self.len && parent(p) != pos implies #[trigger] self.ordered_at(p) by {
                    assert(before.ordered_at(p));
                }
                if pos > 0 {
                    assert(before.ordered_at(pos as int));
                    assert forall|c: int| 0 < c < self.len && parent(c) == pos implies key_le(
                        self.key_at(parent(pos as int)),
                        #[trigger] self.key_at(c),
                    ) by {
                        assert(before.ordered_at(c));
                    }
                }
            }
            self.sift_down(pos);
        }
        assert(self.keys() =~= before.keys().update(line_index as int, key));
    }
}

} // verus!
