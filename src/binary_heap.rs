use vstd::prelude::*;
use vstd::multiset::Multiset;

verus! {

broadcast use vstd::seq_lib::group_to_multiset_ensures;

/// The index of the parent of node `i` in an array-backed binary tree.
pub open spec fn parent(i: int) -> int {
    (i - 1) / 2
}

/// Every node of `s` other than the root is at most its parent.
pub open spec fn is_heap(s: Seq<u64>) -> bool {
    forall|i: int| 0 < i < s.len() ==> #[trigger] s[i] <= s[parent(i)]
}

/// The root of a heap is at least every node.
proof fn lemma_root_is_max(s: Seq<u64>, i: int)
    requires
        is_heap(s),
        0 <= i < s.len(),
    ensures
        s[i] <= s[0],
    decreases i,
{
    if i > 0 {
        lemma_root_is_max(s, parent(i));
    }
}

/// A priority queue of at most `CAP` items that hands out the largest first.
pub struct BinaryHeap<const CAP: usize> {
    data: Vec<u64>,
}

impl<const CAP: usize> BinaryHeap<CAP> {
    /// The items held.
    pub closed spec fn items(&self) -> Multiset<u64> {
        self.data@.to_multiset()
    }

    /// At most `CAP` items, kept in heap order.
    pub closed spec fn wf(&self) -> bool {
        self.data@.len() <= CAP && is_heap(self.data@)
    }

    pub fn new() -> (r: Self)
        ensures
            r.wf(),
            r.items() == Multiset::<u64>::empty(),
    {
        let r = BinaryHeap { data: Vec::new() };
        proof {
            assert(r.data@.to_multiset() =~= Multiset::<u64>::empty());
        }
        r
    }

    /// Adds `item`, or fails with "Heap full" when `CAP` items are held.
    pub fn push(&mut self, item: u64) -> (r: Result<(), &'static str>)
        requires
            old(self).wf(),
        ensures
            final(self).wf(),
            r is Ok <==> old(self).items().len() < CAP,
            r is Ok ==> final(self).items() == old(self).items().insert(item),
            r is Err ==> final(self).items() == old(self).items(),
    {
        if self.data.len() >= CAP {
            return Err("Heap full");
        }
        let ghost before = self.data@;
        self.data.push(item);
        proof {
            vstd::seq_lib::to_multiset_build(before, item);
        }
        let ghost target = self.data@.to_multiset();
        let mut index = self.data.len() - 1;
        while index > 0 && self.data[index] > self.data[(index - 1) / 2]
            invariant
                0 <= index < self.data@.len() <= CAP,
                self.data@.to_multiset() == target,
                forall|i: int|
                    0 < i < self.data@.len() && i != index ==> #[trigger] self.data@[i]
                        <= self.data@[parent(i)],
                index > 0 ==> forall|i: int|
                    0 < i < self.data@.len() && parent(i) == index ==> #[trigger] self.data@[i]
                        <= self.data@[parent(index as int)],
            decreases index,
        {
            let p = (index - 1) / 2;
            let ghost s = self.data@;
            let a = self.data[index];
            let b = self.data[p];
            self.data.set(index, b);
            self.data.set(p, a);
            proof {
                crate::algo::lemma_swap_multiset(s, index as int, p as int);
                assert(self.data@ == s.update(index as int, s[p as int]).update(p as int, s[index as int]));
            }
            index = p;
        }
        Ok(())
    }

    /// Removes and returns the largest item, if any.
    pub fn pop(&mut self) -> (r: Option<u64>)
        requires
            old(self).wf(),
        ensures
            final(self).wf(),
            old(self).items().len() == 0 ==> r is None && final(self).items() == old(self).items(),
            old(self).items().len() > 0 ==> (r matches Some(m) && old(self).items().contains(m)
                && (forall|x: u64| old(self).items().contains(x) ==> x <= m) && final(self).items()
                == old(self).items().remove(m)),
    {
        if self.data.len() == 0 {
            return None;
        }
        let ghost s0 = self.data@;
        let result = self.data[0];
        proof {
            assert forall|x: u64| s0.to_multiset().contains(x) implies x <= result by {
                let k = choose|k: int| 0 <= k < s0.len() && s0[k] == x;
                lemma_root_is_max(s0, k);
            }
            assert(s0.to_multiset().contains(result)) by {
                assert(s0[0] == result);
            }
        }
        let last = self.data.pop().unwrap();
        let ghost s1 = self.data@;
        proof {
            assert(s1.push(last) =~= s0);
            vstd::seq_lib::to_multiset_build(s1, last);
        }
        if self.data.len() > 0 {
            self.data.set(0, last);
            proof {
                vstd::seq_lib::to_multiset_update(s1, 0, last);
                assert(s1[0] == result);
                assert(s1.to_multiset().insert(last).remove(result) =~= s0.to_multiset().remove(result));
            }
            self.sift_down();
        } else {
            proof {
                assert(s1.to_multiset() =~= s0.to_multiset().remove(result));
            }
        }
        Some(result)
    }

    /// The largest item, if any, left in place.
    pub fn peek(&self) -> (r: Option<&u64>)
        requires
            self.wf(),
        ensures
            self.items().len() == 0 ==> r is None,
            self.items().len() > 0 ==> (r matches Some(m) && self.items().contains(*m) && (forall|
                x: u64,
            | self.items().contains(x) ==> x <= *m)),
    {
        if self.data.len() == 0 {
            return None;
        }
        let ghost s = self.data@;
        proof {
            assert forall|x: u64| s.to_multiset().contains(x) implies x <= s[0] by {
                let k = choose|k: int| 0 <= k < s.len() && s[k] == x;
                lemma_root_is_max(s, k);
            }
            assert(s.to_multiset().contains(s[0]));
        }
        Some(&self.data[0])
    }

    /// The number of items.
    pub fn len(&self) -> (r: usize)
        ensures
            r == self.items().len(),
    {
        self.data.len()
    }

    pub fn is_empty(&self) -> (r: bool)
        ensures
            r == (self.items().len() == 0),
    {
        self.data.len() == 0
    }

    /// Restores heap order after the root was replaced.
    fn sift_down(&mut self)
        requires
            old(self).data@.len() > 0,
            forall|i: int|
                0 < i < old(self).data@.len() && parent(i) != 0 ==> #[trigger] old(self).data@[i]
                    <= old(self).data@[parent(i)],
        ensures
            is_heap(final(self).data@),
            final(self).data@.len() == old(self).data@.len(),
            final(self).data@.to_multiset() == old(self).data@.to_multiset(),
    {
        let n = self.data.len();
        let mut index: usize = 0;
        loop
            invariant
                n == self.data@.len(),
                index < n,
                self.data@.to_multiset() == old(self).data@.to_multiset(),
                forall|i: int|
                    0 < i < n && parent(i) != index ==> #[trigger] self.data@[i] <= self.data@[parent(i)],
                index > 0 ==> forall|i: int|
                    0 < i < n && parent(i) == index ==> #[trigger] self.data@[i]
                        <= self.data@[parent(index as int)],
            ensures
                is_heap(self.data@),
                n == self.data@.len(),
                self.data@.to_multiset() == old(self).data@.to_multiset(),
            decreases n - index,
        {
            if index >= n / 2 {
                break;
            }
            let left = 2 * index + 1;
            let right = 2 * index + 2;
            let mut largest = index;
            if left < n && self.data[left] > self.data[largest] {
                largest = left;
            }
            if right < n && self.data[right] > self.data[largest] {
                largest = right;
            }
            if largest == index {
                break;
            }
            let ghost s = self.data@;
            let a = self.data[index];
            let b = self.data[largest];
            self.data.set(index, b);
            self.data.set(largest, a);
            proof {
                crate::algo::lemma_swap_multiset(s, index as int, largest as int);
                assert(self.data@ == s.update(index as int, s[largest as int]).update(largest as int, s[index as int]));
            }
            index = largest;
        }
    }
}

} // verus!
