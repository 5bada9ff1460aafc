use vstd::prelude::*;

verus! {

/// A vector of at most `CAP` items; a push beyond that is refused and leaves
/// the contents unchanged. Unused places read as empty.
pub struct Vec<T, const CAP: usize> {
    data: std::vec::Vec<T>,
}

impl<T, const CAP: usize> View for Vec<T, CAP> {
    type V = Seq<T>;

    closed spec fn view(&self) -> Seq<T> {
        self.data@
    }
}

impl<T, const CAP: usize> Vec<T, CAP> {
    /// The length never exceeds the capacity.
    pub open spec fn wf(&self) -> bool {
        self@.len() <= CAP
    }

    pub fn new() -> (r: Self)
        ensures
            r.wf(),
            r@ == Seq::<T>::empty(),
    {
        Vec { data: std::vec::Vec::new() }
    }

    /// Appends `value`, or fails with "Vector full" when the vector is full.
    pub fn push(&mut self, value: T) -> (r: Result<(), &'static str>)
        requires
            old(self).wf(),
        ensures
            final(self).wf(),
            old(self)@.len() < CAP <==> r is Ok,
            r is Ok ==> final(self)@ == old(self)@.push(value),
            r is Err ==> final(self)@ == old(self)@,
    {
        if self.data.len() >= CAP {
            return Err("Vector full");
        }
        self.data.push(value);
        Ok(())
    }

    /// Removes and returns the last element, if any.
    pub fn pop(&mut self) -> (r: Option<T>)
        requires
            old(self).wf(),
        ensures
            final(self).wf(),
            old(self)@.len() == 0 ==> r is None && final(self)@ == old(self)@,
            old(self)@.len() > 0 ==> r == Some(old(self)@.last()) && final(self)@ == old(
                self,
            )@.drop_last(),
    {
        self.data.pop()
    }

    /// The element at `index`, or `None` past the end.
    pub fn get(&self, index: usize) -> (r: Option<&T>)
        ensures
            index < self@.len() ==> r == Some(&self@[index as int]),
            index >= self@.len() ==> r is None,
    {
        if index < self.data.len() {
            Some(&self.data[index])
        } else {
            None
        }
    }

    /// A mutable reference to the element at `index`, or `None` past the end.
    pub fn get_mut(&mut self, index: usize) -> (r: Option<&mut T>)
        ensures
            index < old(self)@.len() ==> r is Some && *r->0 == old(self)@[index as int]
                && final(self)@ == old(self)@.update(index as int, *final(r->0)),
            index >= old(self)@.len() ==> r is None && final(self)@ == old(self)@,
    {
        if index < self.data.len() {
            Some(&mut self.data[index])
        } else {
            None
        }
    }

    pub fn len(&self) -> (r: usize)
        ensures
            r == self@.len(),
    {
        self.data.len()
    }

    pub fn is_empty(&self) -> (r: bool)
        ensures
            r == (self@.len() == 0),
    {
        self.data.len() == 0
    }

    pub fn capacity(&self) -> (r: usize)
        ensures
            r == CAP,
    {
        CAP
    }

    /// The `CAP` places in order: the items, then `None` for each unused place.
    pub fn to_array(&self) -> (r: std::vec::Vec<Option<T>>)
        where
            T: Copy,
        requires
            self.wf(),
        ensures
            r@.len() == CAP,
            forall|i: int| 0 <= i < self@.len() ==> r@[i] == Some(self@[i]),
            forall|i: int| self@.len() <= i < CAP ==> r@[i] is None,
    {
        let mut r: std::vec::Vec<Option<T>> = std::vec::Vec::new();
        let mut i: usize = 0;
        while i < CAP
            invariant
                self.wf(),
                i <= CAP,
                r@.len() == i,
                forall|j: int| 0 <= j < i && j < self@.len() ==> r@[j] == Some(self@[j]),
                forall|j: int| self@.len() <= j < i ==> r@[j] is None,
            decreases CAP - i,
        {
            if i < self.data.len() {
                r.push(Some(self.data[i]));
            } else {
                r.push(None);
            }
            i = i + 1;
        }
        r
    }
}

} // verus!
