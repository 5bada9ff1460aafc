use vstd::prelude::*;
use vstd::std_specs::cmp::PartialEqSpec;

verus! {

/// Whether a scan for `key` that fills or replaces stops at slot `o`: an
/// empty slot, or one that holds `key`.
pub open spec fn opens_for<K: PartialEq, V>(o: Option<(K, V)>, key: K) -> bool {
    match o {
        None => true,
        Some((k, _)) => k.eq_spec(&key),
    }
}

/// Whether slot `o` holds `key`.
pub open spec fn holds_key<K: PartialEq, V>(o: Option<(K, V)>, key: K) -> bool {
    match o {
        None => false,
        Some((k, _)) => k.eq_spec(&key),
    }
}

/// The first slot at or after `i` that is empty or holds `key`; the length
/// of `s` when there is none.
pub open spec fn first_open<K: PartialEq, V>(s: Seq<Option<(K, V)>>, key: K, i: int) -> int
    decreases s.len() - i,
{
    if i >= s.len() {
        s.len() as int
    } else if opens_for(s[i], key) {
        i
    } else {
        first_open(s, key, i + 1)
    }
}

/// The first slot at or after `i` that holds `key`; the length of `s` when
/// there is none.
pub open spec fn first_holding<K: PartialEq, V>(s: Seq<Option<(K, V)>>, key: K, i: int) -> int
    decreases s.len() - i,
{
    if i >= s.len() {
        s.len() as int
    } else if holds_key(s[i], key) {
        i
    } else {
        first_holding(s, key, i + 1)
    }
}

/// The number of occupied slots.
pub open spec fn occupied<K, V>(s: Seq<Option<(K, V)>>) -> nat
    decreases s.len(),
{
    if s.len() == 0 {
        0
    } else {
        occupied(s.drop_last()) + if s.last() is Some {
            1nat
        } else {
            0nat
        }
    }
}

pub(crate) proof fn lemma_occupied_update<K, V>(s: Seq<Option<(K, V)>>, i: int, o: Option<(K, V)>)
    requires
        0 <= i < s.len(),
    ensures
        occupied(s.update(i, o)) + (if s[i] is Some { 1int } else { 0int }) == occupied(s) + (
        if o is Some {
            1int
        } else {
            0int
        }),
    decreases s.len(),
{
    let t = s.update(i, o);
    if i == s.len() - 1 {
        assert(t.drop_last() =~= s.drop_last());
    } else {
        assert(t.drop_last() =~= s.drop_last().update(i, o));
        lemma_occupied_update(s.drop_last(), i, o);
    }
}

pub(crate) proof fn lemma_occupied_bound<K, V>(s: Seq<Option<(K, V)>>)
    ensures
        occupied(s) <= s.len(),
        (forall|j: int| 0 <= j < s.len() ==> s[j] is Some) ==> occupied(s) == s.len(),
    decreases s.len(),
{
    if s.len() > 0 {
        lemma_occupied_bound(s.drop_last());
        if forall|j: int| 0 <= j < s.len() ==> s[j] is Some {
            assert forall|j: int| 0 <= j < s.drop_last().len() implies s.drop_last()[j] is Some by {
                assert(s[j] is Some);
            }
            assert(s[s.len() - 1] is Some);
        }
    }
}

proof fn lemma_occupied_positive<K, V>(s: Seq<Option<(K, V)>>, i: int)
    requires
        0 <= i < s.len(),
        s[i] is Some,
    ensures
        occupied(s) >= 1,
{
    lemma_occupied_update(s, i, None);
}

/// A map of at most `CAP` entries kept in `CAP` slots. Lookups scan the slots
/// in order; an insert fills the first slot that is empty or already holds the
/// key.
pub struct HashMap<K, V, const CAP: usize> where K: Eq + Copy, V: Copy {
    entries: std::vec::Vec<Option<(K, V)>>,
    len: usize,
}

impl<K, V, const CAP: usize> HashMap<K, V, CAP> where K: Eq + Copy, V: Copy {
    /// The slots, in order.
    pub closed spec fn slots(&self) -> Seq<Option<(K, V)>> {
        self.entries@
    }

    /// The count of entries kept beside the slots.
    pub closed spec fn spec_len(&self) -> nat {
        self.len as nat
    }

    /// There are `CAP` slots, and the count is the number of occupied ones.
    pub open spec fn wf(&self) -> bool {
        &&& self.slots().len() == CAP
        &&& self.spec_len() == occupied(self.slots())
    }

    pub fn new() -> (r: Self)
        ensures
            r.wf(),
            forall|i: int| 0 <= i < CAP ==> r.slots()[i] is None,
    {
        let mut entries: std::vec::Vec<Option<(K, V)>> = std::vec::Vec::new();
        let mut i: usize = 0;
        while i < CAP
            invariant
                i <= CAP,
                entries@.len() == i,
                forall|j: int| 0 <= j < i ==> entries@[j] is None,
                occupied(entries@) == 0,
            decreases CAP - i,
        {
            proof {
                assert(entries@.push(None).drop_last() =~= entries@);
            }
            entries.push(None);
            i = i + 1;
        }
        HashMap { entries, len: 0 }
    }

    /// Stores `value` under `key` in the first slot that is empty or holds
    /// `key`. Fails with "HashMap full" when all `CAP` slots are occupied.
    pub fn insert(&mut self, key: K, value: V) -> (r: Result<(), &'static str>)
        requires
            old(self).wf(),
            K::obeys_eq_spec(),
        ensures
            final(self).wf(),
            r is Ok <==> old(self).spec_len() < CAP,
            r is Err ==> final(self).slots() == old(self).slots(),
            r is Ok ==> {
                let p = first_open(old(self).slots(), key, 0);
                &&& 0 <= p < CAP
                &&& final(self).slots() == old(self).slots().update(p, Some((key, value)))
            },
    {
        if self.len >= CAP {
            return Err("HashMap full");
        }
        let ghost s = self.entries@;
        let mut i: usize = 0;
        while i < CAP
            invariant
                self.wf(),
                self.entries@ == s,
                *self == *old(self),
                self.len < CAP,
                K::obeys_eq_spec(),
                i <= CAP,
                first_open(s, key, 0) == first_open(s, key, i as int),
                forall|j: int| 0 <= j < i ==> s[j] is Some,
            decreases CAP - i,
        {
            let stop = match &self.entries[i] {
                Some((k, _)) => k.eq(&key),
                None => true,
            };
            if stop {
                let was_empty = self.entries[i].is_none();
                proof {
                    lemma_occupied_update(s, i as int, Some((key, value)));
                }
                self.entries.set(i, Some((key, value)));
                if was_empty {
                    self.len = self.len + 1;
                }
                return Ok(());
            }
            i = i + 1;
        }
        proof {
            lemma_occupied_bound(s);
        }
        Err("No space available")
    }

    /// The value of the first slot that holds `key`, if any.
    pub fn get(&self, key: K) -> (r: Option<&V>)
        requires
            self.wf(),
            K::obeys_eq_spec(),
        ensures
            ({
                let f = first_holding(self.slots(), key, 0);
                &&& f < CAP ==> r == Some(&self.slots()[f].unwrap().1)
                &&& f >= CAP ==> r is None
            }),
    {
        let mut i: usize = 0;
        while i < CAP
            invariant
                self.wf(),
                K::obeys_eq_spec(),
                i <= CAP,
                first_holding(self.slots(), key, 0) == first_holding(self.slots(), key, i as int),
            decreases CAP - i,
        {
            if let Some((k, v)) = &self.entries[i] {
                if k.eq(&key) {
                    return Some(v);
                }
            }
            i = i + 1;
        }
        None
    }

    /// Empties the first slot that holds `key` and returns its value, if any.
    pub fn remove(&mut self, key: K) -> (r: Option<V>)
        requires
            old(self).wf(),
            K::obeys_eq_spec(),
        ensures
            final(self).wf(),
            ({
                let f = first_holding(old(self).slots(), key, 0);
                &&& f < CAP ==> r == Some(old(self).slots()[f].unwrap().1) && final(self).slots()
                    == old(self).slots().update(f, None)
                &&& f >= CAP ==> r is None && final(self).slots() == old(self).slots()
            }),
    {
        let ghost s = self.entries@;
        let mut i: usize = 0;
        while i < CAP
            invariant
                self.wf(),
                self.entries@ == s,
                *self == *old(self),
                K::obeys_eq_spec(),
                i <= CAP,
                first_holding(s, key, 0) == first_holding(s, key, i as int),
            decreases CAP - i,
        {
            let found = match &self.entries[i] {
                Some((k, _)) => k.eq(&key),
                None => false,
            };
            if found {
                let v = match self.entries[i] {
                    Some((_, v)) => v,
                    None => {
                        proof {
                            assert(false);
                        }
                        return None;
                    },
                };
                proof {
                    assert(holds_key(s[i as int], key));
                    assert(first_holding(s, key, i as int) == i);
                    assert(v == s[i as int].unwrap().1);
                    lemma_occupied_update(s, i as int, None);
                    lemma_occupied_positive(s, i as int);
                }
                self.entries.set(i, None);
                self.len = self.len - 1;
                return Some(v);
            }
            i = i + 1;
        }
        None
    }

    /// The number of occupied slots.
    pub fn len(&self) -> (r: usize)
        requires
            self.wf(),
        ensures
            r == occupied(self.slots()),
    {
        self.len
    }
}

} // verus!
