use vstd::prelude::*;

verus! {

/// The slot at `d` steps after `h`, wrapping around `cap` slots.
pub open spec fn step(h: int, d: int, cap: int) -> int {
    if h + d < cap {
        h + d
    } else {
        h + d - cap
    }
}

/// The number of steps from slot `h` forward to slot `j`, wrapping around.
pub open spec fn dist(h: int, j: int, cap: int) -> int {
    if j >= h {
        j - h
    } else {
        j + cap - h
    }
}

/// Slot `j` holds key `k`.
pub open spec fn slot_has<V>(s: Seq<Option<(u64, V)>>, j: int, k: u64) -> bool {
    0 <= j < s.len() && s[j] is Some && s[j].unwrap().0 == k
}

/// The home slot of key `k` among `cap` slots.
pub open spec fn home(k: u64, cap: int) -> int {
    k as int % cap
}

/// A map of at most `CAP` entries with `u64` keys, in open addressing: a key
/// lives at its home slot `key % CAP` or at the first free slot after it.
pub struct HashMap<V, const CAP: usize> {
    entries: Vec<Option<(u64, V)>>,
    len: usize,
}

impl<V, const CAP: usize> HashMap<V, CAP> {
    pub closed spec fn slots(&self) -> Seq<Option<(u64, V)>> {
        self.entries@
    }

    /// Keys are unique, and every slot from a key's home up to the key's own
    /// slot is occupied.
    pub closed spec fn wf(&self) -> bool {
        let s = self.entries@;
        &&& s.len() == CAP
        &&& self.len as nat == crate::slot_map::occupied(s)
        &&& forall|i: int, j: int, k: u64| slot_has(s, i, k) && slot_has(s, j, k) ==> i == j
        &&& forall|j: int, k: u64, d: int|
            #![trigger slot_has(s, j, k), s[step(home(k, CAP as int), d, CAP as int)]]
            slot_has(s, j, k) && 0 <= d < dist(home(k, CAP as int), j, CAP as int) ==> s[step(
                home(k, CAP as int),
                d,
                CAP as int,
            )] is Some
    }

    /// The keys and their values.
    pub closed spec fn view(&self) -> Map<u64, V> {
        Map::new(
            |k: u64| exists|j: int| slot_has(self.entries@, j, k),
            |k: u64| self.entries@[choose|j: int| slot_has(self.entries@, j, k)].unwrap().1,
        )
    }

    pub fn new() -> (r: Self)
        ensures
            r.wf(),
            r@ == Map::<u64, V>::empty(),
    {
        let mut entries: Vec<Option<(u64, V)>> = Vec::new();
        let mut i: usize = 0;
        while i < CAP
            invariant
                i <= CAP,
                entries@.len() == i,
                forall|j: int| 0 <= j < i ==> entries@[j] is None,
                crate::slot_map::occupied(entries@) == 0,
            decreases CAP - i,
        {
            proof {
                assert(entries@.push(None).drop_last() =~= entries@);
            }
            entries.push(None);
            i = i + 1;
        }
        let r = HashMap { entries, len: 0 };
        proof {
            assert(r@ =~= Map::<u64, V>::empty());
        }
        r
    }

    /// The number of occupied slots: one per key.
    pub closed spec fn size(&self) -> nat {
        crate::slot_map::occupied(self.entries@)
    }

    /// The number of entries.
    pub fn len(&self) -> (r: usize)
        requires
            self.wf(),
        ensures
            r == self.size(),
    {
        self.len
    }

    pub fn is_empty(&self) -> (r: bool)
        requires
            self.wf(),
        ensures
            r == (self.size() == 0),
    {
        self.len == 0
    }

    /// The value stored under `key`, if any.
    pub fn get(&self, key: &u64) -> (r: Option<&V>)
        requires
            self.wf(),
        ensures
            self@.contains_key(*key) ==> r == Some(&self@[*key]),
            !self@.contains_key(*key) ==> r is None,
    {
        if CAP == 0 {
            return None;
        }
        let ghost s = self.entries@;
        let ghost cap = CAP as int;
        let h = (*key % (CAP as u64)) as usize;
        let mut idx = h;
        let mut d: usize = 0;
        while d < CAP
            invariant
                self.wf(),
                s == self.entries@,
                cap == CAP as int,
                CAP > 0,
                h == home(*key, cap),
                d <= CAP,
                idx < CAP,
                d < CAP ==> idx == step(h as int, d as int, cap),
                forall|e: int| 0 <= e < d ==> !slot_has(s, #[trigger] step(h as int, e, cap), *key),
            decreases CAP - d,
        {
            match &self.entries[idx] {
                None => {
                    proof {
                        if exists|j: int| slot_has(s, j, *key) {
                            let j = choose|j: int| slot_has(s, j, *key);
                            let dj = dist(h as int, j, cap);
                            assert(step(h as int, dj, cap) == j);
                            if dj < d {
                                assert(!slot_has(s, step(h as int, dj, cap), *key));
                            } else if dj > d {
                                assert(s[step(h as int, d as int, cap)] is Some);
                            }
                        }
                    }
                    return None;
                },
                Some((k, v)) => {
                    if *k == *key {
                        proof {
                            assert(slot_has(s, idx as int, *key));
                            let j = choose|j: int| slot_has(s, j, *key);
                            assert(j == idx);
                        }
                        return Some(v);
                    }
                },
            }
            idx = if idx + 1 == CAP {
                0
            } else {
                idx + 1
            };
            d = d + 1;
        }
        proof {
            if exists|j: int| slot_has(s, j, *key) {
                let j = choose|j: int| slot_has(s, j, *key);
                let dj = dist(h as int, j, cap);
                assert(step(h as int, dj, cap) == j);
                assert(!slot_has(s, step(h as int, dj, cap), *key));
            }
        }
        None
    }
    /// Stores `value` under `key`: replaces and returns the value already
    /// there, or fills the first free slot from the key's home. Fails with
    /// "HashMap full" when all `CAP` slots are taken, even for a key present.
    pub fn insert(&mut self, key: u64, value: V) -> (r: Result<Option<V>, &'static str>)
        requires
            old(self).wf(),
        ensures
            final(self).wf(),
            r is Ok <==> old(self).size() < CAP,
            r is Err ==> final(self)@ == old(self)@ && final(self).size() == old(self).size(),
            r is Ok ==> final(self)@ == old(self)@.insert(key, value),
            r is Ok && old(self)@.contains_key(key) ==> r == Ok::<Option<V>, &'static str>(
                Some(old(self)@[key]),
            ) && final(self).size() == old(self).size(),
            r is Ok && !old(self)@.contains_key(key) ==> r == Ok::<Option<V>, &'static str>(None)
                && final(self).size() == old(self).size() + 1,
    {
        if self.len >= CAP {
            return Err("HashMap full");
        }
        let ghost s = self.entries@;
        let ghost cap = CAP as int;
        let h = (key % (CAP as u64)) as usize;
        let mut idx = h;
        let mut d: usize = 0;
        while d < CAP
            invariant
                *self == *old(self),
                self.wf(),
                s == self.entries@,
                cap == CAP as int,
                self.len < CAP,
                h == home(key, cap),
                d <= CAP,
                idx < CAP,
                d < CAP ==> idx == step(h as int, d as int, cap),
                forall|e: int|
                    0 <= e < d ==> (#[trigger] s[step(h as int, e, cap)]) is Some && !slot_has(
                        s,
                        step(h as int, e, cap),
                        key,
                    ),
            decreases CAP - d,
        {
            let found = match &self.entries[idx] {
                None => false,
                Some((k, _)) => *k == key,
            };
            if found {
                let mut slot = Some((key, value));
                self.entries.set_and_swap(idx, &mut slot);
                proof {
                    crate::slot_map::lemma_occupied_update(s, idx as int, Some((key, value)));
                    let t = self.entries@;
                    assert(slot_has(s, idx as int, key));
                    assert forall|i: int, j: int, k: u64|
                        slot_has(t, i, k) && slot_has(t, j, k) implies i == j by {
                        assert(slot_has(s, i, k) && slot_has(s, j, k));
                    }
                    assert forall|j: int, k: u64, e: int|
                        slot_has(t, j, k) && 0 <= e < dist(home(k, cap), j, cap) implies t[step(
                            home(k, cap),
                            e,
                            cap,
                        )] is Some by {
                        assert(slot_has(s, j, k));
                        assert(s[step(home(k, cap), e, cap)] is Some);
                    }
                    self.lemma_view_after_put(s, idx as int, key, value);
                }
                return match slot {
                    Some((_, v)) => Ok(Some(v)),
                    None => Ok(None),
                };
            }
            if self.entries[idx].is_none() {
                self.entries.set(idx, Some((key, value)));
                self.len = self.len + 1;
                proof {
                    crate::slot_map::lemma_occupied_update(s, idx as int, Some((key, value)));
                    let t = self.entries@;
                    assert forall|j: int| !slot_has(s, j, key) by {
                        if slot_has(s, j, key) {
                            let dj = dist(h as int, j, cap);
                            assert(step(h as int, dj, cap) == j);
                            if dj < d {
                                assert(s[step(h as int, dj, cap)] is Some);
                            } else if dj > d {
                                assert(s[step(h as int, d as int, cap)] is Some);
                            }
                        }
                    }
                    assert forall|i: int, j: int, k: u64|
                        slot_has(t, i, k) && slot_has(t, j, k) implies i == j by {
                        if i != idx && j != idx {
                            assert(slot_has(s, i, k) && slot_has(s, j, k));
                        } else if i != idx {
                            assert(slot_has(s, i, key));
                        } else if j != idx {
                            assert(slot_has(s, j, key));
                        }
                    }
                    assert forall|j: int, k: u64, e: int|
                        slot_has(t, j, k) && 0 <= e < dist(home(k, cap), j, cap) implies t[step(
                            home(k, cap),
                            e,
                            cap,
                        )] is Some by {
                        if j == idx {
                            assert(k == key);
                            assert(s[step(h as int, e, cap)] is Some);
                        } else {
                            assert(slot_has(s, j, k));
                            assert(s[step(home(k, cap), e, cap)] is Some);
                        }
                    }
                    self.lemma_view_after_put(s, idx as int, key, value);
                }
                return Ok(None);
            }
            idx = if idx + 1 == CAP {
                0
            } else {
                idx + 1
            };
            d = d + 1;
        }
        proof {
            assert forall|j: int| 0 <= j < s.len() implies s[j] is Some by {
                let dj = dist(h as int, j, cap);
                assert(step(h as int, dj, cap) == j);
                assert(s[step(h as int, dj, cap)] is Some);
            }
            crate::slot_map::lemma_occupied_bound(s);
        }
        Err("No space available")
    }

    /// After slot `p` of `s` is set to `(key, value)`, where `p` held `key` or
    /// no key held a slot, the map is the old one with `key` set.
    proof fn lemma_view_after_put(&self, s: Seq<Option<(u64, V)>>, p: int, key: u64, value: V)
        requires
            self.wf(),
            0 <= p < s.len(),
            self.entries@ == s.update(p, Some((key, value))),
            slot_has(s, p, key) || (s[p] is None && forall|j: int| !slot_has(s, j, key)),
            forall|i: int, j: int, k: u64| slot_has(s, i, k) && slot_has(s, j, k) ==> i == j,
        ensures
            self@ == Map::new(
                |k: u64| exists|j: int| slot_has(s, j, k),
                |k: u64| s[choose|j: int| slot_has(s, j, k)].unwrap().1,
            ).insert(key, value),
    {
        let t = self.entries@;
        let old_map = Map::new(
            |k: u64| exists|j: int| slot_has(s, j, k),
            |k: u64| s[choose|j: int| slot_has(s, j, k)].unwrap().1,
        );
        assert(slot_has(t, p, key));
        assert forall|k: u64| #[trigger] self@.contains_key(k) == old_map.insert(key, value).contains_key(k) by {
            if k != key {
                if exists|j: int| slot_has(s, j, k) {
                    let j = choose|j: int| slot_has(s, j, k);
                    assert(j != p);
                    assert(slot_has(t, j, k));
                }
                if exists|j: int| slot_has(t, j, k) {
                    let j = choose|j: int| slot_has(t, j, k);
                    assert(slot_has(s, j, k));
                }
            }
        }
        assert forall|k: u64| #[trigger] self@.contains_key(k) implies self@[k] == old_map.insert(key, value)[k] by {
            let j = choose|j: int| slot_has(t, j, k);
            if k == key {
                assert(j == p);
            } else {
                assert(slot_has(s, j, k));
                let i = choose|i: int| slot_has(s, i, k);
                assert(i == j);
            }
        }
        assert(self@ =~= old_map.insert(key, value));
    }
}

} // verus!
