use vstd::prelude::*;

verus! {

/// Pair `(a, b)` comes before pair `(c, d)` in scan order.
pub open spec fn pair_before(p: (usize, usize), q: (usize, usize)) -> bool {
    p.0 < q.0 || (p.0 == q.0 && p.1 < q.1)
}

/// Bodies `i` and `j` (with `i < j`) are tested against each other: at least
/// one of them can move.
pub open spec fn pair_tested(is_static: Seq<bool>, i: int, j: int) -> bool {
    0 <= i < j < is_static.len() && !(is_static[i] && is_static[j])
}

/// The pairs of bodies to test for collision in one substep, in scan order:
/// every `(i, j)` with `i < j` of which at least one body can move, each once.
/// Two static bodies are never paired.
pub fn collision_pairs(is_static: &[bool]) -> (r: Vec<(usize, usize)>)
    ensures
        forall|k: int| 0 <= k < r@.len() ==> pair_tested(is_static@, r@[k].0 as int, r@[k].1 as int),
        forall|k: int, l: int| 0 <= k < l < r@.len() ==> pair_before(r@[k], r@[l]),
        forall|i: int, j: int|
            pair_tested(is_static@, i, j) ==> exists|k: int|
                0 <= k < r@.len() && r@[k] == (i as usize, j as usize),
{
    let n = is_static.len();
    let mut r: Vec<(usize, usize)> = Vec::new();
    let mut i: usize = 0;
    while i < n
        invariant
            n == is_static@.len(),
            i <= n,
            forall|k: int| 0 <= k < r@.len() ==> pair_tested(is_static@, r@[k].0 as int, r@[k].1 as int),
            forall|k: int| 0 <= k < r@.len() ==> r@[k].0 < i,
            forall|k: int, l: int| 0 <= k < l < r@.len() ==> pair_before(r@[k], r@[l]),
            forall|a: int, b: int|
                pair_tested(is_static@, a, b) && a < i ==> exists|k: int|
                    0 <= k < r@.len() && r@[k] == (a as usize, b as usize),
        decreases n - i,
    {
        let mut j: usize = i + 1;
        while j < n
            invariant
                n == is_static@.len(),
                i < n,
                i + 1 <= j <= n,
                forall|k: int|
                    0 <= k < r@.len() ==> pair_tested(is_static@, r@[k].0 as int, r@[k].1 as int),
                forall|k: int|
                    0 <= k < r@.len() ==> r@[k].0 < i || (r@[k].0 == i && r@[k].1 < j),
                forall|k: int, l: int| 0 <= k < l < r@.len() ==> pair_before(r@[k], r@[l]),
                forall|a: int, b: int|
                    pair_tested(is_static@, a, b) && (a < i || (a == i && b < j)) ==> exists|k: int|
                        0 <= k < r@.len() && r@[k] == (a as usize, b as usize),
            decreases n - j,
        {
            if !(is_static[i] && is_static[j]) {
                let ghost before = r@;
                r.push((i, j));
                proof {
                    assert forall|a: int, b: int|
                        pair_tested(is_static@, a, b) && (a < i || (a == i && b < j + 1)) implies exists|k: int|
                            0 <= k < r@.len() && r@[k] == (a as usize, b as usize) by {
                        if a == i && b == j {
                            assert(r@[before.len() as int] == (a as usize, b as usize));
                        } else {
                            let k = choose|k: int| 0 <= k < before.len() && before[k] == (a as usize, b as usize);
                            assert(r@[k] == before[k]);
                        }
                    }
                }
            }
            j = j + 1;
        }
        i = i + 1;
    }
    r
}

/// The items of `s` whose flag in `keep` is set, in their order.
pub open spec fn kept<T>(s: Seq<T>, keep: Seq<bool>) -> Seq<T>
    decreases s.len(),
{
    if s.len() == 0 {
        Seq::empty()
    } else if keep.len() > 0 && keep[0] {
        seq![s[0]] + kept(s.drop_first(), keep.drop_first())
    } else {
        kept(s.drop_first(), keep.drop_first())
    }
}

/// Removes, after a substep, every item whose flag in `keep` is clear; the
/// others keep their order.
pub fn retain_marked<T>(items: &mut Vec<T>, keep: &[bool])
    requires
        old(items)@.len() == keep@.len(),
    ensures
        final(items)@ == kept(old(items)@, keep@),
{
    let ghost s = items@;
    let mut i: usize = items.len();
    proof {
        assert(s.subrange(i as int, s.len() as int) =~= Seq::<T>::empty());
    }
    while i > 0
        invariant
            s.len() == keep@.len(),
            i <= s.len(),
            items@ == s.subrange(0, i as int) + kept(
                s.subrange(i as int, s.len() as int),
                keep@.subrange(i as int, s.len() as int),
            ),
        decreases i,
    {
        i = i - 1;
        let ghost rest = kept(
            s.subrange(i + 1, s.len() as int),
            keep@.subrange(i + 1, s.len() as int),
        );
        proof {
            let t = s.subrange(i as int, s.len() as int);
            let k = keep@.subrange(i as int, s.len() as int);
            assert(t.drop_first() =~= s.subrange(i + 1, s.len() as int));
            assert(k.drop_first() =~= keep@.subrange(i + 1, s.len() as int));
            assert(s.subrange(0, i + 1) =~= s.subrange(0, i as int).push(s[i as int]));
        }
        if !keep[i] {
            items.remove(i);
            proof {
                assert(items@ =~= s.subrange(0, i as int) + rest);
            }
        } else {
            proof {
                assert(items@ =~= s.subrange(0, i as int) + (seq![s[i as int]] + rest));
            }
        }
    }
    proof {
        assert(s.subrange(0, s.len() as int) =~= s);
        assert(keep@.subrange(0, s.len() as int) =~= keep@);
        assert(items@ =~= kept(s, keep@));
    }
}

/// The body a pick grabs among those marked `eligible` (dynamic and under
/// the pointer): the newest one, that is the one of highest index.
pub fn pick_newest(eligible: &[bool]) -> (r: Option<usize>)
    ensures
        r matches Some(i) ==> i < eligible@.len() && eligible@[i as int] && forall|k: int|
            i < k < eligible@.len() ==> !eligible@[k],
        r is None ==> forall|k: int| 0 <= k < eligible@.len() ==> !eligible@[k],
{
    let mut i: usize = eligible.len();
    while i > 0
        invariant
            i <= eligible@.len(),
            forall|k: int| i <= k < eligible@.len() ==> !eligible@[k],
        decreases i,
    {
        i = i - 1;
        if eligible[i] {
            return Some(i);
        }
    }
    None
}

} // verus!
