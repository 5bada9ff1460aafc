use vstd::prelude::*;

verus! {

broadcast use vstd::seq_lib::group_to_multiset_ensures;

/// Whether `s` is in non-decreasing order.
pub open spec fn sorted(s: Seq<u64>) -> bool {
    forall|i: int, j: int| 0 <= i <= j < s.len() ==> s[i] <= s[j]
}

/// Looks for `target` by halving `[left, right)`: an index that holds it, or
/// `None`. On a sorted slice `None` means that no element equals `target`.
pub fn binary_search(slice: &[u64], target: &u64) -> (r: Option<usize>)
    ensures
        r matches Some(i) ==> i < slice@.len() && slice@[i as int] == *target,
        sorted(slice@) ==> (r is None <==> !slice@.contains(*target)),
{
    let mut left: usize = 0;
    let mut right: usize = slice.len();
    while left < right
        invariant
            left <= right <= slice@.len(),
            sorted(slice@) ==> forall|i: int| 0 <= i < left ==> slice@[i] < *target,
            sorted(slice@) ==> forall|i: int| right <= i < slice@.len() ==> slice@[i] > *target,
        decreases right - left,
    {
        let mid = left + (right - left) / 2;
        if slice[mid] == *target {
            return Some(mid);
        } else if slice[mid] < *target {
            left = mid + 1;
        } else {
            right = mid;
        }
    }
    proof {
        if sorted(slice@) && slice@.contains(*target) {
            let k = choose|k: int| 0 <= k < slice@.len() && slice@[k] == *target;
            assert(slice@[k] == *target);
        }
    }
    None
}

/// One shift of the bitwise CRC-32 register, with the reflected polynomial.
pub open spec fn crc_shift(c: u32) -> u32 {
    if c & 1 != 0 {
        (c >> 1) ^ 0xEDB88320u32
    } else {
        c >> 1
    }
}

/// `n` shifts of the register.
pub open spec fn crc_shifts(c: u32, n: nat) -> u32
    decreases n,
{
    if n == 0 {
        c
    } else {
        crc_shift(crc_shifts(c, (n - 1) as nat))
    }
}

/// The register after the bytes of `data`, starting from all ones.
pub open spec fn crc_register(data: Seq<u8>) -> u32
    decreases data.len(),
{
    if data.len() == 0 {
        0xFFFF_FFFFu32
    } else {
        crc_shifts(crc_register(data.drop_last()) ^ (data.last() as u32), 8)
    }
}

/// The CRC-32 checksum of `data` (reflected polynomial 0xEDB88320, initial
/// value and final xor all ones).
pub fn crc32(data: &[u8]) -> (r: u32)
    ensures
        r == !crc_register(data@),
{
    let mut crc: u32 = 0xFFFF_FFFF;
    let mut i: usize = 0;
    while i < data.len()
        invariant
            i <= data@.len(),
            crc == crc_register(data@.subrange(0, i as int)),
        decreases data@.len() - i,
    {
        let start = crc ^ (data[i] as u32);
        crc = start;
        let mut k: u32 = 0;
        while k < 8
            invariant
                k <= 8,
                crc == crc_shifts(start, k as nat),
            decreases 8 - k,
        {
            if crc & 1 != 0 {
                crc = (crc >> 1) ^ 0xEDB88320u32;
            } else {
                crc = crc >> 1;
            }
            k = k + 1;
        }
        proof {
            let p = data@.subrange(0, i + 1);
            assert(p.drop_last() =~= data@.subrange(0, i as int));
        }
        i = i + 1;
    }
    proof {
        assert(data@.subrange(0, data@.len() as int) =~= data@);
    }
    !crc
}

/// The FNV-1a offset basis.
pub const FNV_OFFSET: u64 = 14695981039346656037;

/// The FNV-1a prime.
pub const FNV_PRIME: u64 = 1099511628211;

/// The 64-bit FNV-1a hash of `data`: for each byte, xor it in, then multiply
/// by the prime modulo 2^64.
pub open spec fn fnv1a(data: Seq<u8>) -> u64
    decreases data.len(),
{
    if data.len() == 0 {
        FNV_OFFSET
    } else {
        vstd::wrapping::u64_specs::wrapping_mul(
            fnv1a(data.drop_last()) ^ (data.last() as u64),
            FNV_PRIME,
        )
    }
}

/// The 64-bit FNV-1a hash of `data`.
pub fn simple_hash(data: &[u8]) -> (r: u64)
    ensures
        r == fnv1a(data@),
{
    let mut hash: u64 = FNV_OFFSET;
    let mut i: usize = 0;
    while i < data.len()
        invariant
            i <= data@.len(),
            hash == fnv1a(data@.subrange(0, i as int)),
        decreases data@.len() - i,
    {
        hash = hash ^ (data[i] as u64);
        hash = hash.wrapping_mul(FNV_PRIME);
        proof {
            assert(data@.subrange(0, i + 1).drop_last() =~= data@.subrange(0, i as int));
        }
        i = i + 1;
    }
    proof {
        assert(data@.subrange(0, data@.len() as int) =~= data@);
    }
    hash
}

/// The length of the run that opens `d`, counted on from `k` while the bytes
/// equal `b`, at most 255.
pub open spec fn run_from(d: Seq<u8>, b: u8, k: nat) -> nat
    decreases 255 - k,
{
    if k < d.len() && d[k as int] == b && k < 255 {
        run_from(d, b, k + 1)
    } else {
        k
    }
}

/// The length of the first run of `d` (equal bytes, at most 255).
pub open spec fn first_run(d: Seq<u8>) -> nat {
    run_from(d, d[0], 1)
}

proof fn lemma_run_bounds(d: Seq<u8>, b: u8, k: nat)
    requires
        1 <= k <= 255,
        k <= d.len(),
    ensures
        k <= run_from(d, b, k) <= 255,
        run_from(d, b, k) <= d.len(),
    decreases 255 - k,
{
    if k < d.len() && d[k as int] == b && k < 255 {
        lemma_run_bounds(d, b, k + 1);
    }
}

/// The run-length encoding of `d`: for each maximal run of equal bytes, cut
/// into pieces of at most 255, the count and then the byte.
pub open spec fn rle(d: Seq<u8>) -> Seq<u8>
    decreases d.len(),
{
    if d.len() == 0 {
        Seq::empty()
    } else {
        let c = first_run(d);
        if 1 <= c <= d.len() {
            seq![c as u8, d[0]] + rle(d.subrange(c as int, d.len() as int))
        } else {
            Seq::empty()
        }
    }
}

/// The first `n` items of `s`, or all of them when there are fewer.
pub open spec fn truncated(s: Seq<u8>, n: nat) -> Seq<u8> {
    if s.len() <= n {
        s
    } else {
        s.take(n as int)
    }
}

/// The capacity of the buffers of the run-length codec.
pub const RLE_CAPACITY: usize = 1024;

/// Run-length encodes `data` into pairs (count, byte). Output that does not
/// fit in the buffer's 1024 bytes is dropped: whole pairs only.
pub fn run_length_encode(data: &[u8]) -> (r: crate::fixed_vec::Vec<u8, 1024>)
    ensures
        r.wf(),
        r@ == truncated(rle(data@), 1024),
{
    let mut result: crate::fixed_vec::Vec<u8, 1024> = crate::fixed_vec::Vec::new();
    let ghost mut full: Seq<u8> = Seq::empty();
    let mut i: usize = 0;
    proof {
        assert(data@.subrange(0, data@.len() as int) =~= data@);
    }
    while i < data.len()
        invariant
            i <= data@.len(),
            result.wf(),
            full.len() % 2 == 0,
            result@ == truncated(full, 1024),
            full + rle(data@.subrange(i as int, data@.len() as int)) == rle(data@),
        decreases data@.len() - i,
    {
        let ghost suffix = data@.subrange(i as int, data@.len() as int);
        let byte = data[i];
        let mut count: usize = 1;
        while count < data.len() - i && data[i + count] == byte && count < 255
            invariant
                i < data@.len(),
                1 <= count <= 255,
                i + count <= data@.len(),
                suffix == data@.subrange(i as int, data@.len() as int),
                byte == suffix[0],
                run_from(suffix, byte, count as nat) == first_run(suffix),
            decreases 255 - count,
        {
            count = count + 1;
        }
        proof {
            assert(run_from(suffix, byte, count as nat) == count);
            assert(suffix.subrange(count as int, suffix.len() as int) =~= data@.subrange(
                (i + count) as int,
                data@.len() as int,
            ));
            assert(full + seq![count as u8, byte] + rle(
                data@.subrange((i + count) as int, data@.len() as int),
            ) =~= full + rle(suffix));
        }
        let _ = result.push(count as u8);
        let _ = result.push(byte);
        proof {
            let nf = full + seq![count as u8, byte];
            if full.len() <= 1022 {
                assert(result@ =~= truncated(nf, 1024));
            } else {
                assert(truncated(nf, 1024) =~= truncated(full, 1024));
            }
            full = nf;
        }
        i = i + count;
    }
    proof {
        assert(data@.subrange(i as int, data@.len() as int) =~= Seq::<u8>::empty());
        assert(full + Seq::<u8>::empty() =~= full);
    }
    result
}

/// The bytes that the pairs (count, byte) of `d` stand for; a lone last byte
/// is ignored.
pub open spec fn rld(d: Seq<u8>) -> Seq<u8>
    decreases d.len(),
{
    if d.len() < 2 {
        Seq::empty()
    } else {
        Seq::new(d[0] as nat, |_k: int| d[1]) + rld(d.subrange(2, d.len() as int))
    }
}

/// Expands pairs (count, byte). Fails with "Capacity exceeded" when the
/// result would not fit in 1024 bytes.
pub fn run_length_decode(data: &[u8]) -> (r: Result<crate::fixed_vec::Vec<u8, 1024>, &'static str>)
    ensures
        r is Ok <==> rld(data@).len() <= 1024,
        r matches Ok(v) ==> v@ == rld(data@) && v.wf(),
{
    let mut result: crate::fixed_vec::Vec<u8, 1024> = crate::fixed_vec::Vec::new();
    let mut i: usize = 0;
    proof {
        assert(data@.subrange(0, data@.len() as int) =~= data@);
    }
    while data.len() - i > 1
        invariant
            i <= data@.len(),
            result.wf(),
            result@ + rld(data@.subrange(i as int, data@.len() as int)) == rld(data@),
        decreases data@.len() - i,
    {
        let ghost suffix = data@.subrange(i as int, data@.len() as int);
        let ghost before = result@;
        let count = data[i] as usize;
        let byte = data[i + 1];
        let ghost run = Seq::new(count as nat, |_k: int| byte);
        proof {
            assert(suffix.subrange(2, suffix.len() as int) =~= data@.subrange(
                i + 2,
                data@.len() as int,
            ));
        }
        let mut k: usize = 0;
        while k < count
            invariant
                i + 1 < data@.len(),
                suffix == data@.subrange(i as int, data@.len() as int),
                count == data@[i as int],
                byte == data@[i + 1],
                before + rld(suffix) == rld(data@),
                k <= count,
                result.wf(),
                result@ == before + run.take(k as int),
                run.len() == count,
                forall|m: int| 0 <= m < count ==> run[m] == byte,
            decreases count - k,
        {
            let pushed = result.push(byte);
            if pushed.is_err() {
                proof {
                    let rest = rld(data@.subrange(i + 2, data@.len() as int));
                    assert(suffix.subrange(2, suffix.len() as int) =~= data@.subrange(
                        i + 2,
                        data@.len() as int,
                    ));
                    assert(rld(suffix) == run + rest);
                    assert(rld(data@) == before + run + rest);
                    assert((before + run + rest).len() > 1024);
                }
                return Err("Capacity exceeded");
            }
            proof {
                assert(run.take(k + 1) =~= run.take(k as int).push(byte));
            }
            k = k + 1;
        }
        proof {
            assert(run.take(count as int) =~= run);
            assert(rld(suffix) == run + rld(data@.subrange(i + 2, data@.len() as int)));
            assert(before + rld(suffix) =~= result@ + rld(data@.subrange(i + 2, data@.len() as int)));
        }
        i = i + 2;
    }
    proof {
        assert(rld(data@.subrange(i as int, data@.len() as int)) =~= Seq::<u8>::empty());
        assert(result@ + Seq::<u8>::empty() =~= result@);
    }
    Ok(result)
}

proof fn lemma_run_is_uniform(d: Seq<u8>, b: u8, k: nat)
    requires
        1 <= k <= 255,
        k <= d.len(),
        forall|i: int| 0 < i < k ==> d[i] == b,
    ensures
        forall|i: int| 0 < i < run_from(d, b, k) ==> d[i] == b,
    decreases 255 - k,
{
    if k < d.len() && d[k as int] == b && k < 255 {
        lemma_run_is_uniform(d, b, k + 1);
    }
}

/// Decoding the run-length encoding of any data gives the data back; so
/// does decoding what `run_length_encode` returns whenever the encoding fits
/// in its buffer.
pub proof fn lemma_rle_round_trip(d: Seq<u8>)
    ensures
        rld(rle(d)) == d,
        rle(d).len() <= 1024 ==> rld(truncated(rle(d), 1024)) == d,
    decreases d.len(),
{
    if d.len() > 0 {
        let c = first_run(d);
        lemma_run_bounds(d, d[0], 1);
        lemma_run_is_uniform(d, d[0], 1);
        let rest = d.subrange(c as int, d.len() as int);
        lemma_rle_round_trip(rest);
        let e = seq![c as u8, d[0]] + rle(rest);
        assert(e.subrange(2, e.len() as int) =~= rle(rest));
        assert(rld(e) == Seq::new(c, |_k: int| d[0]) + rld(rle(rest)));
        assert(Seq::new(c, |_k: int| d[0]) + rest =~= d);
    }
}

/// Exchanging two items keeps the multiset of a sequence.
pub proof fn lemma_swap_multiset(s: Seq<u64>, i: int, j: int)
    requires
        0 <= i < s.len(),
        0 <= j < s.len(),
    ensures
        s.update(i, s[j]).update(j, s[i]).to_multiset() == s.to_multiset(),
{
    let t = s.update(i, s[j]);
    vstd::seq_lib::to_multiset_update(s, i, s[j]);
    vstd::seq_lib::to_multiset_update(t, j, s[i]);
    if i == j {
        assert(t =~= s);
        assert(t.update(j, s[i]) =~= s);
    } else {
        assert(t[j] == s[j]);
        let m = s.to_multiset();
        assert(m.count(s[i]) > 0);
        assert(m.count(s[j]) > 0);
        assert(m.insert(s[j]).remove(s[i]).insert(s[i]).remove(s[j]) =~= m);
    }
}

/// Every item of `a` is at most `v` when `a` holds the same items as `b` and
/// every item of `b` is at most `v`; likewise for "greater than".
proof fn lemma_bounds_carry(a: Seq<u64>, b: Seq<u64>, v: u64)
    requires
        a.to_multiset() == b.to_multiset(),
    ensures
        (forall|k: int| 0 <= k < b.len() ==> b[k] <= v) ==> (forall|k: int|
            0 <= k < a.len() ==> a[k] <= v),
        (forall|k: int| 0 <= k < b.len() ==> b[k] > v) ==> (forall|k: int|
            0 <= k < a.len() ==> a[k] > v),
{
    assert forall|k: int| 0 <= k < a.len() implies b.contains(#[trigger] a[k]) by {
        vstd::seq_lib::to_multiset_contains(a, a[k]);
        vstd::seq_lib::to_multiset_contains(b, a[k]);
        assert(a.contains(a[k]));
    }
}

/// Exchanges the items at `i` and `j`.
fn swap_items(s: &mut [u64], i: usize, j: usize)
    requires
        i < old(s)@.len(),
        j < old(s)@.len(),
    ensures
        final(s)@ == old(s)@.update(i as int, old(s)@[j as int]).update(j as int, old(s)@[i as int]),
{
    let a = s[i];
    let b = s[j];
    s[i] = b;
    s[j] = a;
}

/// Exchanging `i` and `j` inside `[lo, hi)` keeps the items of that range.
proof fn lemma_swap_in_range(s: Seq<u64>, lo: int, hi: int, i: int, j: int)
    requires
        0 <= lo <= i < hi <= s.len(),
        lo <= j < hi,
    ensures
        s.update(i, s[j]).update(j, s[i]).subrange(lo, hi).to_multiset() == s.subrange(
            lo,
            hi,
        ).to_multiset(),
{
    let r = s.subrange(lo, hi);
    assert(s.update(i, s[j]).update(j, s[i]).subrange(lo, hi) =~= r.update(i - lo, r[j - lo]).update(
        j - lo,
        r[i - lo],
    ));
    lemma_swap_multiset(r, i - lo, j - lo);
}

/// Lomuto partition of `[lo, hi)` around its middle item: returns where the
/// pivot ends, with items at most the pivot before it and greater items after.
fn partition(s: &mut [u64], lo: usize, hi: usize) -> (p: usize)
    requires
        lo + 2 <= hi <= old(s)@.len(),
    ensures
        final(s)@.len() == old(s)@.len(),
        lo <= p < hi,
        forall|k: int| 0 <= k < lo || hi <= k < old(s)@.len() ==> final(s)@[k] == old(s)@[k],
        final(s)@.subrange(lo as int, hi as int).to_multiset() == old(s)@.subrange(
            lo as int,
            hi as int,
        ).to_multiset(),
        forall|k: int| lo <= k < p ==> final(s)@[k] <= final(s)@[p as int],
        forall|k: int| p < k < hi ==> final(s)@[k] > final(s)@[p as int],
{
    let ghost orig = s@;
    let last = hi - 1;
    let mid = lo + (hi - lo) / 2;
    proof {
        lemma_swap_in_range(s@, lo as int, hi as int, mid as int, last as int);
    }
    swap_items(s, mid, last);
    let mut i: usize = lo;
    let mut j: usize = lo;
    while j < last
        invariant
            lo <= i <= j <= last,
            last == hi - 1,
            hi <= s@.len(),
            s@.len() == orig.len(),
            forall|k: int| 0 <= k < lo || hi <= k < orig.len() ==> s@[k] == orig[k],
            s@.subrange(lo as int, hi as int).to_multiset() == orig.subrange(
                lo as int,
                hi as int,
            ).to_multiset(),
            forall|k: int| lo <= k < i ==> s@[k] <= s@[last as int],
            forall|k: int| i <= k < j ==> s@[k] > s@[last as int],
        decreases last - j,
    {
        if s[j] <= s[last] {
            proof {
                lemma_swap_in_range(s@, lo as int, hi as int, i as int, j as int);
            }
            swap_items(s, i, j);
            i = i + 1;
        }
        j = j + 1;
    }
    proof {
        lemma_swap_in_range(s@, lo as int, hi as int, i as int, last as int);
    }
    swap_items(s, i, last);
    i
}

/// Sorts `[lo, hi)` in place and leaves the rest alone.
fn sort_range(s: &mut [u64], lo: usize, hi: usize)
    requires
        lo <= hi <= old(s)@.len(),
    ensures
        final(s)@.len() == old(s)@.len(),
        forall|k: int| 0 <= k < lo || hi <= k < old(s)@.len() ==> final(s)@[k] == old(s)@[k],
        final(s)@.subrange(lo as int, hi as int).to_multiset() == old(s)@.subrange(
            lo as int,
            hi as int,
        ).to_multiset(),
        sorted(final(s)@.subrange(lo as int, hi as int)),
    decreases hi - lo,
{
    if hi - lo <= 1 {
        return;
    }
    let ghost s0 = s@;
    let p = partition(s, lo, hi);
    let ghost s1 = s@;
    sort_range(s, lo, p);
    let ghost s2 = s@;
    sort_range(s, p + 1, hi);
    let ghost s3 = s@;
    proof {
        let pv = s1[p as int];
        assert(s2[p as int] == pv);
        assert(s3[p as int] == pv);
        lemma_bounds_carry(s2.subrange(lo as int, p as int), s1.subrange(lo as int, p as int), pv);
        lemma_bounds_carry(s3.subrange(p + 1, hi as int), s2.subrange(p + 1, hi as int), pv);
        assert(s3.subrange(lo as int, p as int) =~= s2.subrange(lo as int, p as int));
        assert(s2.subrange(p + 1, hi as int) =~= s1.subrange(p + 1, hi as int));
        let left = s3.subrange(lo as int, p as int);
        let right = s3.subrange(p + 1, hi as int);
        assert forall|k: int| lo <= k < p implies s3[k] <= pv by {
            assert(left[k - lo] == s3[k]);
        }
        assert forall|k: int| p < k < hi implies s3[k] > pv by {
            assert(right[k - p - 1] == s3[k]);
        }
        assert forall|a: int, b: int| lo <= a <= b < hi implies s3[a] <= s3[b] by {
            if a < p && b < p {
                assert(left[a - lo] <= left[b - lo]);
            } else if a > p && b > p {
                assert(right[a - p - 1] <= right[b - p - 1]);
            }
        }
        let whole3 = s3.subrange(lo as int, hi as int);
        let whole1 = s1.subrange(lo as int, hi as int);
        assert(whole3 =~= left + seq![pv] + right);
        assert(whole1 =~= s1.subrange(lo as int, p as int) + seq![pv] + s1.subrange(p + 1, hi as int));
        vstd::seq_lib::lemma_multiset_commutative(left + seq![pv], right);
        vstd::seq_lib::lemma_multiset_commutative(left, seq![pv]);
        vstd::seq_lib::lemma_multiset_commutative(
            s1.subrange(lo as int, p as int) + seq![pv],
            s1.subrange(p + 1, hi as int),
        );
        vstd::seq_lib::lemma_multiset_commutative(s1.subrange(lo as int, p as int), seq![pv]);
        assert(s2.subrange(lo as int, p as int) == left);
        assert(s3.subrange(p + 1, hi as int) == right);
    }
}

/// Sorts `slice` in place, in non-decreasing order.
pub fn quicksort(slice: &mut [u64])
    ensures
        sorted(final(slice)@),
        final(slice)@.to_multiset() == old(slice)@.to_multiset(),
{
    let n = slice.len();
    sort_range(slice, 0, n);
    proof {
        assert(slice@.subrange(0, n as int) =~= slice@);
        assert(old(slice)@.subrange(0, n as int) =~= old(slice)@);
    }
}

} // verus!
