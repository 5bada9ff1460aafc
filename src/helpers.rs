use vstd::prelude::*;
use vstd::string::StringSliceAdditionalSpecFns;

verus! {

/// The multiplier of the linear congruential generator.
pub const LCG_MULTIPLIER: u64 = 6364136223846793005;

/// The seed that follows `seed`: `seed * 6364136223846793005 + 1` modulo 2^64.
pub open spec fn lcg_next(seed: u64) -> u64 {
    ((seed as nat * LCG_MULTIPLIER as nat + 1) % 0x1_0000_0000_0000_0000nat) as u64
}

/// The draw that a seed gives: its high 32 bits.
pub open spec fn draw_of(seed: u64) -> u32 {
    (seed as nat / 0x1_0000_0000nat) as u32
}

/// The seed after `n` steps from `seed`.
pub open spec fn lcg_iter(seed: u64, n: nat) -> u64
    decreases n,
{
    if n == 0 {
        seed
    } else {
        lcg_next(lcg_iter(seed, (n - 1) as nat))
    }
}

/// Advances the generator one step and returns the high 32 bits of the new
/// seed. Read as a fraction of 2^32 this is a draw in `[0, 1)`.
pub fn rand_bits(seed: &mut u64) -> (r: u32)
    ensures
        *final(seed) == lcg_next(*old(seed)),
        r == draw_of(*final(seed)),
{
    let m = seed.wrapping_mul(LCG_MULTIPLIER);
    let next = m.wrapping_add(1);
    proof {
        lemma_lcg_step(*old(seed), m);
    }
    *seed = next;
    let hi = next >> 32;
    proof {
        assert(hi == next / 0x1_0000_0000) by (bit_vector)
            requires
                hi == next >> 32,
        ;
    }
    hi as u32
}

proof fn lemma_lcg_step(seed: u64, m: u64)
    requires
        m == vstd::wrapping::u64_specs::wrapping_mul(seed, LCG_MULTIPLIER),
    ensures
        vstd::wrapping::u64_specs::wrapping_add(m, 1) == lcg_next(seed),
{
    let x = seed as nat * LCG_MULTIPLIER as nat;
    let r = 0x1_0000_0000_0000_0000int;
    vstd::arithmetic::div_mod::lemma_add_mod_noop(x as int, 1, r);
    vstd::arithmetic::div_mod::lemma_small_mod(1, r as nat);
    if m < 0xffff_ffff_ffff_ffff {
        vstd::arithmetic::div_mod::lemma_small_mod((m + 1) as nat, r as nat);
    } else {
        vstd::arithmetic::div_mod::lemma_mod_self_0(r);
    }
}

/// Replaying the generator: two runs that start from the same seed stand at
/// the same seed after the same number of steps, so they give the same
/// draws; and a run resumed from the seed reached after one step goes on
/// exactly as the first run.
pub proof fn lemma_lcg_replay(a: u64, b: u64, n: nat)
    requires
        a == b,
    ensures
        lcg_iter(a, n) == lcg_iter(b, n),
        draw_of(lcg_iter(a, n)) == draw_of(lcg_iter(b, n)),
        lcg_iter(a, n + 1) == lcg_iter(lcg_next(a), n),
    decreases n,
{
    assert(lcg_iter(a, n + 1) == lcg_next(lcg_iter(a, n)));
    if n > 0 {
        lemma_lcg_replay(a, b, (n - 1) as nat);
        assert(lcg_iter(lcg_next(a), n) == lcg_next(lcg_iter(lcg_next(a), (n - 1) as nat)));
    }
}

/// A coin flip: true when the draw, taken as a single-precision fraction of
/// 2^32, exceeds one half. Draws up to 2^31 + 128 round to exactly one half,
/// so the flip is true just above that.
pub fn rand_bool(seed: &mut u64) -> (r: bool)
    ensures
        *final(seed) == lcg_next(*old(seed)),
        r == (draw_of(*final(seed)) > 0x8000_0080),
{
    rand_bits(seed) > 0x8000_0080
}

/// The offset that a draw selects in a range of signed width `d`: the draw's
/// fraction of 2^32 times `d`, rounded toward zero.
pub open spec fn scaled_draw(draw: u32, d: int) -> int {
    if d >= 0 {
        (draw as int * d) / 0x1_0000_0000
    } else {
        -((draw as int * -d) / 0x1_0000_0000)
    }
}

/// A number between `min` (included) and `max` (excluded when they differ):
/// `min` plus the draw's fraction of `max - min`, rounded toward zero.
pub fn rand_int(seed: &mut u64, min: i32, max: i32) -> (r: i32)
    requires
        i32::MIN <= max - min <= i32::MAX,
    ensures
        *final(seed) == lcg_next(*old(seed)),
        r == min + scaled_draw(draw_of(*final(seed)), max - min),
{
    let draw = rand_bits(seed) as u64;
    if max >= min {
        let d = (max as i64 - min as i64) as u64;
        proof {
            assert(draw * d <= 0xffff_ffff * 0x7fff_ffff) by (nonlinear_arith)
                requires
                    draw <= 0xffff_ffff,
                    d <= 0x7fff_ffff,
            ;
            assert((draw * d) / 0x1_0000_0000 <= d) by (nonlinear_arith)
                requires
                    draw <= 0xffff_ffff,
                    d <= 0x7fff_ffff,
            ;
        }
        let p = draw * d;
        let off = p >> 32;
        proof {
            assert(off == p / 0x1_0000_0000) by (bit_vector)
                requires
                    off == p >> 32,
            ;
        }
        (min as i64 + off as i64) as i32
    } else {
        let d = (min as i64 - max as i64) as u64;
        proof {
            assert(draw * d <= 0xffff_ffff * 0x8000_0000) by (nonlinear_arith)
                requires
                    draw <= 0xffff_ffff,
                    d <= 0x8000_0000,
            ;
            assert((draw * d) / 0x1_0000_0000 <= d) by (nonlinear_arith)
                requires
                    draw <= 0xffff_ffff,
                    d <= 0x8000_0000,
            ;
        }
        let p = draw * d;
        let off = p >> 32;
        proof {
            assert(off == p / 0x1_0000_0000) by (bit_vector)
                requires
                    off == p >> 32,
            ;
        }
        (min as i64 - off as i64) as i32
    }
}

/// `v` raised to at least `min`, then lowered to at most `max`.
pub fn clamp_i32(v: i32, min: i32, max: i32) -> (r: i32)
    ensures
        r == (if v < min {
            if min > max {
                max
            } else {
                min
            }
        } else if v > max {
            max
        } else {
            v
        }),
{
    let lo = if v < min {
        min
    } else {
        v
    };
    if lo > max {
        max
    } else {
        lo
    }
}

/// Copies as much of `s` as fits into `buf` with room for a terminating zero
/// byte, writes that zero, and returns the number of bytes copied (the
/// position of the zero).
pub fn str_to_cstr<const N: usize>(s: &str, buf: &mut [u8; N]) -> (r: usize)
    requires
        N >= 1,
    ensures
        r == if s.spec_bytes().len() < N - 1 {
            s.spec_bytes().len()
        } else {
            (N - 1) as nat
        },
        final(buf)@ == s.spec_bytes().take(r as int) + seq![0u8] + old(buf)@.skip(r + 1),
{
    let bytes = s.as_bytes();
    let len = if bytes.len() < N - 1 {
        bytes.len()
    } else {
        N - 1
    };
    let mut i: usize = 0;
    while i < len
        invariant
            len < N,
            len <= bytes@.len(),
            bytes@ == s.spec_bytes(),
            i <= len,
            buf@.len() == N,
            buf@ == bytes@.take(i as int) + old(buf)@.skip(i as int),
        decreases len - i,
    {
        buf[i] = bytes[i];
        proof {
            assert(buf@ =~= bytes@.take(i + 1) + old(buf)@.skip(i + 1));
        }
        i = i + 1;
    }
    buf[len] = 0;
    proof {
        assert(buf@ =~= bytes@.take(len as int) + seq![0u8] + old(buf)@.skip(len + 1));
    }
    len
}

/// A vector of at most `N` items; a push beyond that
/// hands the value back.
pub struct StackVec<T, const N: usize> {
    data: std::vec::Vec<T>,
}

impl<T, const N: usize> View for StackVec<T, N> {
    type V = Seq<T>;

    closed spec fn view(&self) -> Seq<T> {
        self.data@
    }
}

impl<T, const N: usize> StackVec<T, N> {
    /// The length never exceeds `N`.
    pub open spec fn wf(&self) -> bool {
        self@.len() <= N
    }

    pub fn new() -> (r: Self)
        ensures
            r.wf(),
            r@ == Seq::<T>::empty(),
    {
        StackVec { data: std::vec::Vec::new() }
    }

    /// Appends `value`, or returns it in `Err` when the vector is full.
    pub fn push(&mut self, value: T) -> (r: Result<(), T>)
        requires
            old(self).wf(),
        ensures
            final(self).wf(),
            old(self)@.len() < N ==> r is Ok && final(self)@ == old(self)@.push(value),
            old(self)@.len() >= N ==> r == Err::<(), T>(value) && final(self)@ == old(self)@,
    {
        if self.data.len() < N {
            self.data.push(value);
            Ok(())
        } else {
            Err(value)
        }
    }

    /// Removes and returns the last item, if any.
    pub fn pop(&mut self) -> (r: Option<T>)
        requires
            old(self).wf(),
        ensures
            final(self).wf(),
            old(self)@.len() == 0 ==> r is None && final(self)@ == old(self)@,
            old(self)@.len() > 0 ==> r == Some(old(self)@.last()) && final(self)@ == old(
                self,
            )@.drop_last(),
    {
        self.data.pop()
    }

    pub fn len(&self) -> (r: usize)
        ensures
            r == self@.len(),
    {
        self.data.len()
    }

    pub fn is_empty(&self) -> (r: bool)
        ensures
            r == (self@.len() == 0),
    {
        self.data.len() == 0
    }

    /// Drops every item, last first.
    pub fn clear(&mut self)
        requires
            old(self).wf(),
        ensures
            final(self).wf(),
            final(self)@ == Seq::<T>::empty(),
    {
        while self.pop().is_some()
            invariant
                self.wf(),
            decreases self@.len(),
        {
        }
    }

    /// The items, in order.
    pub fn as_slice(&self) -> (r: &[T])
        ensures
            r@ == self@,
    {
        self.data.as_slice()
    }
}

/// An allocator that hands out no memory, for targets that must name one.
pub struct DummyAllocator;

} // verus!
