use vstd::prelude::*;

verus! {

/// Number types with the constants that generic numeric code starts from.
pub trait Numeric: Copy + PartialOrd {
    /// The number that a value stands for.
    spec fn value(self) -> int;

    /// Whether the type can hold `v`.
    spec fn holds(v: int) -> bool;

    fn zero() -> (r: Self)
        ensures
            r.value() == 0,
    ;

    fn one() -> (r: Self)
        ensures
            r.value() == 1,
    ;

    fn from_u32(n: u32) -> (r: Self)
        requires
            Self::holds(n as int),
        ensures
            r.value() == n,
    ;
}

impl Numeric for i32 {
    open spec fn value(self) -> int {
        self as int
    }

    open spec fn holds(v: int) -> bool {
        i32::MIN <= v <= i32::MAX
    }

    fn zero() -> (r: Self) {
        0
    }

    fn one() -> (r: Self) {
        1
    }

    fn from_u32(n: u32) -> (r: Self) {
        n as i32
    }
}

impl Numeric for u64 {
    open spec fn value(self) -> int {
        self as int
    }

    open spec fn holds(v: int) -> bool {
        0 <= v <= u64::MAX
    }

    fn zero() -> (r: Self) {
        0
    }

    fn one() -> (r: Self) {
        1
    }

    fn from_u32(n: u32) -> (r: Self) {
        n as u64
    }
}

/// The greatest common divisor by Euclid's rule: `gcd(a, 0) = a`,
/// `gcd(a, b) = gcd(b, a % b)`.
pub open spec fn spec_gcd(a: nat, b: nat) -> nat
    decreases b,
{
    if b == 0 {
        a
    } else {
        spec_gcd(b, a % b)
    }
}

/// Greatest common divisor.
pub fn gcd(a: u64, b: u64) -> (r: u64)
    ensures
        r == spec_gcd(a as nat, b as nat),
{
    let mut x = a;
    let mut y = b;
    while y != 0
        invariant
            spec_gcd(x as nat, y as nat) == spec_gcd(a as nat, b as nat),
        decreases y,
    {
        let temp = y;
        y = x % y;
        x = temp;
    }
    x
}

/// Least common multiple: `a * b / gcd(a, b)`.
pub fn lcm(a: u64, b: u64) -> (r: u64)
    requires
        a != 0 || b != 0,
        a * b <= u64::MAX,
    ensures
        r == (a * b) as nat / spec_gcd(a as nat, b as nat),
{
    let g = gcd(a, b);
    proof {
        lemma_gcd_zero(a as nat, b as nat);
    }
    (a * b) / g
}

proof fn lemma_gcd_zero(a: nat, b: nat)
    ensures
        spec_gcd(a, b) == 0 <==> a == 0 && b == 0,
    decreases b,
{
    if b != 0 {
        lemma_gcd_zero(b, a % b);
    }
}

/// `base` raised to `e`.
pub open spec fn spec_pow(base: int, e: nat) -> int
    decreases e,
{
    if e == 0 {
        1
    } else {
        base * spec_pow(base, (e - 1) as nat)
    }
}

proof fn lemma_pow_grows(base: int, e: nat, f: nat)
    requires
        base >= 1,
        e <= f,
    ensures
        1 <= spec_pow(base, e) <= spec_pow(base, f),
    decreases f,
{
    if f > 0 {
        let g = (f - 1) as nat;
        if e <= g {
            lemma_pow_grows(base, e, g);
        } else {
            lemma_pow_grows(base, g, g);
        }
        assert(spec_pow(base, g) <= base * spec_pow(base, g)) by (nonlinear_arith)
            requires
                base >= 1,
                spec_pow(base, g) >= 1,
        ;
    }
}

/// `base` raised to `exponent`, by repeated multiplication.
pub fn pow(base: u64, exponent: u32) -> (r: u64)
    requires
        spec_pow(base as int, exponent as nat) <= u64::MAX,
    ensures
        r == spec_pow(base as int, exponent as nat),
{
    if exponent == 0 {
        return 1;
    }
    let mut result = base;
    let mut i: u32 = 1;
    assert(spec_pow(base as int, 1) == base * spec_pow(base as int, 0));
    while i < exponent
        invariant
            1 <= i <= exponent,
            result == spec_pow(base as int, i as nat),
            spec_pow(base as int, exponent as nat) <= u64::MAX,
        decreases exponent - i,
    {
        proof {
            if base >= 1 {
                lemma_pow_grows(base as int, (i + 1) as nat, exponent as nat);
            } else {
                assert(spec_pow(base as int, (i + 1) as nat) == 0);
            }
        }
        proof {
            assert(result * base == base * spec_pow(base as int, i as nat)) by (nonlinear_arith)
                requires
                    result == spec_pow(base as int, i as nat),
            ;
        }
        result = result * base;
        i = i + 1;
    }
    result
}

/// `n!`.
pub open spec fn spec_factorial(n: nat) -> nat
    decreases n,
{
    if n == 0 {
        1
    } else {
        n * spec_factorial((n - 1) as nat)
    }
}

proof fn lemma_factorial_grows(m: nat, n: nat)
    requires
        m <= n,
    ensures
        1 <= spec_factorial(m) <= spec_factorial(n),
    decreases n,
{
    if n > 0 {
        let g = (n - 1) as nat;
        if m <= g {
            lemma_factorial_grows(m, g);
        } else {
            lemma_factorial_grows(g, g);
        }
        assert(spec_factorial(g) <= n * spec_factorial(g)) by (nonlinear_arith)
            requires
                n >= 1,
                spec_factorial(g) >= 1,
        ;
    }
}

/// `n!`, or `None` when it does not fit in a `u64`.
pub fn factorial(n: u32) -> (r: Option<u64>)
    ensures
        spec_factorial(n as nat) <= u64::MAX ==> r == Some(spec_factorial(n as nat) as u64),
        spec_factorial(n as nat) > u64::MAX ==> r is None,
{
    if n == 0 {
        return Some(1);
    }
    let mut result: u64 = 1;
    let mut i: u32 = 1;
    while i <= n
        invariant
            1 <= i,
            i <= n + 1,
            result == spec_factorial((i - 1) as nat),
        decreases n + 1 - i,
    {
        let ghost prev = result;
        proof {
            assert(spec_factorial(i as nat) == i as nat * spec_factorial((i - 1) as nat));
            assert(i as nat * prev as nat == prev as nat * i as nat) by (nonlinear_arith);
        }
        match result.checked_mul(i as u64) {
            Some(v) => {
                result = v;
            },
            None => {
                proof {
                    lemma_factorial_grows(i as nat, n as nat);
                }
                return None;
            },
        }
        if i == u32::MAX {
            return Some(result);
        }
        i = i + 1;
    }
    Some(result)
}

/// Whether `n` is prime: greater than one, with no divisor in `[2, n)`.
pub open spec fn spec_prime(n: nat) -> bool {
    n > 1 && forall|d: nat| 2 <= d < n ==> #[trigger] (n % d) != 0
}

proof fn lemma_divisor_of_divisor(n: nat, d: nat, k: nat)
    requires
        k > 0,
        d > 0,
        n % d == 0,
        d % k == 0,
    ensures
        n % k == 0,
{
    vstd::arithmetic::div_mod::lemma_fundamental_div_mod(n as int, d as int);
    vstd::arithmetic::div_mod::lemma_fundamental_div_mod(d as int, k as int);
    let q = n / d;
    let p = d / k;
    assert(n == k * (p * q)) by (nonlinear_arith)
        requires
            n == d * q,
            d == k * p,
    ;
    vstd::arithmetic::div_mod::lemma_mod_multiples_basic((p * q) as int, k as int);
}

proof fn lemma_small_cofactor(n: nat, d: nat, i: nat) -> (e: nat)
    requires
        0 < i <= d < n,
        n % d == 0,
        i * i > n,
    ensures
        2 <= e < i,
        n % e == 0,
{
    vstd::arithmetic::div_mod::lemma_fundamental_div_mod(n as int, d as int);
    let e = n / d;
    assert(n == d * e);
    assert(2 <= e < i) by (nonlinear_arith)
        requires
            n == d * e,
            0 < i <= d < n,
            i * i > n,
    ;
    assert(n == e * d) by (nonlinear_arith)
        requires
            n == d * e,
    ;
    vstd::arithmetic::div_mod::lemma_mod_multiples_basic(d as int, e as int);
    e
}

/// Trial division by 2, 3 and then the numbers `6k - 1`, `6k + 1` up to the
/// square root.
pub fn is_prime(n: u32) -> (r: bool)
    ensures
        r == spec_prime(n as nat),
{
    if n <= 1 {
        return false;
    }
    if n <= 3 {
        proof {
            assert(n == 2 || n as nat % 2 != 0);
        }
        return true;
    }
    if n % 2 == 0 || n % 3 == 0 {
        proof {
            assert(n as nat % 2 == 0 || n as nat % 3 == 0);
        }
        return false;
    }
    let m = n as u64;
    let mut i: u64 = 5;
    proof {
        assert forall|d: nat| 2 <= d < 5 implies #[trigger] (n as nat % d) != 0 by {
            if d == 4 && n as nat % d == 0 {
                lemma_divisor_of_divisor(n as nat, d, 2);
            }
        }
    }
    while i * i <= m
        invariant
            m == n as u64,
            5 <= i <= 65542,
            i * i <= 65542 * 65542,
            i % 6 == 5,
            m % 2 != 0,
            m % 3 != 0,
            forall|d: nat| 2 <= d < i ==> #[trigger] (n as nat % d) != 0,
        decreases 65542 - i,
    {
        if m % i == 0 || m % (i + 2) == 0 {
            proof {
                assert(i + 2 < m) by (nonlinear_arith)
                    requires
                        i * i <= m,
                        i >= 5,
                ;
                assert(n as nat % i as nat == 0 || n as nat % (i + 2) as nat == 0);
            }
            return false;
        }
        proof {
            assert forall|d: nat| 2 <= d < i + 6 implies #[trigger] (n as nat % d) != 0 by {
                if d >= i && n as nat % d == 0 {
                    if d == i + 1 || d == i + 3 || d == i + 5 {
                        lemma_divisor_of_divisor(n as nat, d, 2);
                    } else if d == i + 4 {
                        lemma_divisor_of_divisor(n as nat, d, 3);
                    }
                }
            }
            assert(i < 65536) by (nonlinear_arith)
                requires
                    i * i <= m,
                    m < 0x1_0000_0000,
            ;
            assert((i + 6) * (i + 6) <= 65542 * 65542) by (nonlinear_arith)
                requires
                    i < 65536,
            ;
        }
        i = i + 6;
    }
    proof {
        assert forall|d: nat| 2 <= d < n implies #[trigger] (n as nat % d) != 0 by {
            if d >= i && n as nat % d == 0 {
                let e = lemma_small_cofactor(n as nat, d, i as nat);
                assert(n as nat % e != 0);
            }
        }
    }
    true
}

proof fn lemma_newton_step_stays_above(n: int, x: int)
    requires
        n >= 1,
        x >= 1,
    ensures
        ((x + n / x) / 2 + 1) * ((x + n / x) / 2 + 1) > n,
{
    let q = n / x;
    let y = (x + q) / 2;
    vstd::arithmetic::div_mod::lemma_fundamental_div_mod(n, x);
    vstd::arithmetic::div_mod::lemma_mod_pos_bound(n, x);
    assert(n < x * (q + 1)) by (nonlinear_arith)
        requires
            n == x * q + n % x,
            n % x < x,
    ;
    assert(2 * (y + 1) >= x + q + 1);
    assert((y + 1) * (y + 1) > n) by (nonlinear_arith)
        requires
            2 * (y + 1) >= x + q + 1,
            n < x * (q + 1),
            x >= 1,
            q >= 0,
    ;
}

/// The integer square root of `n` by Newton's (Babylonian) iteration.
pub fn isqrt(n: u32) -> (r: u32)
    ensures
        r * r <= n,
        n < (r + 1) * (r + 1),
{
    if n == 0 {
        return 0;
    }
    let m = n as u64;
    let mut x: u64 = m;
    let mut y: u64 = (x + 1) / 2;
    proof {
        assert(m / m == 1) by (nonlinear_arith)
            requires
                m >= 1,
        ;
        assert((x + 1) * (x + 1) > m) by (nonlinear_arith)
            requires
                x == m,
        ;
    }
    while y < x
        invariant
            1 <= m <= u32::MAX,
            1 <= x <= m,
            y == (x + m / x) / 2,
            (x + 1) * (x + 1) > m,
        decreases x,
    {
        proof {
            lemma_newton_step_stays_above(m as int, x as int);
            assert(y >= 1) by (nonlinear_arith)
                requires
                    (y + 1) * (y + 1) > m,
                    m >= 1,
            ;
            assert(y + m / y <= 2 * m + 1) by (nonlinear_arith)
                requires
                    1 <= y <= m,
            ;
        }
        x = y;
        y = (x + m / x) / 2;
    }
    proof {
        vstd::arithmetic::div_mod::lemma_fundamental_div_mod(m as int, x as int);
        assert(x * x <= m) by (nonlinear_arith)
            requires
                (x + m / x) / 2 >= x,
                m == x * (m / x) + m % x,
                m % x >= 0,
                x >= 1,
        ;
    }
    x as u32
}

} // verus!
