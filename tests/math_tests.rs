use crust::math::{factorial, gcd, is_prime, isqrt, lcm, pow, Numeric};

#[test]
fn gcd_of_twelve_and_eighteen() {
    assert_eq!(gcd(12, 18), 6);
    assert_eq!(gcd(48, 18), 6);
    assert_eq!(gcd(7, 0), 7);
    assert_eq!(gcd(0, 9), 9);
}

#[test]
fn lcm_values() {
    assert_eq!(lcm(4, 6), 12);
    assert_eq!(lcm(0, 5), 0);
}

#[test]
fn isqrt_values() {
    assert_eq!(isqrt(0), 0);
    assert_eq!(isqrt(1), 1);
    assert_eq!(isqrt(15), 3);
    assert_eq!(isqrt(16), 4);
    assert_eq!(isqrt(u32::MAX), 65535);
}

#[test]
fn pow_values() {
    assert_eq!(pow(2, 10), 1024);
    assert_eq!(pow(7, 0), 1);
    assert_eq!(pow(0, 3), 0);
}

#[test]
fn factorial_values() {
    assert_eq!(factorial(0), Some(1));
    assert_eq!(factorial(5), Some(120));
    assert_eq!(factorial(20), Some(2432902008176640000));
    assert_eq!(factorial(21), None);
}

#[test]
fn primes_below_twenty() {
    let primes: Vec<u32> = (0..20).filter(|n| is_prime(*n)).collect();
    assert_eq!(primes, vec![2, 3, 5, 7, 11, 13, 17, 19]);
}

#[test]
fn prime_edge_cases() {
    assert!(!is_prime(25));
    assert!(!is_prime(49));
    assert!(is_prime(7919));
    assert!(is_prime(4294967291));
    assert!(!is_prime(u32::MAX));
}

#[test]
fn numeric_constants() {
    assert_eq!(<i32 as Numeric>::zero(), 0);
    assert_eq!(<i32 as Numeric>::one(), 1);
    assert_eq!(<u64 as Numeric>::from_u32(9), 9);
}
