use crust::helpers::{clamp_i32, rand_bits, rand_bool, rand_int, str_to_cstr, StackVec};

#[test]
fn lcg_sequence_from_fixed_seed() {
    let mut seed: u64 = 98765;
    assert_eq!(rand_bits(&mut seed), 4191725683);
    assert_eq!(seed, 18003324722958926858);
    assert_eq!(rand_bits(&mut seed), 2976567873);
    assert_eq!(rand_bits(&mut seed), 903209785);
    assert_eq!(seed, 3879256488413195848);
}

#[test]
fn lcg_runs_repeat() {
    let mut a: u64 = 12345;
    let mut b: u64 = 12345;
    let ra: Vec<u32> = (0..16).map(|_| rand_bits(&mut a)).collect();
    let rb: Vec<u32> = (0..16).map(|_| rand_bits(&mut b)).collect();
    assert_eq!(ra, rb);
    assert_eq!(a, b);
}

#[test]
fn lcg_from_zero() {
    let mut seed: u64 = 0;
    assert_eq!(rand_bits(&mut seed), 0);
    assert_eq!(seed, 1);
}

#[test]
fn rand_bool_and_int() {
    let mut seed: u64 = 98765;
    assert!(rand_bool(&mut seed));
    let mut seed: u64 = 98765;
    assert_eq!(rand_int(&mut seed, 0, 10), 9);
    let mut seed: u64 = 98765;
    assert_eq!(rand_int(&mut seed, 10, 0), 1);
    let mut seed: u64 = 98765;
    assert_eq!(rand_int(&mut seed, 5, 5), 5);
}

#[test]
fn clamp_values() {
    assert_eq!(clamp_i32(5, 0, 10), 5);
    assert_eq!(clamp_i32(-3, 0, 10), 0);
    assert_eq!(clamp_i32(30, 0, 10), 10);
    assert_eq!(clamp_i32(5, 10, 0), 0);
}

#[test]
fn cstr_fits_and_truncates() {
    let mut buf = [9u8; 8];
    assert_eq!(str_to_cstr("abc", &mut buf), 3);
    assert_eq!(buf, [b'a', b'b', b'c', 0, 9, 9, 9, 9]);
    let mut small = [9u8; 4];
    assert_eq!(str_to_cstr("hello", &mut small), 3);
    assert_eq!(small, [b'h', b'e', b'l', 0]);
}

#[test]
fn stack_vec_full_returns_value() {
    let mut v: StackVec<u32, 2> = StackVec::new();
    assert_eq!(v.push(1), Ok(()));
    assert_eq!(v.push(2), Ok(()));
    assert_eq!(v.push(3), Err(3));
    assert_eq!(v.len(), 2);
    assert_eq!(v.as_slice(), &[1, 2]);
    assert_eq!(v.pop(), Some(2));
    v.clear();
    assert!(v.is_empty());
    assert_eq!(v.pop(), None);
}
