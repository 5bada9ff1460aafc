use crust::algo::{binary_search, crc32, quicksort, run_length_decode, run_length_encode, simple_hash};

#[test]
fn quicksort_orders_values() {
    let mut v: Vec<u64> = vec![5, 3, 9, 1, 3, 8, 0, 7];
    quicksort(&mut v);
    assert_eq!(v, vec![0, 1, 3, 3, 5, 7, 8, 9]);
}

#[test]
fn quicksort_handles_empty_and_single() {
    let mut e: Vec<u64> = vec![];
    quicksort(&mut e);
    assert!(e.is_empty());
    let mut one: Vec<u64> = vec![42];
    quicksort(&mut one);
    assert_eq!(one, vec![42]);
}

#[test]
fn quicksort_reverse_input() {
    let mut v: Vec<u64> = (0..50).rev().collect();
    quicksort(&mut v);
    let expected: Vec<u64> = (0..50).collect();
    assert_eq!(v, expected);
}

#[test]
fn binary_search_finds_and_misses() {
    let v: Vec<u64> = vec![1, 3, 5, 7, 9, 11];
    assert_eq!(binary_search(&v, &7), Some(3));
    assert_eq!(binary_search(&v, &1), Some(0));
    assert_eq!(binary_search(&v, &11), Some(5));
    assert_eq!(binary_search(&v, &4), None);
    assert_eq!(binary_search(&v, &12), None);
    assert_eq!(binary_search(&[], &3), None);
}

#[test]
fn crc32_check_value() {
    assert_eq!(crc32(b"123456789"), 0xCBF4_3926);
    assert_eq!(crc32(b""), 0);
}

#[test]
fn fnv1a_values() {
    assert_eq!(simple_hash(b""), 14695981039346656037);
    assert_eq!(simple_hash(b"a"), 0xaf63_dc4c_8601_ec8c);
}

#[test]
fn rle_encodes_runs() {
    let r = run_length_encode(&[1, 1, 1, 2, 2, 3]);
    assert_eq!(r.as_slice(), &[3, 1, 2, 2, 1, 3]);
}

#[test]
fn rle_splits_long_runs() {
    let data = vec![7u8; 300];
    let r = run_length_encode(&data);
    assert_eq!(r.as_slice(), &[255, 7, 45, 7]);
}

#[test]
fn rle_encode_empty() {
    let r = run_length_encode(&[]);
    assert_eq!(r.len(), 0);
}

#[test]
fn rle_encode_truncates_at_capacity() {
    let data: Vec<u8> = (0..600u32).map(|i| (i % 2) as u8).collect();
    let r = run_length_encode(&data);
    assert_eq!(r.len(), 1024);
    assert_eq!(&r.as_slice()[..4], &[1, 0, 1, 1]);
}

#[test]
fn rle_round_trip() {
    let data = vec![4u8, 4, 4, 9, 1, 1];
    let enc = run_length_encode(&data);
    let dec = run_length_decode(enc.as_slice()).unwrap();
    assert_eq!(dec.as_slice(), data.as_slice());
}

#[test]
fn rle_decode_ignores_lone_byte() {
    let dec = run_length_decode(&[2, 5, 9]).unwrap();
    assert_eq!(dec.as_slice(), &[5, 5]);
}

#[test]
fn rle_decode_overflow_fails() {
    let data = [255u8, 1, 255, 1, 255, 1, 255, 1, 255, 1];
    assert_eq!(run_length_decode(&data).err(), Some("Capacity exceeded"));
}
