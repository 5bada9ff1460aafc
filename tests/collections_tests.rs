use crust::binary_heap::BinaryHeap;
use crust::fixed_vec;
use crust::probe_map;
use crust::slot_map;
use crust::slot_vec;

#[test]
fn fixed_vec_push_until_full() {
    let mut v: fixed_vec::Vec<u8, 3> = fixed_vec::Vec::new();
    assert_eq!(v.push(1), Ok(()));
    assert_eq!(v.push(2), Ok(()));
    assert_eq!(v.push(3), Ok(()));
    assert_eq!(v.push(4), Err("Capacity exceeded"));
    assert_eq!(v.len(), 3);
    assert_eq!(v.capacity(), 3);
    assert_eq!(v.get(1), Some(&2));
    assert_eq!(v.get(3), None);
    if let Some(x) = v.get_mut(0) {
        *x = 10;
    }
    assert_eq!(v.as_slice(), &[10, 2, 3]);
    assert_eq!(v.pop(), Some(3));
    v.clear();
    assert!(v.is_empty());
}

#[test]
fn slot_vec_to_array_pads_with_none() {
    let mut v: slot_vec::Vec<u32, 4> = slot_vec::Vec::new();
    v.push(7).unwrap();
    v.push(8).unwrap();
    assert_eq!(v.to_array(), vec![Some(7), Some(8), None, None]);
    assert_eq!(v.pop(), Some(8));
    assert_eq!(v.to_array(), vec![Some(7), None, None, None]);
}

#[test]
fn slot_vec_full() {
    let mut v: slot_vec::Vec<u32, 1> = slot_vec::Vec::new();
    assert_eq!(v.push(1), Ok(()));
    assert_eq!(v.push(2), Err("Vector full"));
    assert_eq!(v.get(0), Some(&1));
    assert_eq!(v.capacity(), 1);
}

#[test]
fn slot_map_insert_get_remove() {
    let mut m: slot_map::HashMap<u32, i64, 4> = slot_map::HashMap::new();
    assert_eq!(m.insert(5, 50), Ok(()));
    assert_eq!(m.insert(6, 60), Ok(()));
    assert_eq!(m.insert(5, 55), Ok(()));
    assert_eq!(m.len(), 2);
    assert_eq!(m.get(5), Some(&55));
    assert_eq!(m.get(7), None);
    assert_eq!(m.remove(5), Some(55));
    assert_eq!(m.remove(5), None);
    assert_eq!(m.len(), 1);
}

#[test]
fn slot_map_full() {
    let mut m: slot_map::HashMap<u32, u32, 2> = slot_map::HashMap::new();
    m.insert(1, 1).unwrap();
    m.insert(2, 2).unwrap();
    assert_eq!(m.insert(3, 3), Err("HashMap full"));
    assert_eq!(m.insert(1, 9), Err("HashMap full"));
}

#[test]
fn probe_map_insert_replace_get() {
    let mut m: probe_map::HashMap<&str, 4> = probe_map::HashMap::new();
    assert!(m.is_empty());
    assert_eq!(m.insert(1, "one"), Ok(None));
    assert_eq!(m.insert(5, "five"), Ok(None));
    assert_eq!(m.insert(9, "nine"), Ok(None));
    assert_eq!(m.get(&5), Some(&"five"));
    assert_eq!(m.get(&9), Some(&"nine"));
    assert_eq!(m.get(&13), None);
    assert_eq!(m.insert(5, "FIVE"), Ok(Some("five")));
    assert_eq!(m.get(&5), Some(&"FIVE"));
    assert_eq!(m.len(), 3);
}

#[test]
fn probe_map_wraps_and_fills() {
    let mut m: probe_map::HashMap<u8, 3> = probe_map::HashMap::new();
    assert_eq!(m.insert(2, 20), Ok(None));
    assert_eq!(m.insert(5, 50), Ok(None));
    assert_eq!(m.get(&5), Some(&50));
    assert_eq!(m.insert(8, 80), Ok(None));
    assert_eq!(m.insert(11, 110), Err("HashMap full"));
    assert_eq!(m.get(&8), Some(&80));
}

#[test]
fn heap_pops_largest_first() {
    let mut h: BinaryHeap<8> = BinaryHeap::new();
    for x in [5u64, 1, 9, 3, 9, 7] {
        h.push(x).unwrap();
    }
    assert_eq!(h.peek(), Some(&9));
    let mut out = vec![];
    while let Some(x) = h.pop() {
        out.push(x);
    }
    assert_eq!(out, vec![9, 9, 7, 5, 3, 1]);
    assert!(h.is_empty());
    assert_eq!(h.peek(), None);
}

#[test]
fn heap_full() {
    let mut h: BinaryHeap<2> = BinaryHeap::new();
    h.push(1).unwrap();
    h.push(2).unwrap();
    assert_eq!(h.push(3), Err("Heap full"));
    assert_eq!(h.len(), 2);
}
