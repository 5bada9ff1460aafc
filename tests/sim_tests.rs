use crust::color::palette_color;
use crust::sim::{collision_pairs, pick_newest, retain_marked};

#[test]
fn pairs_skip_two_static_bodies() {
    let pairs = collision_pairs(&[true, false, true]);
    assert_eq!(pairs, vec![(0, 1), (1, 2)]);
}

#[test]
fn pairs_all_dynamic() {
    let pairs = collision_pairs(&[false, false, false, false]);
    assert_eq!(pairs, vec![(0, 1), (0, 2), (0, 3), (1, 2), (1, 3), (2, 3)]);
}

#[test]
fn pairs_of_few_bodies() {
    assert!(collision_pairs(&[]).is_empty());
    assert!(collision_pairs(&[false]).is_empty());
    assert!(collision_pairs(&[true, true]).is_empty());
}

#[test]
fn retain_keeps_order() {
    let mut v = vec!["a", "b", "c", "d", "e"];
    retain_marked(&mut v, &[true, false, true, false, true]);
    assert_eq!(v, vec!["a", "c", "e"]);
}

#[test]
fn retain_none_and_all() {
    let mut v = vec![1, 2, 3];
    retain_marked(&mut v, &[true, true, true]);
    assert_eq!(v, vec![1, 2, 3]);
    retain_marked(&mut v, &[false, false, false]);
    assert!(v.is_empty());
}

#[test]
fn palette_choices() {
    assert_eq!(palette_color(0).r, 230);
    assert_eq!(palette_color(1).g, 228);
    assert_eq!(palette_color(2).b, 241);
    let o = palette_color(7);
    assert_eq!((o.r, o.g, o.b, o.a), (255, 161, 0, 255));
    assert_eq!(palette_color(-1), o);
}

#[test]
fn pick_prefers_newest() {
    assert_eq!(pick_newest(&[true, false, true, false]), Some(2));
    assert_eq!(pick_newest(&[false, false]), None);
    assert_eq!(pick_newest(&[]), None);
}
