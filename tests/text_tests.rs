use crust::io::{Formatter, Writer};
use crust::text::String as FixedString;

#[test]
fn string_from_str_and_push() {
    let mut s: FixedString<16> = FixedString::from_str("hi").unwrap();
    s.push(' ').unwrap();
    s.push_str("there").unwrap();
    assert_eq!(s.as_str(), "hi there");
    assert_eq!(s.len(), 8);
    assert_eq!(s.capacity(), 16);
    s.clear();
    assert!(s.is_empty());
    assert_eq!(s.as_str(), "");
}

#[test]
fn string_multibyte_char() {
    let mut s: FixedString<9> = FixedString::new();
    s.push('é').unwrap();
    s.push('€').unwrap();
    s.push('😀').unwrap();
    assert_eq!(s.len(), 9);
    assert_eq!(s.as_str(), "é€😀");
}

#[test]
fn string_overflow_keeps_what_fits() {
    let mut s: FixedString<4> = FixedString::new();
    assert_eq!(s.push_str("abcdef"), Err("Capacity exceeded"));
    assert_eq!(s.as_str(), "abcd");
    assert!(FixedString::<2>::from_str("abc").is_err());
}

#[test]
fn string_cut_character_reads_empty() {
    let mut s: FixedString<3> = FixedString::new();
    s.push_str("ab").unwrap();
    assert!(s.push('é').is_err());
    assert_eq!(s.len(), 3);
    assert_eq!(s.as_str(), "");
}

#[test]
fn formatter_writes_and_refuses_overflow() {
    let mut f = Formatter::new(vec![0u8; 6]);
    assert!(f.write_str("ab").is_ok());
    assert!(f.write_char('ü').is_ok());
    assert_eq!(f.as_str(), "abü");
    assert!(f.write_str("xyz").is_err());
    assert_eq!(f.as_str(), "abü");
    f.clear();
    assert_eq!(f.as_str(), "");
    assert!(f.write_str("abcdef").is_ok());
    assert_eq!(f.as_str(), "abcdef");
}

#[test]
fn writer_builds() {
    let _w = Writer::new();
}
