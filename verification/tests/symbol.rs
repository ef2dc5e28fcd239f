//! The symbols of lengths and distances.

use noflate::symbol::{distance_to_symbol, length_to_symbol};

#[test]
fn length_corner_cases() {
    let s = length_to_symbol(3);
    assert_eq!(s.code, 257);
    assert_eq!(s.extra, None);

    let s = length_to_symbol(10);
    assert_eq!(s.code, 264);
    assert_eq!(s.extra, None);

    let s = length_to_symbol(11);
    assert_eq!(s.code, 265);
    assert_eq!(s.extra, Some((1, 0)));

    let s = length_to_symbol(12);
    assert_eq!(s.code, 265);
    assert_eq!(s.extra, Some((1, 1)));

    let s = length_to_symbol(258);
    assert_eq!(s.code, 285);
    assert_eq!(s.extra, None);
}

#[test]
fn distance_corner_cases() {
    let s = distance_to_symbol(1);
    assert_eq!(s.code, 0);
    assert_eq!(s.extra, None);

    let s = distance_to_symbol(5);
    assert_eq!(s.code, 4);
    assert_eq!(s.extra, Some((1, 0)));

    let s = distance_to_symbol(32768);
    assert_eq!(s.code, 29);
    assert_eq!(s.extra, Some((13, 32768 - 24577)));
}
