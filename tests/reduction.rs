use ecma_number::{prefer_round_down, remove_trailing_zeros, rotr64};

fn reduce(significand: u64, exponent: i32) -> (u64, i32) {
    let mut s = significand;
    let mut e = exponent;
    remove_trailing_zeros(&mut s, &mut e);
    (s, e)
}

#[test]
fn tie_prefers_lower_for_odd_significand() {
    assert!(prefer_round_down(1));
    assert!(prefer_round_down(0x1F_FFFF_FFFF_FFFF));
    assert!(prefer_round_down(4503599627370497));
}

#[test]
fn tie_prefers_higher_for_even_significand() {
    assert!(!prefer_round_down(0));
    assert!(!prefer_round_down(2));
    assert!(!prefer_round_down(4503599627370496));
}

#[test]
fn reduction_removes_all_zeros() {
    assert_eq!(reduce(1000, 0), (1, 3));
    assert_eq!(reduce(700000000, -3), (7, 5));
    assert_eq!(reduce(123450, -10), (12345, -9));
    assert_eq!(reduce(99999999999999990, 0), (9999999999999999, 1));
    assert_eq!(reduce(1500000000000000, 3), (15, 17));
}

#[test]
fn reduction_leaves_nonzero_end_alone() {
    assert_eq!(reduce(12345, 7), (12345, 7));
    assert_eq!(reduce(1, -324), (1, -324));
    assert_eq!(reduce(99999999999999999, 0), (99999999999999999, 0));
}

#[test]
fn reduction_stops_at_fifteen_zeros() {
    assert_eq!(reduce(1_000_000_000_000_000, 0), (1, 15));
    assert_eq!(reduce(10_000_000_000_000_000, 0), (10, 15));
    assert_eq!(reduce(20_000_000_000_000_000, -3), (20, 12));
}

#[test]
fn rotation_moves_low_bits_to_the_top() {
    assert_eq!(rotr64(1, 1), 1u64 << 63);
    assert_eq!(rotr64(0x100, 8), 1);
    assert_eq!(rotr64(0x1234, 0), 0x1234);
    assert_eq!(rotr64(0x1234, 64), 0x1234);
    assert_eq!(rotr64(0xF, 4), 0xF000_0000_0000_0000);
    assert_eq!(rotr64(0x8000_0000_0000_0001, 65), 0xC000_0000_0000_0000);
}
