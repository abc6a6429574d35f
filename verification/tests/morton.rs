use linear_octree::{Morton, MAX_LEVELS};

#[test]
fn byte_codes_have_two_levels() {
    assert_eq!(<u8 as Morton>::dim_bits(), 2);
    assert_eq!(0o35u8.get_level(0), 3);
    assert_eq!(0o35u8.get_level(1), 5);
    assert_eq!(0o70u8.get_level(0), 7);
    assert_eq!(0o70u8.get_level(1), 0);
}

#[test]
fn word_codes_have_twenty_one_levels() {
    assert_eq!(<u64 as Morton>::dim_bits(), 21);
    let code: u64 = (5 << 60) | (2 << 57) | 7;
    assert_eq!(code.get_level(0), 5);
    assert_eq!(code.get_level(1), 2);
    assert_eq!(code.get_level(2), 0);
    assert_eq!(code.get_level(19), 0);
    assert_eq!(code.get_level(20), 7);
}

#[test]
fn double_word_codes_have_forty_two_levels() {
    assert_eq!(<u128 as Morton>::dim_bits(), 42);
    assert_eq!(<u128 as Morton>::dim_bits(), MAX_LEVELS);
    let code: u128 = (6 << 123) | (1 << 120) | 4;
    assert_eq!(code.get_level(0), 6);
    assert_eq!(code.get_level(1), 1);
    assert_eq!(code.get_level(2), 0);
    assert_eq!(code.get_level(41), 4);
}

#[test]
fn every_digit_of_the_largest_code_is_seven() {
    let code: u64 = (1 << 63) - 1;
    assert!(code.is_valid());
    for level in 0..21 {
        assert_eq!(code.get_level(level), 7);
    }
}

#[test]
fn null_is_all_ones_and_is_no_code() {
    assert_eq!(<u8 as Morton>::null(), 0xff);
    assert_eq!(<u64 as Morton>::null(), u64::MAX);
    assert_eq!(<u128 as Morton>::null(), u128::MAX);
    assert!(<u8 as Morton>::null().is_null());
    assert!(<u64 as Morton>::null().is_null());
    assert!(<u128 as Morton>::null().is_null());
    assert!(!<u8 as Morton>::null().is_valid());
    assert!(!<u64 as Morton>::null().is_valid());
    assert!(!<u128 as Morton>::null().is_valid());
    assert!(!0u8.is_null());
    assert!(!0u64.is_null());
}

#[test]
fn codes_use_only_the_bits_of_their_digits() {
    assert!(0u8.is_valid());
    assert!(0o77u8.is_valid());
    assert!(!0o100u8.is_valid());
    assert!(((1u64 << 63) - 1).is_valid());
    assert!(!(1u64 << 63).is_valid());
    assert!(((1u128 << 126) - 1).is_valid());
    assert!(!(1u128 << 126).is_valid());
}
