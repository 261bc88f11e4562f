use bitbybit::hardware::Bit::{self, High, Low};
use bitbybit::utils::{bits_to_int, int_to_bits};

#[test]
fn test_empty_is_zero() {
    assert_eq!(bits_to_int(&[], false), 0);
}

#[test]
fn test_lsb_first_by_default() {
    assert_eq!(bits_to_int(&[High, Low, High], false), 5);
    assert_eq!(bits_to_int(&[High; 8], false), 255);
}

#[test]
fn test_msb_first() {
    assert_eq!(bits_to_int(&[High, Low, High], true), 0b101);
    assert_eq!(
        bits_to_int(&[Low, Low, Low, Low, High, Low, High, Low], true),
        0x0A
    );
}

#[test]
fn test_expands_lsb_first() {
    assert_eq!(
        int_to_bits(0b0000_1010),
        [
            Bit::Low,  // 2^0
            Bit::High, // 2^1
            Bit::Low,  // 2^2
            Bit::High, // 2^3
            Bit::Low,  // 2^4
            Bit::Low,  // 2^5
            Bit::Low,  // 2^6
            Bit::Low,  // 2^7
        ]
    );
}

#[test]
fn test_round_trip_with_bits_to_int() {
    for value in 0..=u8::MAX {
        assert_eq!(bits_to_int(&int_to_bits(value), false), value);
    }
}

#[test]
fn the_order_of_the_bits_matters() {
    assert_eq!(bits_to_int(&[High, High, Low], false), 3);
    assert_eq!(bits_to_int(&[High, High, Low], true), 6);
    assert_eq!(bits_to_int(&int_to_bits(0x81), true), 0x81);
    assert_eq!(int_to_bits(0x80)[7], High);
}
