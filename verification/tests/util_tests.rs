use std::cmp::Ordering;

use fast_base_convert::utils::ParseError;
use fast_base_convert::{
    compare_digits, digits_to_string, is_power_of_two, log2_of_power_of_two, string_to_digits,
    trim_leading_zeros,
};

#[test]
fn test_is_power_of_two() {
    assert!(is_power_of_two(2));
    assert!(is_power_of_two(4));
    assert!(is_power_of_two(8));
    assert!(is_power_of_two(16));
    assert!(!is_power_of_two(3));
    assert!(!is_power_of_two(10));
    assert!(!is_power_of_two(12));
}

#[test]
fn test_log2_of_power_of_two() {
    assert_eq!(log2_of_power_of_two(2), 1);
    assert_eq!(log2_of_power_of_two(4), 2);
    assert_eq!(log2_of_power_of_two(8), 3);
    assert_eq!(log2_of_power_of_two(16), 4);
}

#[test]
fn test_digits_to_string() {
    let digits = vec![1, 0, 1, 1]; // 1101 in binary
    assert_eq!(digits_to_string(&digits, 2), "1101");

    let digits = vec![15, 15]; // 0xFF
    assert_eq!(digits_to_string(&digits, 16), "ff");
}

#[test]
fn test_string_to_digits() {
    let digits = string_to_digits("1101", 2).unwrap();
    assert_eq!(digits, vec![1, 0, 1, 1]);

    let digits = string_to_digits("ff", 16).unwrap();
    assert_eq!(digits, vec![15, 15]);
}

#[test]
fn test_compare_digits() {
    let a = vec![1, 2, 3]; // 321
    let b = vec![1, 2, 3]; // 321
    assert_eq!(compare_digits(&a, &b), Ordering::Equal);

    let a = vec![1, 2, 3]; // 321
    let b = vec![1, 2]; // 21
    assert_eq!(compare_digits(&a, &b), Ordering::Greater);

    let a = vec![1]; // 1
    let b = vec![9, 9]; // 99
    assert_eq!(compare_digits(&a, &b), Ordering::Less);
}

#[test]
fn test_trim_leading_zeros() {
    let digits = vec![0, 0, 1, 2, 3, 0, 0];
    let trimmed = trim_leading_zeros(&digits);
    assert_eq!(trimmed, &[0, 0, 1, 2, 3]);
}

#[test]
fn test_string_to_digits_empty() {
    assert_eq!(string_to_digits("", 10).unwrap(), vec![0]);
}

#[test]
fn test_string_to_digits_trims() {
    assert_eq!(string_to_digits("007", 10).unwrap(), vec![7]);
}

#[test]
fn test_string_to_digits_uppercase() {
    assert_eq!(string_to_digits("FF", 16).unwrap(), vec![15, 15]);
}

#[test]
fn test_string_to_digits_invalid_character() {
    assert_eq!(string_to_digits("12@4", 16), Err(ParseError::InvalidCharacter));
}

#[test]
fn test_string_to_digits_digit_out_of_range() {
    assert_eq!(string_to_digits("9", 8), Err(ParseError::DigitOutOfRange));
}

#[test]
fn test_digits_to_string_empty_is_zero() {
    let digits: Vec<u64> = vec![];
    assert_eq!(digits_to_string(&digits, 10), "0");
}

#[test]
fn test_compare_digits_ignores_leading_zeros() {
    let a = vec![1, 2, 3, 0, 0];
    let b = vec![1, 2, 3];
    assert_eq!(compare_digits(&a, &b), Ordering::Equal);
}

#[test]
fn test_trim_leading_zeros_keeps_one() {
    let digits = vec![0, 0, 0];
    assert_eq!(trim_leading_zeros(&digits), &[0]);
}
