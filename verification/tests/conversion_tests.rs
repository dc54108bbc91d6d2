use fast_base_convert::factor::{prime_factorization, FactorCache};
use fast_base_convert::optimized::{
    convert_aligned_bases, convert_base_with_cache, convert_from_u128,
    convert_general_optimized_tricks, convert_large_number_chunked,
    convert_power_of_two_optimized, find_aligned_exponents, select_strategy, try_convert_to_u128,
    Strategy,
};
use fast_base_convert::{convert_base, convert_base_auto, convert_base_baseline, ConvertError};

#[test]
fn test_same_base() {
    let input = vec![1, 2, 3];
    let output = convert_base_baseline(&input, 10, 10).unwrap();
    assert_eq!(output, input);
}

#[test]
fn test_zero() {
    let input = vec![0];
    let output = convert_base_baseline(&input, 10, 2).unwrap();
    assert_eq!(output, vec![0]);
}

#[test]
fn test_simple_case() {
    let input = vec![5, 5, 2]; // 255 in base 10
    let output = convert_base_baseline(&input, 10, 16).unwrap();
    assert_eq!(output, vec![15, 15]); // 0xFF in base 16
}

#[test]
fn test_binary_conversion() {
    let input = vec![3, 1]; // 13 in base 10
    let output = convert_base_baseline(&input, 10, 2).unwrap();
    assert_eq!(output, vec![1, 0, 1, 1]); // 1101 in binary
}

#[test]
fn test_reverse_conversion() {
    let input = vec![1, 0, 1, 1]; // 1101 in binary = 13
    let output = convert_base_baseline(&input, 2, 10).unwrap();
    assert_eq!(output, vec![3, 1]); // 13 in base 10
}

#[test]
fn test_large_number() {
    let input = vec![9, 9, 9, 9, 9]; // 99999 in base 10
    let output = convert_base_baseline(&input, 10, 16).unwrap();
    assert_eq!(output, vec![15, 9, 6, 8, 1]); // 0x1869F
}

#[test]
fn test_invalid_digit() {
    let input = vec![10]; // Invalid digit for base 10
    assert!(convert_base_baseline(&input, 10, 2).is_err());
}

#[test]
fn test_empty_input() {
    let input = vec![];
    let output = convert_base_baseline(&input, 10, 2).unwrap();
    assert_eq!(output, vec![0]);
}

#[test]
fn it_works() {
    let result = 2 + 2;
    assert_eq!(result, 4);
}

#[test]
fn test_power_of_two_conversion() {
    // 16 (2^4) to 8 (2^3)
    let input = vec![0xA, 0xB, 0xC]; // 0xCBA = 3258
    let result = convert_base(&input, 16, 8).unwrap();
    let baseline = convert_base_baseline(&input, 16, 8).unwrap();
    // Verify match with baseline
    assert_eq!(result, baseline);
    // 3258 = 2*8^0 + 7*8^1 + 2*8^2 + 6*8^3 = [2, 7, 2, 6]
    assert_eq!(result, vec![2, 7, 2, 6]);
}

#[test]
fn test_small_number_optimization() {
    // 12345 from base 10 to base 16
    let input = vec![5, 4, 3, 2, 1];
    let result = convert_base(&input, 10, 16).unwrap();
    let baseline = convert_base_baseline(&input, 10, 16).unwrap();
    // Verify match with baseline
    assert_eq!(result, baseline);
    // 12345 = 9 + 3*16 + 0*256 + 3*4096 = [9, 3, 0, 3]
    assert_eq!(result, vec![9, 3, 0, 3]);
}

#[test]
fn test_aligned_bases() {
    // 4^2 = 16, so convert from base 4 to base 16
    let input = vec![1, 2, 3, 0]; // 1*4^0 + 2*4^1 + 3*4^2 + 0*4^3 = 57
    let result = convert_base(&input, 4, 16).unwrap();
    let baseline = convert_base_baseline(&input, 4, 16).unwrap();
    // Verify match with baseline
    assert_eq!(result, baseline);
    // 57 = 9 + 3*16 = [9, 3]
    assert_eq!(result, vec![9, 3]);
}

#[test]
fn test_general_case() {
    // Convert between non-aligned bases
    let input = vec![9, 8, 7];
    let result = convert_base(&input, 10, 7).unwrap();
    // Verify with baseline
    let expected = convert_base_baseline(&input, 10, 7).unwrap();
    assert_eq!(result, expected);
}

#[test]
fn test_invalid_base_low() {
    assert_eq!(convert_base(&[0], 1, 10), Err(ConvertError::InvalidBase));
    assert_eq!(convert_base_baseline(&[0], 10, 1), Err(ConvertError::InvalidBase));
}

#[test]
fn test_invalid_base_high() {
    assert_eq!(convert_base(&[0], 65537, 10), Err(ConvertError::InvalidBase));
    assert_eq!(convert_base_auto(&[0], 2, 65537), Err(ConvertError::InvalidBase));
}

#[test]
fn test_invalid_digit_kind() {
    // a digit equal to the base is rejected, even with equal bases
    assert_eq!(convert_base(&[10], 10, 2), Err(ConvertError::InvalidDigit));
    assert_eq!(convert_base(&[10], 10, 10), Err(ConvertError::InvalidDigit));
    assert_eq!(convert_base_baseline(&[10], 10, 2), Err(ConvertError::InvalidDigit));
}

#[test]
fn test_canonical_zero_many_bases() {
    for to_base in [2u64, 3, 7, 16, 255, 65536] {
        assert_eq!(convert_base(&[0], 10, to_base).unwrap(), vec![0]);
        assert_eq!(convert_base_baseline(&[0], 10, to_base).unwrap(), vec![0]);
    }
}

#[test]
fn test_auto_matches_optimized() {
    let input = vec![7, 6, 5, 4];
    assert_eq!(
        convert_base_auto(&input, 8, 12).unwrap(),
        convert_base(&input, 8, 12).unwrap()
    );
}

#[test]
fn test_large_value_falls_back() {
    // 30 digits of base 7: too much for the fixed-width accumulator path
    let input: Vec<u64> = (0..30).map(|i| (i % 7) as u64).collect();
    let result = convert_base(&input, 7, 10).unwrap();
    let baseline = convert_base_baseline(&input, 7, 10).unwrap();
    assert_eq!(result, baseline);
}

#[test]
fn test_aligned_large_input() {
    // base 9 and 27 align through 3: 9^3 == 27^2, on an input too long
    // for the accumulator path
    let input: Vec<u64> = (0..40).map(|i| (i % 9) as u64).collect();
    let result = convert_base(&input, 9, 27).unwrap();
    let baseline = convert_base_baseline(&input, 9, 27).unwrap();
    assert_eq!(result, baseline);
}

#[test]
fn test_chunked_large_input_matches_baseline() {
    // long enough to take the block-structured division path
    let input: Vec<u64> = (0..2100).map(|i| (i * 7 % 10) as u64).collect();
    let result = convert_base(&input, 10, 2).unwrap();
    let baseline = convert_base_baseline(&input, 10, 2).unwrap();
    assert_eq!(result, baseline);
}

#[test]
fn test_select_strategy_priorities() {
    let mut cache = FactorCache::new();
    assert_eq!(select_strategy(16, 8, 100, &mut cache), Strategy::PowerOfTwo);
    assert_eq!(select_strategy(10, 7, 5, &mut cache), Strategy::SmallValue);
    assert_eq!(select_strategy(9, 27, 100, &mut cache), Strategy::AlignedBases(3, 2));
    assert_eq!(select_strategy(10, 7, 100, &mut cache), Strategy::General);
}

#[test]
fn test_power_of_two_strategy_agrees_with_reference() {
    let input = vec![5, 0, 31, 17];
    let direct = convert_power_of_two_optimized(&input, 32, 4);
    let reference = convert_base_baseline(&input, 32, 4).unwrap();
    assert_eq!(direct, reference);
}

#[test]
fn test_aligned_strategy_agrees_with_reference() {
    let input: Vec<u64> = (0..25).map(|i| (i % 9) as u64).collect();
    let direct = convert_aligned_bases(&input, 9, 27, 3, 2);
    let reference = convert_base_baseline(&input, 9, 27).unwrap();
    assert_eq!(direct, reference);
}

#[test]
fn test_general_strategy_agrees_with_reference() {
    let input = vec![3, 1, 4, 1, 5, 9, 2, 6];
    let direct = convert_general_optimized_tricks(&input, 10, 7);
    let reference = convert_base_baseline(&input, 10, 7).unwrap();
    assert_eq!(direct, reference);
}

#[test]
fn test_small_value_strategy_agrees_with_reference() {
    let input = vec![5, 4, 3, 2, 1];
    let value = try_convert_to_u128(&input, 10).unwrap();
    assert_eq!(value, 12345u128);
    let direct = convert_from_u128(value, 16);
    let reference = convert_base_baseline(&input, 10, 16).unwrap();
    assert_eq!(direct, reference);
}

#[test]
fn test_chunked_strategy_agrees_with_reference() {
    let input: Vec<u64> = (0..2050).map(|i| (i % 5) as u64).collect();
    let direct = convert_large_number_chunked(&input, 5, 3);
    let reference = convert_base_baseline(&input, 5, 3).unwrap();
    assert_eq!(direct, reference);
}

#[test]
fn test_find_aligned_exponents_minimal_pairs() {
    let mut cache = FactorCache::new();
    assert_eq!(find_aligned_exponents(9, 27, &mut cache), Some((3, 2)));
    assert_eq!(find_aligned_exponents(4, 16, &mut cache), Some((2, 1)));
    assert_eq!(find_aligned_exponents(3, 27, &mut cache), Some((3, 1)));
    assert_eq!(find_aligned_exponents(4, 64, &mut cache), Some((3, 1)));
    assert_eq!(find_aligned_exponents(6, 36, &mut cache), Some((2, 1)));
    assert_eq!(find_aligned_exponents(10, 7, &mut cache), None);
    assert_eq!(find_aligned_exponents(12, 18, &mut cache), None);
}

#[test]
fn test_convert_with_shared_cache() {
    // long enough to reach the aligned-base detector, which fills the cache
    let mut cache = FactorCache::new();
    let input: Vec<u64> = (0..25).map(|i| (i % 6) as u64).collect();
    let first = convert_base_with_cache(&input, 6, 36, &mut cache).unwrap();
    let second = convert_base_with_cache(&input, 6, 36, &mut cache).unwrap();
    assert_eq!(first, second);
    assert_eq!(first, convert_base_baseline(&input, 6, 36).unwrap());
}

#[test]
fn test_prime_factorization_values() {
    assert_eq!(prime_factorization(360), vec![(2, 3), (3, 2), (5, 1)]);
    assert_eq!(prime_factorization(65536), vec![(2, 16)]);
    assert_eq!(prime_factorization(97), vec![(97, 1)]);
    assert_eq!(prime_factorization(1), vec![]);
}

#[test]
fn test_factor_cache_repeated_queries() {
    let mut cache = FactorCache::new();
    let first = cache.get_factorization(360);
    let second = cache.get_factorization(360);
    assert_eq!(first, second);
    assert_eq!(first, vec![(2, 3), (3, 2), (5, 1)]);
}
