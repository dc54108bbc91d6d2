//! The optimized converter: a strategy selector and four execution paths,
//! each proved to deliver the canonical digit sequence of the input's value.

use vstd::prelude::*;
use vstd::arithmetic::power::pow;
use vstd::arithmetic::power2::pow2;

use crate::baseline::div_pass;
use crate::digits::{
    converted, digits_below, is_canonical, lemma_value_lower, lemma_value_msd_reverse,
    lemma_value_nonneg, lemma_value_push, lemma_value_single, lemma_value_skip_step,
    lemma_value_split, lemma_zero_like, lemma_trim_shape, lemma_trim_value, no_leading_zero,
    seq_value, seq_value_msd, valid_base, MAX_BASE, MIN_BASE,
};
use crate::factor::{
    lemma_distinct_prime_records_separate_powers, record_has_prime, FactorCache,
};
use crate::utils::{is_power_of_two, log2_of_power_of_two, power_of_two, trim_in_place};
use crate::{convert_post, ConvertError};

verus! {

/// Largest digit count for which the fixed-width accumulator fast path is
/// attempted at all.
pub const SMALL_VALUE_DIGIT_CAP: usize = 20;

/// Read the whole input into one `u128`, scanning from the most significant
/// digit, giving up rather than overflowing.
pub fn try_convert_to_u128(digits: &[u64], base: u64) -> (r: Option<u128>)
    requires
        valid_base(base),
        digits_below(digits@, base as int),
    ensures
        match r {
            Some(v) => v as int == seq_value(digits@, base as int) && digits@.len()
                <= SMALL_VALUE_DIGIT_CAP,
            None => digits@.len() > SMALL_VALUE_DIGIT_CAP || seq_value(digits@, base as int)
                > u128::MAX,
        },
{
    let ghost bi = base as int;
    if digits.len() > SMALL_VALUE_DIGIT_CAP {
        return None;
    }
    let mut result: u128 = 0;
    let base_u128 = base as u128;
    let n = digits.len();
    let mut j: usize = n;
    proof {
        assert(digits@.skip(n as int) =~= Seq::<u64>::empty());
    }
    while j > 0
        invariant
            j <= n,
            n == digits@.len(),
            valid_base(base),
            bi == base as int,
            base_u128 == base as u128,
            digits_below(digits@, bi),
            result as int == seq_value(digits@.skip(j as int), bi),
        decreases j,
    {
        let d = digits[j - 1];
        let ghost old_result = result as int;
        if result > u128::MAX / base_u128 {
            proof {
                assert(old_result * bi >= (u128::MAX / base_u128 + 1) * bi) by {
                    vstd::arithmetic::mul::lemma_mul_inequality(
                        (u128::MAX / base_u128) as int + 1,
                        old_result,
                        bi,
                    );
                }
                assert((u128::MAX / base_u128 + 1) * bi > u128::MAX) by {
                    vstd::arithmetic::div_mod::lemma_fundamental_div_mod(u128::MAX as int, bi);
                    vstd::arithmetic::mul::lemma_mul_is_distributive_add_other_way(
                        bi,
                        (u128::MAX / base_u128) as int,
                        1,
                    );
                    vstd::arithmetic::mul::lemma_mul_is_commutative(
                        (u128::MAX / base_u128) as int,
                        bi,
                    );
                    vstd::arithmetic::div_mod::lemma_mod_division_less_than_divisor(
                        u128::MAX as int,
                        bi,
                    );
                }
                assert(old_result * bi + d > u128::MAX);
                lemma_value_skip_step(digits@, bi, j as int - 1);
                assert(d + bi * old_result == old_result * bi + d) by {
                    vstd::arithmetic::mul::lemma_mul_is_commutative(old_result, bi);
                }
                lemma_accumulator_overflow(digits@, bi, j as int - 1, old_result * bi + d);
            }
            return None;
        }
        proof {
            assert(result * base_u128 <= (u128::MAX / base_u128) * base_u128 <= u128::MAX) by {
                vstd::arithmetic::mul::lemma_mul_inequality(
                    result as int,
                    (u128::MAX / base_u128) as int,
                    bi,
                );
                vstd::arithmetic::div_mod::lemma_fundamental_div_mod(u128::MAX as int, bi);
                vstd::arithmetic::div_mod::lemma_mod_division_less_than_divisor(
                    u128::MAX as int,
                    bi,
                );
                vstd::arithmetic::mul::lemma_mul_is_commutative(
                    (u128::MAX / base_u128) as int,
                    bi,
                );
            }
        }
        result = result * base_u128;
        if result > u128::MAX - d as u128 {
            proof {
                lemma_value_skip_step(digits@, bi, j as int - 1);
                assert(d + bi * old_result == old_result * bi + d) by {
                    vstd::arithmetic::mul::lemma_mul_is_commutative(old_result, bi);
                }
                lemma_accumulator_overflow(digits@, bi, j as int - 1, old_result * bi + d);
            }
            return None;
        }
        result = result + d as u128;
        j = j - 1;
        proof {
            lemma_value_skip_step(digits@, bi, j as int);
            assert(result as int == digits@[j as int] + bi * old_result) by {
                vstd::arithmetic::mul::lemma_mul_is_commutative(old_result, bi);
            }
        }
    }
    proof {
        assert(digits@.skip(0) =~= digits@);
    }
    Some(result)
}

/// If the most significant digits starting at position `j` are already worth
/// more than a bound, the whole sequence is too.
proof fn lemma_accumulator_overflow(s: Seq<u64>, base: int, j: int, high: int)
    requires
        base >= 2,
        0 <= j <= s.len(),
        seq_value(s.skip(j), base) == high,
        high > u128::MAX,
    ensures
        seq_value(s, base) > u128::MAX,
{
    lemma_value_split(s, base, j);
    lemma_value_nonneg(s.take(j), base);
    vstd::arithmetic::power::lemma_pow_positive(base, j as nat);
    let p = pow(base, j as nat);
    assert(p * high >= 1 * high) by {
        vstd::arithmetic::mul::lemma_mul_inequality(1, p, high);
        vstd::arithmetic::mul::lemma_mul_is_commutative(p, high);
    }
}

/// Emit the digits of a machine-width value in `base`, least significant
/// first, by repeated remainder and quotient.
pub fn convert_from_u128(num: u128, base: u64) -> (out: Vec<u64>)
    requires
        valid_base(base),
    ensures
        is_canonical(out@),
        digits_below(out@, base as int),
        seq_value(out@, base as int) == num as int,
{
    let ghost bi = base as int;
    let ghost target = num as int;
    if num == 0 {
        let mut zero: Vec<u64> = Vec::new();
        zero.push(0);
        proof {
            lemma_value_single(zero@, bi);
        }
        return zero;
    }
    let base_u128 = base as u128;
    let mut n = num;
    let mut out: Vec<u64> = Vec::new();
    proof {
        vstd::arithmetic::power::lemma_pow0(bi);
        vstd::arithmetic::mul::lemma_mul_basics(num as int);
    }
    while n > 0
        invariant
            valid_base(base),
            bi == base as int,
            base_u128 == base as u128,
            digits_below(out@, bi),
            seq_value(out@, bi) + n as int * pow(bi, out@.len() as nat) == target,
            n == 0 ==> out@.len() > 0 && out@.last() != 0,
            n > 0 || out@.len() > 0,
        decreases n,
    {
        let d = (n % base_u128) as u64;
        let ghost old_n = n as int;
        let ghost old_out = out@;
        n = n / base_u128;
        out.push(d);
        proof {
            let len = old_out.len() as nat;
            lemma_value_push(old_out, bi, d);
            vstd::arithmetic::div_mod::lemma_fundamental_div_mod(old_n, bi);
            vstd::arithmetic::div_mod::lemma_div_decreases(old_n, bi);
            assert(n as int == old_n / bi);
            assert(d as int == old_n % bi);
            assert(pow(bi, len + 1) == bi * pow(bi, len)) by {
                vstd::arithmetic::power::lemma_pow_adds(bi, 1, len);
                vstd::arithmetic::power::lemma_pow1(bi);
            }
            let q = n as int;
            let p = pow(bi, len);
            assert(q * (bi * p) == (q * bi) * p) by {
                vstd::arithmetic::mul::lemma_mul_is_associative(q, bi, p);
            }
            assert((q * bi) * p + d * p == (q * bi + d) * p) by {
                vstd::arithmetic::mul::lemma_mul_is_distributive_add_other_way(p, q * bi, d as int);
            }
            assert(q * bi == bi * q) by {
                vstd::arithmetic::mul::lemma_mul_is_commutative(q, bi);
            }
            if n == 0 {
                assert(old_n == bi * (old_n / bi) + old_n % bi);
                assert(old_n / bi == 0);
                assert(bi * (old_n / bi) == 0) by {
                    vstd::arithmetic::mul::lemma_mul_by_zero_is_zero(bi);
                }
                assert(d as int == old_n);
            }
        }
    }
    proof {
        vstd::arithmetic::mul::lemma_mul_basics(pow(bi, out@.len() as nat));
    }
    out
}

/// Powers of two compose: `(2^s)^e == 2^(s*e)`.
proof fn lemma_pow_of_pow2(s: nat, e: nat)
    ensures
        pow(pow2(s) as int, e) == pow2(s * e),
{
    vstd::arithmetic::power2::lemma_pow2(s);
    vstd::arithmetic::power2::lemma_pow2(s * e);
    vstd::arithmetic::power::lemma_pow_multiplies(2, s, e);
}

/// A valid base that is a power of two is `2^s` for some `s` in `[1, 16]`.
proof fn lemma_base_shift_range(base: u64, s: u32)
    requires
        valid_base(base),
        base == pow2(s as nat),
    ensures
        1 <= s <= 16,
{
    vstd::arithmetic::power2::lemma2_to64();
    if s == 0 {
        assert(base == 1);
    }
    if s > 16 {
        vstd::arithmetic::power2::lemma_pow2_strictly_increases(16, s as nat);
    }
}

/// The power-of-two strategy: re-base through a bit accumulator. Each input
/// digit contributes its bits; each output digit takes the low bits.
pub fn convert_power_of_two_optimized(digits: &[u64], from_base: u64, to_base: u64) -> (out: Vec<u64>)
    requires
        valid_base(from_base),
        valid_base(to_base),
        power_of_two(from_base),
        power_of_two(to_base),
        digits_below(digits@, from_base as int),
        digits@.len() >= 1,
    ensures
        converted(digits@, from_base, to_base, out@),
{
    let ghost f = from_base as int;
    let ghost t = to_base as int;
    let from_shift: u64 = log2_of_power_of_two(from_base) as u64;
    let to_shift: u64 = log2_of_power_of_two(to_base) as u64;
    proof {
        lemma_base_shift_range(from_base, from_shift as u32);
        lemma_base_shift_range(to_base, to_shift as u32);
    }
    let ghost sf = from_shift as nat;
    let ghost st = to_shift as nat;
    let n = digits.len();
    let mut result: Vec<u64> = Vec::new();
    let mut buffer: u64 = 0;
    let mut bits: u64 = 0;
    let mut i: usize = 0;
    proof {
        assert(digits@.take(0) =~= Seq::<u64>::empty());
        assert(seq_value(Seq::<u64>::empty(), f) == 0);
        assert(seq_value(Seq::<u64>::empty(), t) == 0);
        vstd::arithmetic::power2::lemma2_to64();
    }
    while i < n
        invariant
            i <= n,
            n == digits@.len(),
            valid_base(from_base),
            valid_base(to_base),
            digits_below(digits@, f),
            f == from_base as int,
            t == to_base as int,
            sf == from_shift as nat,
            st == to_shift as nat,
            from_base == pow2(sf),
            to_base == pow2(st),
            1 <= from_shift <= 16,
            1 <= to_shift <= 16,
            bits < to_shift,
            (buffer as int) < pow2(bits as nat),
            digits_below(result@, t),
            bits as int == sf * i - st * result@.len(),
            seq_value(result@, t) + (buffer as int) * pow2((st * result@.len()) as nat)
                == seq_value(digits@.take(i as int), f),
        decreases n - i,
    {
        let d = digits[i];
        let ghost old_buffer = buffer as int;
        let ghost old_bits = bits as nat;
        proof {
            // the shifted digit is exact and the accumulator stays small
            assert(d * pow2(bits as nat) < pow2(sf + bits as nat)) by {
                vstd::arithmetic::power2::lemma_pow2_adds(sf, bits as nat);
                vstd::arithmetic::power2::lemma_pow2_pos(bits as nat);
                vstd::arithmetic::mul::lemma_mul_strict_inequality(
                    d as int,
                    pow2(sf) as int,
                    pow2(bits as nat) as int,
                );
            }
            assert(pow2(sf + bits as nat) <= pow2(32)) by {
                if (sf + bits as nat) < 32 {
                    vstd::arithmetic::power2::lemma_pow2_strictly_increases(
                        sf + bits as nat,
                        32,
                    );
                }
            }
            vstd::arithmetic::power2::lemma2_to64();
            vstd::bits::lemma_u64_shl_is_mul(d, bits);
            vstd::bits::lemma_u64_shl_is_mul(1u64, bits);
        }
        let shifted = d << bits;
        proof {
            assert(buffer | (d << bits) == buffer + (d << bits)) by (bit_vector)
                requires
                    buffer < (1u64 << bits),
                    bits < 16u64,
                    d < 0x10000u64,
            ;
        }
        buffer = buffer | shifted;
        bits = bits + from_shift;
        i = i + 1;
        proof {
            // accumulator bound after the add
            assert(buffer as int == old_buffer + d * pow2(old_bits));
            assert((buffer as int) < pow2(bits as nat)) by {
                vstd::arithmetic::power2::lemma_pow2_adds(sf, old_bits);
                vstd::arithmetic::power2::lemma_pow2_pos(old_bits);
                assert(d as int + 1 <= pow2(sf));
                vstd::arithmetic::mul::lemma_mul_inequality(
                    d as int + 1,
                    pow2(sf) as int,
                    pow2(old_bits) as int,
                );
                vstd::arithmetic::mul::lemma_mul_is_distributive_add_other_way(
                    pow2(old_bits) as int,
                    d as int,
                    1,
                );
            }
            // value bookkeeping: the digit lands at weight 2^(sf*(i-1))
            let len = result@.len();
            lemma_value_push_take(digits@, f, i as int - 1);
            lemma_pow_of_pow2(sf, (i - 1) as nat);
            assert(pow(f, (i - 1) as nat) == pow2(sf * (i - 1) as nat));
            assert(sf * (i - 1) as nat == old_bits + st * len);
            assert(sf * (i as int) == sf * (i as int - 1) + sf) by {
                vstd::arithmetic::mul::lemma_mul_is_distributive_add(sf as int, i as int - 1, 1);
            }
            assert(d * pow2(old_bits + (st * len) as nat) == (d * pow2(old_bits)) * pow2(
                (st * len) as nat,
            )) by {
                vstd::arithmetic::power2::lemma_pow2_adds(old_bits, (st * len) as nat);
                vstd::arithmetic::mul::lemma_mul_is_associative(
                    d as int,
                    pow2(old_bits) as int,
                    pow2((st * len) as nat) as int,
                );
            }
            assert((old_buffer + d * pow2(old_bits)) * pow2((st * len) as nat) == old_buffer
                * pow2((st * len) as nat) + (d * pow2(old_bits)) * pow2((st * len) as nat)) by {
                vstd::arithmetic::mul::lemma_mul_is_distributive_add_other_way(
                    pow2((st * len) as nat) as int,
                    old_buffer,
                    d * pow2(old_bits),
                );
            }
        }
        while bits >= to_shift
            invariant
                valid_base(to_base),
                t == to_base as int,
                st == to_shift as nat,
                to_base == pow2(st),
                1 <= to_shift <= 16,
                bits <= 31,
                (buffer as int) < pow2(bits as nat),
                digits_below(result@, t),
                bits as int == sf * i - st * result@.len(),
                seq_value(result@, t) + (buffer as int) * pow2((st * result@.len()) as nat)
                    == seq_value(digits@.take(i as int), f),
            decreases bits,
        {
            proof {
                vstd::arithmetic::power2::lemma2_to64();
                vstd::bits::lemma_u64_shl_is_mul(1u64, to_shift);
                vstd::bits::lemma_u64_low_bits_mask_is_mod(buffer, st);
                vstd::bits::lemma_u64_shr_is_div(buffer, to_shift);
                vstd::arithmetic::power2::lemma_pow2_pos(st);
            }
            let mask = (1u64 << to_shift) - 1;
            let out_d = buffer & mask;
            let ghost old_buffer = buffer as int;
            let ghost old_len = result@.len();
            let ghost old_res = result@;
            let ghost old_bits_in = bits as int;
            buffer = buffer >> to_shift;
            bits = bits - to_shift;
            result.push(out_d);
            proof {
                assert(out_d as int == old_buffer % (pow2(st) as int));
                assert(buffer as int == old_buffer / (pow2(st) as int));
                vstd::arithmetic::div_mod::lemma_fundamental_div_mod(
                    old_buffer,
                    pow2(st) as int,
                );
                // the shifted-out accumulator stays below its remaining bits
                assert((buffer as int) < pow2(bits as nat)) by {
                    vstd::arithmetic::power2::lemma_pow2_adds(bits as nat, st);
                    vstd::arithmetic::div_mod::lemma_multiply_divide_lt(
                        old_buffer,
                        pow2(st) as int,
                        pow2(bits as nat) as int,
                    );
                    vstd::arithmetic::mul::lemma_mul_is_commutative(
                        pow2(st) as int,
                        pow2(bits as nat) as int,
                    );
                }
                // value bookkeeping for the emitted digit
                lemma_value_push(old_res, t, out_d);
                assert(result@ == old_res.push(out_d));
                lemma_pow_of_pow2(st, old_len as nat);
                // the accounted bit positions slide down by one output digit
                assert(st * (result@.len() as int) == st * (old_len as int) + st) by {
                    vstd::arithmetic::mul::lemma_mul_is_distributive_add(
                        st as int,
                        old_len as int,
                        1,
                    );
                }
                let plen = pow2((st * old_len) as nat) as int;
                assert(pow2((st * (old_len + 1)) as nat) == pow2(st) * plen) by {
                    assert(st * (old_len + 1) == st + st * old_len) by {
                        vstd::arithmetic::mul::lemma_mul_is_distributive_add(
                            st as int,
                            old_len as int,
                            1,
                        );
                    }
                    vstd::arithmetic::power2::lemma_pow2_adds(st, (st * old_len) as nat);
                }
                let q = buffer as int;
                assert(q * (pow2(st) * plen) == (q * pow2(st)) * plen) by {
                    vstd::arithmetic::mul::lemma_mul_is_associative(q, pow2(st) as int, plen);
                }
                assert((q * pow2(st)) * plen + (out_d as int) * plen == (q * pow2(st)
                    + out_d as int) * plen) by {
                    vstd::arithmetic::mul::lemma_mul_is_distributive_add_other_way(
                        plen,
                        q * pow2(st) as int,
                        out_d as int,
                    );
                }
                assert(q * pow2(st) == pow2(st) as int * q) by {
                    vstd::arithmetic::mul::lemma_mul_is_commutative(q, pow2(st) as int);
                }
            }
        }
    }
    proof {
        assert(digits@.take(n as int) =~= digits@);
    }
    if bits > 0 {
        let ghost old_len = result@.len();
        proof {
            assert((buffer as int) < t) by {
                if (bits as nat) < st {
                    vstd::arithmetic::power2::lemma_pow2_strictly_increases(bits as nat, st);
                }
            }
            lemma_value_push(result@, t, buffer);
            lemma_pow_of_pow2(st, old_len as nat);
        }
        result.push(buffer);
    } else {
        proof {
            vstd::arithmetic::power2::lemma2_to64();
            assert(buffer == 0);
            vstd::arithmetic::mul::lemma_mul_basics(pow2((st * result@.len()) as nat) as int);
        }
    }
    proof {
        if result@.len() == 0 {
            assert(sf * n == 0);
            vstd::arithmetic::mul::lemma_mul_strictly_positive(sf as int, n as int);
            assert(false);
        }
    }
    let ghost before_trim = result@;
    trim_in_place(&mut result);
    proof {
        lemma_trim_value(before_trim, t);
        lemma_trim_shape(before_trim);
        assert forall|k: int| 0 <= k < result@.len() implies result@[k] < t by {
            assert(result@[k] == before_trim[k]);
            assert(before_trim[k] < t);
        }
        assert(digits_below(result@, t));
    }
    result
}

/// Extending the low-digit prefix by one digit adds that digit at its weight.
proof fn lemma_value_push_take(s: Seq<u64>, base: int, j: int)
    requires
        0 <= j < s.len(),
    ensures
        seq_value(s.take(j + 1), base) == seq_value(s.take(j), base) + s[j] * pow(base, j as nat),
{
    lemma_value_push(s.take(j), base, s[j]);
    assert(s.take(j + 1) =~= s.take(j).push(s[j]));
}

/// The closed set of execution paths the selector can choose from.
#[derive(Clone, Copy, Debug, PartialEq, Eq, Structural)]
pub enum Strategy {
    /// Both bases are powers of two: pure bit re-grouping.
    PowerOfTwo,
    /// Few enough digits to attempt one fixed-width accumulator.
    SmallValue,
    /// The bases satisfy `from_base^a == to_base^b`: blockwise re-basing.
    AlignedBases(usize, usize),
    /// The unavoidable fallback: optimized long division.
    General,
}

/// Largest exponent tried when searching for aligned bases.
pub const MAX_ALIGNED_EXPONENT: usize = 10;

/// `base^e` in a 128-bit accumulator, or `None` if it does not fit.
fn checked_pow_u128(base: u64, e: usize) -> (r: Option<u128>)
    requires
        2 <= base,
        e <= MAX_ALIGNED_EXPONENT,
    ensures
        match r {
            Some(v) => v as int == pow(base as int, e as nat),
            None => pow(base as int, e as nat) > u128::MAX,
        },
{
    let ghost b = base as int;
    let mut acc: u128 = 1;
    let mut k: usize = 0;
    proof {
        vstd::arithmetic::power::lemma_pow0(b);
    }
    while k < e
        invariant
            k <= e,
            2 <= base,
            b == base as int,
            acc as int == pow(b, k as nat),
        decreases e - k,
    {
        if acc > u128::MAX / (base as u128) {
            proof {
                // acc * base, hence base^(k+1) and every later power, overflows
                let floor = (u128::MAX / (base as u128)) as int;
                assert(pow(b, k as nat + 1) == pow(b, k as nat) * b) by {
                    vstd::arithmetic::power::lemma_pow_adds(b, k as nat, 1);
                    vstd::arithmetic::power::lemma_pow1(b);
                }
                assert(pow(b, k as nat) * b >= (floor + 1) * b) by {
                    vstd::arithmetic::mul::lemma_mul_inequality(floor + 1, acc as int, b);
                }
                assert((floor + 1) * b > u128::MAX) by {
                    vstd::arithmetic::div_mod::lemma_fundamental_div_mod(u128::MAX as int, b);
                    vstd::arithmetic::mul::lemma_mul_is_distributive_add_other_way(b, floor, 1);
                    vstd::arithmetic::mul::lemma_mul_is_commutative(floor, b);
                    vstd::arithmetic::div_mod::lemma_mod_division_less_than_divisor(
                        u128::MAX as int,
                        b,
                    );
                }
                assert(pow(b, e as nat) >= pow(b, k as nat + 1)) by {
                    vstd::arithmetic::power::lemma_pow_increases(
                        base as nat,
                        k as nat + 1,
                        e as nat,
                    );
                }
            }
            return None;
        }
        proof {
            let floor = (u128::MAX / (base as u128)) as int;
            assert(acc as int * b <= floor * b <= u128::MAX) by {
                vstd::arithmetic::mul::lemma_mul_inequality(acc as int, floor, b);
                vstd::arithmetic::div_mod::lemma_fundamental_div_mod(u128::MAX as int, b);
                vstd::arithmetic::div_mod::lemma_mod_division_less_than_divisor(
                    u128::MAX as int,
                    b,
                );
                vstd::arithmetic::mul::lemma_mul_is_commutative(floor, b);
            }
            assert(pow(b, k as nat + 1) == pow(b, k as nat) * b) by {
                vstd::arithmetic::power::lemma_pow_adds(b, k as nat, 1);
                vstd::arithmetic::power::lemma_pow1(b);
            }
        }
        acc = acc * (base as u128);
        k = k + 1;
    }
    Some(acc)
}

/// The handful of power relations behind the quick aligned-base table.
proof fn lemma_table_pows()
    ensures
        pow(2, 1) == 2,
        pow(2, 2) == 4,
        pow(2, 3) == 8,
        pow(2, 4) == 16,
        pow(2, 5) == 32,
        pow(3, 1) == 3,
        pow(3, 2) == 9,
        pow(3, 3) == 27,
        pow(4, 1) == 4,
        pow(4, 2) == 16,
        pow(8, 1) == 8,
        pow(8, 2) == 64,
        pow(16, 1) == 16,
        pow(27, 1) == 27,
        pow(32, 1) == 32,
        pow(64, 1) == 64,
{
    reveal_with_fuel(pow, 6);
}

/// A positive power of a base is at least the base itself.
proof fn lemma_pow_at_least_base(base: int, e: int)
    requires
        base >= 1,
        e >= 1,
    ensures
        pow(base, e as nat) >= base,
{
    vstd::arithmetic::power::lemma_pow1(base);
    vstd::arithmetic::power::lemma_pow_increases(base as nat, 1, e as nat);
}

/// `(a, b)` witnesses an exact power relation between the bases, within the
/// searched exponent range.
pub open spec fn aligned_pair(from_base: u64, to_base: u64, a: int, b: int) -> bool {
    &&& 1 <= a <= MAX_ALIGNED_EXPONENT
    &&& 1 <= b <= MAX_ALIGNED_EXPONENT
    &&& pow(from_base as int, a as nat) == pow(to_base as int, b as nat)
}

/// No exponent pair in the searched range whose source power fits the
/// 128-bit accumulator relates the bases.
pub open spec fn no_aligned_pair_in_reach(from_base: u64, to_base: u64) -> bool {
    forall|a2: int, b2: int|
        #![trigger pow(from_base as int, a2 as nat), pow(to_base as int, b2 as nat)]
        1 <= a2 <= MAX_ALIGNED_EXPONENT && 1 <= b2 <= MAX_ALIGNED_EXPONENT && pow(
            from_base as int,
            a2 as nat,
        ) <= u128::MAX ==> pow(from_base as int, a2 as nat) != pow(to_base as int, b2 as nat)
}

/// `(a, b)` relates the bases and is the smallest pair that does: no pair
/// has a smaller first exponent, and none with the same first exponent has
/// a smaller second.
pub open spec fn minimal_aligned_pair(from_base: u64, to_base: u64, a: int, b: int) -> bool {
    &&& aligned_pair(from_base, to_base, a, b)
    &&& forall|a2: int, b2: int|
        #![trigger pow(from_base as int, a2 as nat), pow(to_base as int, b2 as nat)]
        1 <= a2 < a && 1 <= b2 <= MAX_ALIGNED_EXPONENT ==> pow(from_base as int, a2 as nat)
            != pow(to_base as int, b2 as nat)
    &&& forall|b2: int|
        #![trigger pow(to_base as int, b2 as nat)]
        1 <= b2 < b ==> pow(from_base as int, a as nat) != pow(to_base as int, b2 as nat)
}

/// Do two factorization records list the same primes? Both records are
/// strictly increasing, so the first difference — or the first entry past
/// a common prefix — names a prime that one record has and the other lacks.
fn same_prime_set(a: &Vec<(u64, u32)>, b: &Vec<(u64, u32)>) -> (r: bool)
    requires
        forall|i: int, j: int| 0 <= i < j < a@.len() ==> a@[i].0 < a@[j].0,
        forall|i: int, j: int| 0 <= i < j < b@.len() ==> b@[i].0 < b@[j].0,
    ensures
        r ==> a@.len() == b@.len() && forall|i: int| 0 <= i < a@.len() ==> a@[i].0 == b@[i].0,
        !r ==> exists|p: u64| record_has_prime(a@, p) != record_has_prime(b@, p),
{
    let shorter = if a.len() < b.len() {
        a.len()
    } else {
        b.len()
    };
    let mut i: usize = 0;
    while i < shorter
        invariant
            i <= shorter,
            shorter <= a@.len(),
            shorter <= b@.len(),
            shorter == a@.len() || shorter == b@.len(),
            forall|k: int, j: int| 0 <= k < j < a@.len() ==> a@[k].0 < a@[j].0,
            forall|k: int, j: int| 0 <= k < j < b@.len() ==> b@[k].0 < b@[j].0,
            forall|k: int| 0 <= k < i ==> a@[k].0 == b@[k].0,
        decreases shorter - i,
    {
        if a[i].0 != b[i].0 {
            proof {
                lemma_first_difference_witness(a@, b@, i as int);
            }
            return false;
        }
        i = i + 1;
    }
    if a.len() != b.len() {
        proof {
            if a@.len() > b@.len() {
                lemma_longer_record_witness(a@, b@, shorter as int);
            } else {
                lemma_longer_record_witness(b@, a@, shorter as int);
                let p = choose|p: u64|
                    record_has_prime(b@, p) && !record_has_prime(a@, p);
                assert(record_has_prime(a@, p) != record_has_prime(b@, p));
            }
        }
        return false;
    }
    true
}

/// At the first index where two strictly increasing records differ, the
/// smaller of the two entries is missing from the other record.
proof fn lemma_first_difference_witness(a: Seq<(u64, u32)>, b: Seq<(u64, u32)>, i: int)
    requires
        0 <= i < a.len(),
        0 <= i < b.len(),
        forall|k: int, j: int| 0 <= k < j < a.len() ==> a[k].0 < a[j].0,
        forall|k: int, j: int| 0 <= k < j < b.len() ==> b[k].0 < b[j].0,
        forall|k: int| 0 <= k < i ==> a[k].0 == b[k].0,
        a[i].0 != b[i].0,
    ensures
        exists|p: u64| record_has_prime(a, p) != record_has_prime(b, p),
{
    if a[i].0 < b[i].0 {
        let p = a[i].0;
        assert(record_has_prime(a, p));
        assert(!record_has_prime(b, p)) by {
            assert forall|j: int| 0 <= j < b.len() implies (#[trigger] b[j]).0 != p by {
                if j < i {
                    assert(b[j].0 == a[j].0);
                    assert(a[j].0 < a[i].0);
                } else if j > i {
                    assert(b[i].0 < b[j].0);
                }
            }
        }
        assert(record_has_prime(a, p) != record_has_prime(b, p));
    } else {
        let p = b[i].0;
        assert(record_has_prime(b, p));
        assert(!record_has_prime(a, p)) by {
            assert forall|j: int| 0 <= j < a.len() implies (#[trigger] a[j]).0 != p by {
                if j < i {
                    assert(a[j].0 == b[j].0);
                    assert(b[j].0 < b[i].0);
                } else if j > i {
                    assert(a[i].0 < a[j].0);
                }
            }
        }
        assert(record_has_prime(a, p) != record_has_prime(b, p));
    }
}

/// A strictly increasing record that extends a common prefix past the other
/// record's end holds a prime the other lacks.
proof fn lemma_longer_record_witness(long: Seq<(u64, u32)>, short: Seq<(u64, u32)>, s: int)
    requires
        0 <= s < long.len(),
        s == short.len(),
        forall|k: int, j: int| 0 <= k < j < long.len() ==> long[k].0 < long[j].0,
        forall|k: int| 0 <= k < s ==> long[k].0 == short[k].0,
    ensures
        exists|p: u64| record_has_prime(long, p) && !record_has_prime(short, p),
{
    let p = long[s].0;
    assert(record_has_prime(long, p));
    assert(!record_has_prime(short, p)) by {
        assert forall|j: int| 0 <= j < short.len() implies (#[trigger] short[j]).0 != p by {
            assert(short[j].0 == long[j].0);
            assert(long[j].0 < long[s].0);
        }
    }
}

/// Find minimal exponents `(a, b)` with `from_base^a == to_base^b`, first in
/// a table of common relations, then by comparing prime sets and searching
/// bounded exponents. `None` leaves the general strategy to do the work.
pub fn find_aligned_exponents(from_base: u64, to_base: u64, cache: &mut FactorCache) -> (r: Option<
    (usize, usize),
>)
    requires
        valid_base(from_base),
        valid_base(to_base),
        old(cache).wf(),
    ensures
        final(cache).wf(),
        match r {
            Some(ab) => minimal_aligned_pair(from_base, to_base, ab.0 as int, ab.1 as int) && pow(
                from_base as int,
                ab.0 as nat,
            ) <= u128::MAX,
            None => no_aligned_pair_in_reach(from_base, to_base),
        },
{
    proof {
        lemma_table_pows();
    }
    match (from_base, to_base) {
        (4, 16) => {
            proof {
                assert forall|a2: int| 1 <= a2 < 2 implies #[trigger] pow(4int, a2 as nat)
                    < 16 by {
                    assert(a2 == 1);
                }
                lemma_table_minimality(4, 16, 2, 16);
            }
            return Some((2, 1));
        },
        (16, 4) => {
            proof {
                assert forall|b2: int| #![trigger pow(4int, b2 as nat)] 1 <= b2 < 2 implies pow(
                    16,
                    1,
                ) != pow(4int, b2 as nat) by {
                    assert(b2 == 1);
                }
            }
            return Some((1, 2));
        },
        (8, 64) => {
            proof {
                assert forall|a2: int| 1 <= a2 < 2 implies #[trigger] pow(8int, a2 as nat)
                    < 64 by {
                    assert(a2 == 1);
                }
                lemma_table_minimality(8, 64, 2, 64);
            }
            return Some((2, 1));
        },
        (64, 8) => {
            proof {
                assert forall|b2: int| #![trigger pow(8int, b2 as nat)] 1 <= b2 < 2 implies pow(
                    64,
                    1,
                ) != pow(8int, b2 as nat) by {
                    assert(b2 == 1);
                }
            }
            return Some((1, 2));
        },
        (27, 3) => {
            proof {
                assert forall|b2: int| #![trigger pow(3int, b2 as nat)] 1 <= b2 < 3 implies pow(
                    27,
                    1,
                ) != pow(3int, b2 as nat) by {
                    assert(b2 == 1 || b2 == 2);
                }
            }
            return Some((1, 3));
        },
        (3, 27) => {
            proof {
                assert forall|a2: int| 1 <= a2 < 3 implies #[trigger] pow(3int, a2 as nat)
                    < 27 by {
                    assert(a2 == 1 || a2 == 2);
                }
                lemma_table_minimality(3, 27, 3, 27);
            }
            return Some((3, 1));
        },
        (16, 2) => {
            proof {
                assert forall|b2: int| #![trigger pow(2int, b2 as nat)] 1 <= b2 < 4 implies pow(
                    16,
                    1,
                ) != pow(2int, b2 as nat) by {
                    assert(b2 == 1 || b2 == 2 || b2 == 3);
                }
            }
            return Some((1, 4));
        },
        (2, 16) => {
            proof {
                assert forall|a2: int| 1 <= a2 < 4 implies #[trigger] pow(2int, a2 as nat)
                    < 16 by {
                    assert(a2 == 1 || a2 == 2 || a2 == 3);
                }
                lemma_table_minimality(2, 16, 4, 16);
            }
            return Some((4, 1));
        },
        (32, 2) => {
            proof {
                assert forall|b2: int| #![trigger pow(2int, b2 as nat)] 1 <= b2 < 5 implies pow(
                    32,
                    1,
                ) != pow(2int, b2 as nat) by {
                    assert(b2 == 1 || b2 == 2 || b2 == 3 || b2 == 4);
                }
            }
            return Some((1, 5));
        },
        (2, 32) => {
            proof {
                assert forall|a2: int| 1 <= a2 < 5 implies #[trigger] pow(2int, a2 as nat)
                    < 32 by {
                    assert(a2 == 1 || a2 == 2 || a2 == 3 || a2 == 4);
                }
                lemma_table_minimality(2, 32, 5, 32);
            }
            return Some((5, 1));
        },
        _ => {},
    }
    let from_factors = cache.get_factorization(from_base);
    let to_factors = cache.get_factorization(to_base);
    if !same_prime_set(&from_factors, &to_factors) {
        proof {
            lemma_distinct_prime_records_separate_powers(
                from_base,
                to_base,
                from_factors@,
                to_factors@,
            );
        }
        return None;
    }
    let mut a: usize = 1;
    while a <= MAX_ALIGNED_EXPONENT
        invariant
            valid_base(from_base),
            valid_base(to_base),
            cache.wf(),
            1 <= a,
            forall|a2: int, b2: int|
                #![trigger pow(from_base as int, a2 as nat), pow(to_base as int, b2 as nat)]
                1 <= a2 < a && 1 <= b2 <= MAX_ALIGNED_EXPONENT && pow(from_base as int, a2 as nat)
                    <= u128::MAX ==> pow(from_base as int, a2 as nat) != pow(
                    to_base as int,
                    b2 as nat,
                ),
        decreases MAX_ALIGNED_EXPONENT + 1 - a,
    {
        if let Some(from_power) = checked_pow_u128(from_base, a) {
            let mut b: usize = 1;
            while b <= MAX_ALIGNED_EXPONENT
                invariant
                    valid_base(from_base),
                    valid_base(to_base),
                    cache.wf(),
                    1 <= a <= MAX_ALIGNED_EXPONENT,
                    1 <= b,
                    from_power as int == pow(from_base as int, a as nat),
                    forall|a2: int, b2: int|
                        #![trigger pow(from_base as int, a2 as nat), pow(to_base as int, b2 as nat)]
                        1 <= a2 < a && 1 <= b2 <= MAX_ALIGNED_EXPONENT && pow(
                            from_base as int,
                            a2 as nat,
                        ) <= u128::MAX ==> pow(from_base as int, a2 as nat) != pow(
                            to_base as int,
                            b2 as nat,
                        ),
                    forall|b2: int|
                        #![trigger pow(to_base as int, b2 as nat)]
                        1 <= b2 < b ==> pow(from_base as int, a as nat) != pow(
                            to_base as int,
                            b2 as nat,
                        ),
                decreases MAX_ALIGNED_EXPONENT + 1 - b,
            {
                if let Some(to_power) = checked_pow_u128(to_base, b) {
                    if to_power == from_power {
                        proof {
                            // every smaller first exponent also keeps its
                            // power within the accumulator, so the guarded
                            // exclusion becomes absolute
                            assert forall|a2: int, b2: int|
                                #![trigger pow(from_base as int, a2 as nat), pow(to_base as int, b2 as nat)]
                                1 <= a2 < a && 1 <= b2 <= MAX_ALIGNED_EXPONENT implies pow(
                                from_base as int,
                                a2 as nat,
                            ) != pow(to_base as int, b2 as nat) by {
                                vstd::arithmetic::power::lemma_pow_increases(
                                    from_base as nat,
                                    a2 as nat,
                                    a as nat,
                                );
                            }
                        }
                        return Some((a, b));
                    }
                }
                b = b + 1;
            }
        } else {
            proof {
                // this and hence every later source power overflows, so the
                // guard in the exclusion holds vacuously at this exponent
                assert(pow(from_base as int, a as nat) > u128::MAX);
            }
        }
        a = a + 1;
    }
    None
}

/// Minimality behind the table rows whose first exponent exceeds one: every
/// smaller power of `from_base` stays below `to_base`, hence below each of
/// its powers.
proof fn lemma_table_minimality(from_base: u64, to_base: u64, a: int, bound: int)
    requires
        1 <= from_base,
        1 <= bound <= to_base,
        forall|a2: int| 1 <= a2 < a ==> #[trigger] pow(from_base as int, a2 as nat) < bound,
    ensures
        forall|a2: int, b2: int|
            #![trigger pow(from_base as int, a2 as nat), pow(to_base as int, b2 as nat)]
            1 <= a2 < a && 1 <= b2 <= MAX_ALIGNED_EXPONENT ==> pow(from_base as int, a2 as nat)
                != pow(to_base as int, b2 as nat),
{
    assert forall|a2: int, b2: int|
        #![trigger pow(from_base as int, a2 as nat), pow(to_base as int, b2 as nat)]
        1 <= a2 < a && 1 <= b2 <= MAX_ALIGNED_EXPONENT implies pow(from_base as int, a2 as nat)
        != pow(to_base as int, b2 as nat) by {
        lemma_pow_at_least_base(to_base as int, b2);
    }
}

/// The aligned-base strategy: each run of `exp_a` input digits is one block
/// of the value, re-emitted as exactly `exp_b` output digits.
pub fn convert_aligned_bases(
    digits: &[u64],
    from_base: u64,
    to_base: u64,
    exp_a: usize,
    exp_b: usize,
) -> (out: Vec<u64>)
    requires
        valid_base(from_base),
        valid_base(to_base),
        digits_below(digits@, from_base as int),
        digits@.len() >= 1,
        1 <= exp_a <= MAX_ALIGNED_EXPONENT,
        1 <= exp_b <= MAX_ALIGNED_EXPONENT,
        pow(from_base as int, exp_a as nat) == pow(to_base as int, exp_b as nat),
        pow(from_base as int, exp_a as nat) <= u128::MAX,
    ensures
        converted(digits@, from_base, to_base, out@),
{
    let ghost f = from_base as int;
    let ghost t = to_base as int;
    // powers[k] == from_base^k, for the weighted sum inside one block
    let mut powers: Vec<u128> = Vec::new();
    powers.push(1);
    proof {
        vstd::arithmetic::power::lemma_pow0(f);
    }
    let mut i: usize = 1;
    while i < exp_a
        invariant
            1 <= i <= exp_a,
            exp_a <= MAX_ALIGNED_EXPONENT,
            valid_base(from_base),
            f == from_base as int,
            pow(f, exp_a as nat) <= u128::MAX,
            powers@.len() == i,
            forall|k: int| 0 <= k < i ==> (#[trigger] powers@[k]) as int == pow(f, k as nat),
        decreases exp_a - i,
    {
        proof {
            assert(pow(f, i as nat) == pow(f, (i - 1) as nat) * f) by {
                vstd::arithmetic::power::lemma_pow_adds(f, (i - 1) as nat, 1);
                vstd::arithmetic::power::lemma_pow1(f);
            }
            assert(pow(f, i as nat) <= pow(f, exp_a as nat)) by {
                vstd::arithmetic::power::lemma_pow_increases(
                    from_base as nat,
                    i as nat,
                    exp_a as nat,
                );
            }
        }
        let next = powers[i - 1] * (from_base as u128);
        powers.push(next);
        i = i + 1;
    }
    let n = digits.len();
    let mut out: Vec<u64> = Vec::new();
    let mut pos: usize = 0;
    let ghost mut chunks: int = 0;
    proof {
        assert(digits@.take(0) =~= Seq::<u64>::empty());
        assert(seq_value(Seq::<u64>::empty(), f) == 0);
        assert(seq_value(Seq::<u64>::empty(), t) == 0);
    }
    while pos < n
        invariant
            pos <= n,
            n == digits@.len(),
            valid_base(from_base),
            valid_base(to_base),
            digits_below(digits@, f),
            f == from_base as int,
            t == to_base as int,
            1 <= exp_a <= MAX_ALIGNED_EXPONENT,
            1 <= exp_b <= MAX_ALIGNED_EXPONENT,
            pow(f, exp_a as nat) == pow(t, exp_b as nat),
            pow(f, exp_a as nat) <= u128::MAX,
            powers@.len() == exp_a,
            forall|k: int| 0 <= k < exp_a ==> (#[trigger] powers@[k]) as int == pow(f, k as nat),
            chunks >= 0,
            pos == chunks * exp_a || pos == n,
            chunks == 0 ==> pos == 0,
            out@.len() == chunks * exp_b,
            digits_below(out@, t),
            seq_value(out@, t) == seq_value(digits@.take(pos as int), f),
        decreases n - pos,
    {
        proof {
            assert(pos == chunks * exp_a);
        }
        let m = if n - pos < exp_a {
            n - pos
        } else {
            exp_a
        };
        // the block's value, a weighted sum of its digits
        let mut v: u128 = 0;
        let mut k: usize = 0;
        proof {
            assert(digits@.subrange(pos as int, pos as int) =~= Seq::<u64>::empty());
            vstd::arithmetic::power::lemma_pow0(f);
        }
        while k < m
            invariant
                k <= m,
                pos + m <= n,
                n == digits@.len(),
                m <= exp_a,
                exp_a <= MAX_ALIGNED_EXPONENT,
                valid_base(from_base),
                digits_below(digits@, f),
                f == from_base as int,
                pow(f, exp_a as nat) <= u128::MAX,
                powers@.len() == exp_a,
                forall|j: int| 0 <= j < exp_a ==> (#[trigger] powers@[j]) as int == pow(
                    f,
                    j as nat,
                ),
                v as int == seq_value(digits@.subrange(pos as int, pos as int + k), f),
                (v as int) < pow(f, k as nat),
            decreases m - k,
        {
            let d = digits[pos + k];
            proof {
                // the new partial sum stays below from_base^(k+1)
                assert(pow(f, k as nat + 1) == pow(f, k as nat) * f) by {
                    vstd::arithmetic::power::lemma_pow_adds(f, k as nat, 1);
                    vstd::arithmetic::power::lemma_pow1(f);
                }
                assert(pow(f, k as nat + 1) <= pow(f, exp_a as nat)) by {
                    vstd::arithmetic::power::lemma_pow_increases(
                        from_base as nat,
                        k as nat + 1,
                        exp_a as nat,
                    );
                }
                assert((d as int) * pow(f, k as nat) + pow(f, k as nat) <= pow(f, k as nat)
                    * f) by {
                    vstd::arithmetic::mul::lemma_mul_inequality(d as int + 1, f, pow(f, k as nat));
                    vstd::arithmetic::mul::lemma_mul_is_distributive_add_other_way(
                        pow(f, k as nat),
                        d as int,
                        1,
                    );
                    vstd::arithmetic::mul::lemma_mul_is_commutative(f, pow(f, k as nat));
                }
                vstd::arithmetic::power::lemma_pow_positive(f, k as nat);
                // and the pushed digit extends the subrange's value
                lemma_value_push(digits@.subrange(pos as int, pos as int + k), f, d);
                assert(digits@.subrange(pos as int, pos as int + k).push(d) =~= digits@.subrange(
                    pos as int,
                    pos as int + k + 1,
                ));
            }
            v = v + (d as u128) * powers[k];
            k = k + 1;
        }
        let ghost chunk_v = v as int;
        let ghost out_start = out@;
        let ghost len0 = out@.len() as int;
        proof {
            // the block's value fits under to_base^exp_b
            assert(chunk_v < pow(f, exp_a as nat)) by {
                if (m as nat) < exp_a as nat {
                    vstd::arithmetic::power::lemma_pow_strictly_increases(
                        from_base as nat,
                        m as nat,
                        exp_a as nat,
                    );
                }
            }
            // splice the block into the running total
            lemma_value_split(digits@.take(pos as int + m as int), f, pos as int);
            assert(digits@.take(pos as int + m as int).take(pos as int) =~= digits@.take(
                pos as int,
            ));
            assert(digits@.take(pos as int + m as int).skip(pos as int) =~= digits@.subrange(
                pos as int,
                pos as int + m as int,
            ));
            // the weight of this block position agrees in both bases
            lemma_block_weight(f, t, exp_a as nat, exp_b as nat, chunks as nat);
            assert(pos as int == chunks * exp_a);
            assert(len0 as nat == exp_b as nat * chunks as nat) by {
                vstd::arithmetic::mul::lemma_mul_is_commutative(chunks, exp_b as int);
            }
            assert(pos as nat == exp_a as nat * chunks as nat) by {
                vstd::arithmetic::mul::lemma_mul_is_commutative(chunks, exp_a as int);
            }
            assert(pow(t, len0 as nat) == pow(f, pos as nat));
            assert(chunk_v * pow(f, pos as nat) == pow(f, pos as nat) * chunk_v) by {
                vstd::arithmetic::mul::lemma_mul_is_commutative(chunk_v, pow(f, pos as nat));
            }
            assert(seq_value(out_start, t) + chunk_v * pow(t, len0 as nat) == seq_value(
                digits@.take(pos as int + m as int),
                f,
            ));
        }
        // emit exactly exp_b output digits for this block
        let mut j: usize = 0;
        while j < exp_b
            invariant
                j <= exp_b,
                exp_b <= MAX_ALIGNED_EXPONENT,
                valid_base(to_base),
                t == to_base as int,
                out@.len() == len0 + j,
                len0 == out_start.len(),
                chunks >= 0,
                pos == chunks * exp_a,
                len0 == chunks * exp_b,
                pos + m <= n,
                n == digits@.len(),
                digits_below(out@, t),
                (v as int) < pow(t, (exp_b - j) as nat),
                seq_value(out@, t) + (v as int) * pow(t, out@.len() as nat) == seq_value(
                    out_start,
                    t,
                ) + chunk_v * pow(t, len0 as nat),
                seq_value(out_start, t) + chunk_v * pow(t, len0 as nat) == seq_value(
                    digits@.take(pos as int + m as int),
                    f,
                ),
            decreases exp_b - j,
        {
            let d = (v % (to_base as u128)) as u64;
            let ghost old_v = v as int;
            let ghost old_out = out@;
            v = v / (to_base as u128);
            out.push(d);
            j = j + 1;
            proof {
                let len = old_out.len() as nat;
                lemma_value_push(old_out, t, d);
                vstd::arithmetic::div_mod::lemma_fundamental_div_mod(old_v, t);
                assert(pow(t, len + 1) == t * pow(t, len)) by {
                    vstd::arithmetic::power::lemma_pow_adds(t, 1, len);
                    vstd::arithmetic::power::lemma_pow1(t);
                }
                let q = v as int;
                let p = pow(t, len);
                assert(q * (t * p) == (q * t) * p) by {
                    vstd::arithmetic::mul::lemma_mul_is_associative(q, t, p);
                }
                assert((q * t) * p + d * p == (q * t + d) * p) by {
                    vstd::arithmetic::mul::lemma_mul_is_distributive_add_other_way(
                        p,
                        q * t,
                        d as int,
                    );
                }
                assert(q * t == t * q) by {
                    vstd::arithmetic::mul::lemma_mul_is_commutative(q, t);
                }
                // the residue keeps shrinking against the remaining digits
                assert((v as int) < pow(t, (exp_b - j) as nat)) by {
                    vstd::arithmetic::power::lemma_pow_adds(t, (exp_b - j) as nat, 1);
                    vstd::arithmetic::power::lemma_pow1(t);
                    vstd::arithmetic::div_mod::lemma_multiply_divide_lt(
                        old_v,
                        t,
                        pow(t, (exp_b - j) as nat),
                    );
                    vstd::arithmetic::mul::lemma_mul_is_commutative(
                        t,
                        pow(t, (exp_b - j) as nat),
                    );
                }
            }
        }
        proof {
            // all of the block's value has been written out
            vstd::arithmetic::power::lemma_pow0(t);
            assert(v == 0) by {
                if v > 0 {
                    assert((v as int) < pow(t, 0));
                }
            }
            vstd::arithmetic::mul::lemma_mul_basics(pow(t, out@.len() as nat) as int);
            assert(seq_value(out@, t) == seq_value(digits@.take(pos as int + m as int), f));
            // advance the chunk accounting
            assert(out@.len() == chunks * exp_b + exp_b);
            assert((chunks + 1) * exp_b == chunks * exp_b + exp_b) by {
                vstd::arithmetic::mul::lemma_mul_is_distributive_add_other_way(
                    exp_b as int,
                    chunks,
                    1,
                );
            }
            assert((chunks + 1) * exp_a == chunks * exp_a + exp_a) by {
                vstd::arithmetic::mul::lemma_mul_is_distributive_add_other_way(
                    exp_a as int,
                    chunks,
                    1,
                );
            }
            chunks = chunks + 1;
        }
        pos = pos + m;
    }
    proof {
        assert(digits@.take(n as int) =~= digits@);
        if out@.len() == 0 {
            if chunks > 0 {
                vstd::arithmetic::mul::lemma_mul_strictly_positive(chunks, exp_b as int);
            }
            assert(chunks == 0);
            assert(pos == 0);
            assert(false);
        }
    }
    let ghost before_trim = out@;
    trim_in_place(&mut out);
    proof {
        lemma_trim_value(before_trim, t);
        lemma_trim_shape(before_trim);
        assert forall|k: int| 0 <= k < out@.len() implies out@[k] < t by {
            assert(out@[k] == before_trim[k]);
            assert(before_trim[k] < t);
        }
        assert(digits_below(out@, t));
    }
    out
}

/// Choose the execution path for these bases and this digit count, in
/// priority order: power-of-two, small value, aligned bases, general.
pub fn select_strategy(
    from_base: u64,
    to_base: u64,
    digit_count: usize,
    cache: &mut FactorCache,
) -> (s: Strategy)
    requires
        valid_base(from_base),
        valid_base(to_base),
        old(cache).wf(),
    ensures
        final(cache).wf(),
        s == Strategy::PowerOfTwo <==> power_of_two(from_base) && power_of_two(to_base),
        s == Strategy::SmallValue <==> !(power_of_two(from_base) && power_of_two(to_base))
            && digit_count <= SMALL_VALUE_DIGIT_CAP,
        match s {
            Strategy::PowerOfTwo => true,
            Strategy::SmallValue => true,
            Strategy::AlignedBases(a, b) => {
                &&& digit_count > SMALL_VALUE_DIGIT_CAP
                &&& minimal_aligned_pair(from_base, to_base, a as int, b as int)
                &&& pow(from_base as int, a as nat) <= u128::MAX
            },
            Strategy::General => digit_count > SMALL_VALUE_DIGIT_CAP && no_aligned_pair_in_reach(
                from_base,
                to_base,
            ),
        },
{
    if is_power_of_two(from_base) && is_power_of_two(to_base) {
        return Strategy::PowerOfTwo;
    }
    if digit_count <= SMALL_VALUE_DIGIT_CAP {
        return Strategy::SmallValue;
    }
    if let Some((a, b)) = find_aligned_exponents(from_base, to_base, cache) {
        return Strategy::AlignedBases(a, b);
    }
    Strategy::General
}

/// Convert through the fastest applicable strategy. The contract is the
/// reference converter's: which path ran cannot be observed in the result.
pub fn convert_base(digits: &[u64], from_base: u64, to_base: u64) -> (r: Result<
    Vec<u64>,
    ConvertError,
>)
    ensures
        convert_post(digits@, from_base, to_base, r),
{
    let mut cache = FactorCache::new();
    convert_base_with_cache(digits, from_base, to_base, &mut cache)
}

/// Convert through the fastest applicable strategy, memoizing base
/// factorizations in a caller-owned cache that outlives the call.
pub fn convert_base_with_cache(
    digits: &[u64],
    from_base: u64,
    to_base: u64,
    cache: &mut FactorCache,
) -> (r: Result<Vec<u64>, ConvertError>)
    requires
        old(cache).wf(),
    ensures
        final(cache).wf(),
        convert_post(digits@, from_base, to_base, r),
{
    let ghost f = from_base as int;
    if from_base < MIN_BASE || from_base > MAX_BASE || to_base < MIN_BASE || to_base > MAX_BASE {
        return Err(ConvertError::InvalidBase);
    }
    let mut k: usize = 0;
    while k < digits.len()
        invariant
            valid_base(from_base),
            valid_base(to_base),
            cache.wf(),
            k <= digits@.len(),
            forall|j: int| 0 <= j < k ==> digits@[j] < from_base,
        decreases digits@.len() - k,
    {
        if digits[k] >= from_base {
            proof {
                assert(!digits_below(digits@, from_base as int)) by {
                    if digits_below(digits@, from_base as int) {
                        assert(digits@[k as int] < from_base as int);
                        assert(false);
                    }
                }
            }
            return Err(ConvertError::InvalidDigit);
        }
        k = k + 1;
    }
    assert(digits_below(digits@, f));
    if from_base == to_base {
        return Ok(vstd::slice::slice_to_vec(digits));
    }
    if digits.len() == 0 || (digits.len() == 1 && digits[0] == 0) {
        let mut zero: Vec<u64> = Vec::new();
        zero.push(0);
        proof {
            lemma_zero_like(digits@, f);
            lemma_zero_like(zero@, to_base as int);
        }
        return Ok(zero);
    }
    match select_strategy(from_base, to_base, digits.len(), cache) {
        Strategy::PowerOfTwo => Ok(convert_power_of_two_optimized(digits, from_base, to_base)),
        Strategy::SmallValue => {
            if let Some(num) = try_convert_to_u128(digits, from_base) {
                Ok(convert_from_u128(num, to_base))
            } else {
                // the value overflowed the accumulator: fall through
                if let Some((a, b)) = find_aligned_exponents(from_base, to_base, cache) {
                    Ok(convert_aligned_bases(digits, from_base, to_base, a, b))
                } else {
                    Ok(convert_general_optimized_tricks(digits, from_base, to_base))
                }
            }
        },
        Strategy::AlignedBases(a, b) => Ok(
            convert_aligned_bases(digits, from_base, to_base, a, b),
        ),
        Strategy::General => Ok(convert_general_optimized_tricks(digits, from_base, to_base)),
    }
}

/// Block `c` of the aligned conversion sits at the same weight whether it is
/// counted in input digits or output digits.
proof fn lemma_block_weight(f: int, t: int, ea: nat, eb: nat, c: nat)
    requires
        pow(f, ea) == pow(t, eb),
    ensures
        pow(t, eb * c) == pow(f, ea * c),
{
    vstd::arithmetic::power::lemma_pow_multiplies(t, eb, c);
    vstd::arithmetic::power::lemma_pow_multiplies(f, ea, c);
}

/// The general strategy: the reference recurrence with a single-digit fast
/// exit. Restructured only for speed; the emitted digits are the same.
pub fn convert_general_optimized_tricks(digits: &[u64], from_base: u64, to_base: u64) -> (out: Vec<
    u64,
>)
    requires
        valid_base(from_base),
        valid_base(to_base),
        digits_below(digits@, from_base as int),
        digits@.len() >= 1,
    ensures
        converted(digits@, from_base, to_base, out@),
{
    let ghost f = from_base as int;
    let ghost t = to_base as int;
    if digits.len() == 1 {
        let out = convert_from_u128(digits[0] as u128, to_base);
        proof {
            lemma_value_single(digits@, f);
        }
        return out;
    }
    if digits.len() > LARGE_INPUT_THRESHOLD && to_base < from_base {
        return convert_large_number_chunked(digits, from_base, to_base);
    }
    let mut current: Vec<u64> = vstd::slice::slice_to_vec(digits);
    let mut result: Vec<u64> = Vec::new();
    proof {
        assert(seq_value(Seq::<u64>::empty(), t) == 0);
        vstd::arithmetic::power::lemma_pow0(t);
        vstd::arithmetic::mul::lemma_mul_basics(seq_value(current@, f));
    }
    while !(current.len() == 0 || (current.len() == 1 && current[0] == 0))
        invariant
            valid_base(from_base),
            valid_base(to_base),
            f == from_base as int,
            t == to_base as int,
            digits_below(digits@, f),
            digits_below(current@, f),
            digits_below(result@, t),
            seq_value(result@, t) + seq_value(current@, f) * pow(t, result@.len() as nat)
                == seq_value(digits@, f),
            result@.len() == 0 ==> current@ == digits@,
        decreases seq_value(current@, f), current@.len(),
    {
        let ghost old_cur = current@;
        let ghost old_res = result@;
        let (next, carry) = div_pass(&current, from_base, to_base);
        result.push(carry);
        current = next;
        proof {
            let len = old_res.len() as nat;
            lemma_value_push(old_res, t, carry);
            assert(pow(t, len + 1) == t * pow(t, len)) by {
                vstd::arithmetic::power::lemma_pow_adds(t, 1, len);
                vstd::arithmetic::power::lemma_pow1(t);
            }
            let vn = seq_value(current@, f);
            let vc = seq_value(old_cur, f);
            let p = pow(t, len);
            assert(vn * (t * p) == (vn * t) * p) by {
                vstd::arithmetic::mul::lemma_mul_is_associative(vn, t, p);
            }
            assert((vn * t) * p + carry * p == (vn * t + carry) * p) by {
                vstd::arithmetic::mul::lemma_mul_is_distributive_add_other_way(
                    p,
                    vn * t,
                    carry as int,
                );
            }
            lemma_value_nonneg(current@, f);
            lemma_value_nonneg(old_cur, f);
            if vc > 0 {
                if vn > 0 {
                    assert(vn < vn * t) by {
                        vstd::arithmetic::mul::lemma_mul_strictly_increases(t, vn);
                        vstd::arithmetic::mul::lemma_mul_is_commutative(t, vn);
                    }
                }
            } else {
                assert(vn * t >= 0) by {
                    vstd::arithmetic::mul::lemma_mul_nonnegative(vn, t);
                }
                assert(vn * t == 0 && carry == 0);
                assert(vn == 0) by {
                    if vn > 0 {
                        vstd::arithmetic::mul::lemma_mul_strictly_positive(vn, t);
                    }
                }
                if current@.len() > 0 {
                    lemma_value_lower(current@, f);
                }
                assert(current@.len() == 0);
            }
        }
    }
    proof {
        lemma_zero_like(current@, f);
        assert(seq_value(current@, f) * pow(t, result@.len() as nat) == 0) by {
            vstd::arithmetic::mul::lemma_mul_by_zero_is_zero(pow(t, result@.len() as nat));
        }
        if result@.len() == 0 {
            assert(current@ == digits@);
            assert(false);
        }
    }
    let ghost before_trim = result@;
    trim_in_place(&mut result);
    proof {
        lemma_trim_value(before_trim, t);
        lemma_trim_shape(before_trim);
        assert forall|i: int| 0 <= i < result@.len() implies result@[i] < t by {
            assert(result@[i] == before_trim[i]);
            assert(before_trim[i] < t);
        }
        assert(digits_below(result@, t));
    }
    result
}

/// Input length past which the general strategy divides each pass into
/// fixed-size blocks for cache locality.
pub(crate) const LARGE_INPUT_THRESHOLD: usize = 2000;

/// Digits handled per block in a chunked division pass.
pub(crate) const DIVISION_BLOCK: usize = 64;

/// One long-division pass over the digits in fixed-size blocks, from the
/// most significant block down. Same scan, same emitted digits as the
/// straight pass; only the loop structure differs.
fn div_pass_chunked(cur: &Vec<u64>, from_base: u64, to_base: u64) -> (r: (Vec<u64>, u64))
    requires
        valid_base(from_base),
        valid_base(to_base),
        digits_below(cur@, from_base as int),
    ensures
        digits_below(r.0@, from_base as int),
        no_leading_zero(r.0@),
        r.1 < to_base,
        seq_value(r.0@, from_base as int) * to_base + r.1 == seq_value(cur@, from_base as int),
{
    let ghost f = from_base as int;
    let ghost t = to_base as int;
    let n = cur.len();
    let mut carry: u64 = 0;
    let mut quot_msd: Vec<u64> = Vec::new();
    let mut i: usize = n;
    proof {
        assert(cur@.skip(n as int) =~= Seq::<u64>::empty());
    }
    while i > 0
        invariant
            i <= n,
            n == cur@.len(),
            valid_base(from_base),
            valid_base(to_base),
            digits_below(cur@, f),
            f == from_base as int,
            t == to_base as int,
            carry < to_base,
            digits_below(quot_msd@, f),
            quot_msd@.len() > 0 ==> quot_msd@[0] != 0,
            seq_value_msd(quot_msd@, f) * t + carry == seq_value(cur@.skip(i as int), f),
        decreases i,
    {
        let ghost i0 = i as int;
        let stop = if i >= DIVISION_BLOCK {
            i - DIVISION_BLOCK
        } else {
            0
        };
        while i > stop
            invariant
                stop < i0,
                stop <= i <= n,
                i <= i0,
                n == cur@.len(),
                valid_base(from_base),
                valid_base(to_base),
                digits_below(cur@, f),
                f == from_base as int,
                t == to_base as int,
                carry < to_base,
                digits_below(quot_msd@, f),
                quot_msd@.len() > 0 ==> quot_msd@[0] != 0,
                seq_value_msd(quot_msd@, f) * t + carry == seq_value(cur@.skip(i as int), f),
            decreases i,
        {
            let ghost old_q = seq_value_msd(quot_msd@, f);
            let ghost old_c = carry as int;
            let d = cur[i - 1];
            let (q, c) = crate::baseline::div_digit(carry, d, from_base, to_base);
            carry = c;
            if quot_msd.len() > 0 || q != 0 {
                let ghost before = quot_msd@;
                quot_msd.push(q);
                proof {
                    assert(quot_msd@.drop_last() =~= before);
                    assert(seq_value_msd(quot_msd@, f) == f * old_q + q);
                }
            } else {
                proof {
                    assert(seq_value_msd(quot_msd@, f) == 0);
                    assert(old_q == 0 && q == 0);
                }
            }
            i = i - 1;
            proof {
                crate::digits::lemma_division_step(
                    f,
                    t,
                    old_q,
                    old_c,
                    d as int,
                    q as int,
                    c as int,
                );
                lemma_value_skip_step(cur@, f, i as int);
            }
        }
    }
    let quotient = crate::baseline::reversed(&quot_msd);
    proof {
        assert(cur@.skip(0) =~= cur@);
        lemma_value_msd_reverse(quot_msd@, f);
        assert(forall|k: int|
            0 <= k < quotient@.len() ==> quotient@[k] == quot_msd@[quot_msd@.len() - 1 - k]);
        if quotient@.len() > 0 {
            assert(quotient@.last() == quot_msd@[0]);
        }
    }
    (quotient, carry)
}

/// The general strategy for very long inputs: the same repeated division,
/// with each pass block-structured for cache locality.
pub fn convert_large_number_chunked(digits: &[u64], from_base: u64, to_base: u64) -> (out: Vec<u64>)
    requires
        valid_base(from_base),
        valid_base(to_base),
        digits_below(digits@, from_base as int),
        digits@.len() >= 2,
    ensures
        converted(digits@, from_base, to_base, out@),
{
    let ghost f = from_base as int;
    let ghost t = to_base as int;
    let mut current: Vec<u64> = vstd::slice::slice_to_vec(digits);
    let mut result: Vec<u64> = Vec::new();
    proof {
        assert(seq_value(Seq::<u64>::empty(), t) == 0);
        vstd::arithmetic::power::lemma_pow0(t);
        vstd::arithmetic::mul::lemma_mul_basics(seq_value(current@, f));
    }
    while !(current.len() == 0 || (current.len() == 1 && current[0] == 0))
        invariant
            valid_base(from_base),
            valid_base(to_base),
            f == from_base as int,
            t == to_base as int,
            digits_below(digits@, f),
            digits_below(current@, f),
            digits_below(result@, t),
            seq_value(result@, t) + seq_value(current@, f) * pow(t, result@.len() as nat)
                == seq_value(digits@, f),
            result@.len() == 0 ==> current@ == digits@,
        decreases seq_value(current@, f), current@.len(),
    {
        let ghost old_cur = current@;
        let ghost old_res = result@;
        let (next, carry) = div_pass_chunked(&current, from_base, to_base);
        result.push(carry);
        current = next;
        proof {
            let len = old_res.len() as nat;
            lemma_value_push(old_res, t, carry);
            assert(pow(t, len + 1) == t * pow(t, len)) by {
                vstd::arithmetic::power::lemma_pow_adds(t, 1, len);
                vstd::arithmetic::power::lemma_pow1(t);
            }
            let vn = seq_value(current@, f);
            let vc = seq_value(old_cur, f);
            let p = pow(t, len);
            assert(vn * (t * p) == (vn * t) * p) by {
                vstd::arithmetic::mul::lemma_mul_is_associative(vn, t, p);
            }
            assert((vn * t) * p + carry * p == (vn * t + carry) * p) by {
                vstd::arithmetic::mul::lemma_mul_is_distributive_add_other_way(
                    p,
                    vn * t,
                    carry as int,
                );
            }
            lemma_value_nonneg(current@, f);
            lemma_value_nonneg(old_cur, f);
            if vc > 0 {
                if vn > 0 {
                    assert(vn < vn * t) by {
                        vstd::arithmetic::mul::lemma_mul_strictly_increases(t, vn);
                        vstd::arithmetic::mul::lemma_mul_is_commutative(t, vn);
                    }
                }
            } else {
                assert(vn * t >= 0) by {
                    vstd::arithmetic::mul::lemma_mul_nonnegative(vn, t);
                }
                assert(vn * t == 0 && carry == 0);
                assert(vn == 0) by {
                    if vn > 0 {
                        vstd::arithmetic::mul::lemma_mul_strictly_positive(vn, t);
                    }
                }
                if current@.len() > 0 {
                    lemma_value_lower(current@, f);
                }
                assert(current@.len() == 0);
            }
        }
    }
    proof {
        lemma_zero_like(current@, f);
        assert(seq_value(current@, f) * pow(t, result@.len() as nat) == 0) by {
            vstd::arithmetic::mul::lemma_mul_by_zero_is_zero(pow(t, result@.len() as nat));
        }
        if result@.len() == 0 {
            assert(current@ == digits@);
            assert(false);
        }
    }
    let ghost before_trim = result@;
    trim_in_place(&mut result);
    proof {
        lemma_trim_value(before_trim, t);
        lemma_trim_shape(before_trim);
        assert forall|k: int| 0 <= k < result@.len() implies result@[k] < t by {
            assert(result@[k] == before_trim[k]);
            assert(before_trim[k] < t);
        }
        assert(digits_below(result@, t));
    }
    result
}

} // verus!
