//! The reference converter: classical long division, one divide-by-`to_base`
//! pass per output digit. Every other strategy is held to its result.

use vstd::prelude::*;
use vstd::arithmetic::power::pow;

use crate::digits::{
    digits_below, is_canonical, lemma_value_drop_last, lemma_value_lower,
    lemma_value_msd_reverse, lemma_value_nonneg, lemma_value_push, lemma_value_skip_step,
    no_leading_zero, seq_value, seq_value_msd, valid_base, MAX_BASE, MIN_BASE,
};
use crate::{convert_post, ConvertError};

verus! {

/// A copy of `v` with the digit order flipped.
pub(crate) fn reversed(v: &Vec<u64>) -> (r: Vec<u64>)
    ensures
        r@ == v@.reverse(),
{
    let n = v.len();
    let mut r: Vec<u64> = Vec::new();
    let mut i: usize = n;
    while i > 0
        invariant
            i <= n,
            n == v@.len(),
            r@.len() == n - i,
            forall|k: int| 0 <= k < r@.len() ==> r@[k] == v@[n - 1 - k],
        decreases i,
    {
        i = i - 1;
        r.push(v[i]);
    }
    proof {
        assert(r@ =~= v@.reverse());
    }
    r
}

/// One step of the long-division recurrence: fold the next digit into the
/// running remainder, yielding one quotient digit and the new remainder.
pub(crate) fn div_digit(carry: u64, d: u64, from_base: u64, to_base: u64) -> (r: (u64, u64))
    requires
        valid_base(from_base),
        valid_base(to_base),
        carry < to_base,
        d < from_base,
    ensures
        r.0 < from_base,
        r.1 < to_base,
        (r.0 as int) * (to_base as int) + r.1 == (carry as int) * (from_base as int) + d,
{
    let ghost f = from_base as int;
    let ghost t = to_base as int;
    proof {
        assert(carry * from_base <= 65535 * 65536) by {
            vstd::arithmetic::mul::lemma_mul_upper_bound(
                carry as int,
                65535,
                from_base as int,
                65536,
            );
        }
    }
    let value = carry * from_base + d;
    proof {
        // value < to_base * from_base, so the quotient digit stays below from_base
        assert((carry as int) * f <= (t - 1) * f) by {
            vstd::arithmetic::mul::lemma_mul_inequality(carry as int, t - 1, f);
        }
        assert((t - 1) * f == t * f - f) by {
            vstd::arithmetic::mul::lemma_mul_is_distributive_sub_other_way(f, t, 1);
        }
        assert(value < t * f);
        vstd::arithmetic::div_mod::lemma_fundamental_div_mod(value as int, t);
        vstd::arithmetic::div_mod::lemma_multiply_divide_lt(value as int, t, f);
        vstd::arithmetic::mul::lemma_mul_is_commutative(t, value as int / t);
    }
    (value / to_base, value % to_base)
}

/// One long-division pass: read `cur` in `from_base`, divide that number by
/// `to_base`, and return the quotient's digits (least significant first,
/// without a most-significant zero) together with the remainder.
pub(crate) fn div_pass(cur: &Vec<u64>, from_base: u64, to_base: u64) -> (r: (Vec<u64>, u64))
    requires
        valid_base(from_base),
        valid_base(to_base),
        digits_below(cur@, from_base as int),
    ensures
        digits_below(r.0@, from_base as int),
        no_leading_zero(r.0@),
        r.1 < to_base,
        seq_value(r.0@, from_base as int) * to_base + r.1 == seq_value(cur@, from_base as int),
{
    let ghost f = from_base as int;
    let ghost t = to_base as int;
    let n = cur.len();
    let mut carry: u64 = 0;
    // Quotient digits, most significant first, as the scan finds them.
    let mut quot_msd: Vec<u64> = Vec::new();
    let mut i: usize = n;
    proof {
        assert(cur@.skip(n as int) =~= Seq::<u64>::empty());
    }
    while i > 0
        invariant
            i <= n,
            n == cur@.len(),
            valid_base(from_base),
            valid_base(to_base),
            digits_below(cur@, f),
            f == from_base as int,
            t == to_base as int,
            carry < to_base,
            digits_below(quot_msd@, f),
            quot_msd@.len() > 0 ==> quot_msd@[0] != 0,
            seq_value_msd(quot_msd@, f) * t + carry == seq_value(cur@.skip(i as int), f),
        decreases i,
    {
        let ghost old_q = seq_value_msd(quot_msd@, f);
        let ghost old_c = carry as int;
        let d = cur[i - 1];
        let (q, c) = div_digit(carry, d, from_base, to_base);
        carry = c;
        if quot_msd.len() > 0 || q != 0 {
            let ghost before = quot_msd@;
            quot_msd.push(q);
            proof {
                assert(quot_msd@.drop_last() =~= before);
                assert(seq_value_msd(quot_msd@, f) == f * old_q + q);
            }
        } else {
            proof {
                assert(seq_value_msd(quot_msd@, f) == 0);
                assert(old_q == 0 && q == 0);
            }
        }
        i = i - 1;
        proof {
            crate::digits::lemma_division_step(f, t, old_q, old_c, d as int, q as int, c as int);
            lemma_value_skip_step(cur@, f, i as int);
        }
    }
    let quotient = reversed(&quot_msd);
    proof {
        assert(cur@.skip(0) =~= cur@);
        lemma_value_msd_reverse(quot_msd@, f);
        assert(forall|k: int|
            0 <= k < quotient@.len() ==> quotient@[k] == quot_msd@[quot_msd@.len() - 1 - k]);
        if quotient@.len() > 0 {
            assert(quotient@.last() == quot_msd@[0]);
        }
    }
    (quotient, carry)
}

/// Convert `digits`, read least-significant first in `from_base`, to the
/// canonical digit sequence worth the same integer in `to_base`, by repeated
/// long division. This is the engine's correctness oracle.
pub fn convert_base(digits: &[u64], from_base: u64, to_base: u64) -> (r: Result<
    Vec<u64>,
    ConvertError,
>)
    ensures
        convert_post(digits@, from_base, to_base, r),
{
    let ghost f = from_base as int;
    let ghost t = to_base as int;
    if from_base < MIN_BASE || from_base > MAX_BASE || to_base < MIN_BASE || to_base > MAX_BASE {
        return Err(ConvertError::InvalidBase);
    }
    let mut k: usize = 0;
    while k < digits.len()
        invariant
            valid_base(from_base),
            valid_base(to_base),
            k <= digits@.len(),
            forall|j: int| 0 <= j < k ==> digits@[j] < from_base,
        decreases digits@.len() - k,
    {
        if digits[k] >= from_base {
            proof {
                assert(!digits_below(digits@, from_base as int)) by {
                    if digits_below(digits@, from_base as int) {
                        assert(digits@[k as int] < from_base as int);
                        assert(false);
                    }
                }
            }
            return Err(ConvertError::InvalidDigit);
        }
        k = k + 1;
    }
    assert(digits_below(digits@, f));
    if from_base == to_base {
        return Ok(vstd::slice::slice_to_vec(digits));
    }
    if digits.len() == 0 || (digits.len() == 1 && digits[0] == 0) {
        let mut zero: Vec<u64> = Vec::new();
        zero.push(0);
        proof {
            crate::digits::lemma_zero_like(digits@, f);
            crate::digits::lemma_zero_like(zero@, t);
            assert(is_canonical(zero@));
        }
        return Ok(zero);
    }
    let mut current: Vec<u64> = vstd::slice::slice_to_vec(digits);
    let mut result: Vec<u64> = Vec::new();
    proof {
        assert(seq_value(Seq::<u64>::empty(), t) == 0);
        vstd::arithmetic::power::lemma_pow0(t);
        vstd::arithmetic::mul::lemma_mul_basics(seq_value(current@, f));
    }
    while !(current.len() == 0 || (current.len() == 1 && current[0] == 0))
        invariant
            valid_base(from_base),
            valid_base(to_base),
            f == from_base as int,
            t == to_base as int,
            digits_below(digits@, f),
            digits_below(current@, f),
            digits_below(result@, t),
            seq_value(result@, t) + seq_value(current@, f) * pow(t, result@.len() as nat)
                == seq_value(digits@, f),
            result@.len() == 0 ==> current@ == digits@,
        decreases seq_value(current@, f), current@.len(),
    {
        let ghost old_cur = current@;
        let ghost old_res = result@;
        let (next, carry) = div_pass(&current, from_base, to_base);
        result.push(carry);
        current = next;
        proof {
            let len = old_res.len() as nat;
            lemma_value_push(old_res, t, carry);
            assert(pow(t, len + 1) == t * pow(t, len)) by {
                vstd::arithmetic::power::lemma_pow_adds(t, 1, len);
                vstd::arithmetic::power::lemma_pow1(t);
            }
            let vn = seq_value(current@, f);
            let vc = seq_value(old_cur, f);
            let p = pow(t, len);
            assert(vn * t + carry == vc);
            // value of the new state: result gained carry * p, current shrank by one division
            assert(vn * (t * p) == (vn * t) * p) by {
                vstd::arithmetic::mul::lemma_mul_is_associative(vn, t, p);
            }
            assert((vn * t) * p + carry * p == (vn * t + carry) * p) by {
                vstd::arithmetic::mul::lemma_mul_is_distributive_add_other_way(
                    p,
                    vn * t,
                    carry as int,
                );
            }
            // termination: the represented value shrinks, or the sequence empties
            lemma_value_nonneg(current@, f);
            lemma_value_nonneg(old_cur, f);
            if vc > 0 {
                if vn > 0 {
                    assert(vn < vn * t) by {
                        vstd::arithmetic::mul::lemma_mul_strictly_increases(t, vn);
                        vstd::arithmetic::mul::lemma_mul_is_commutative(t, vn);
                    }
                }
            } else {
                assert(vn * t >= 0) by {
                    vstd::arithmetic::mul::lemma_mul_nonnegative(vn, t);
                }
                assert(vn * t == 0 && carry == 0);
                assert(vn == 0) by {
                    if vn > 0 {
                        vstd::arithmetic::mul::lemma_mul_strictly_positive(vn, t);
                    }
                }
                if current@.len() > 0 {
                    lemma_value_lower(current@, f);
                }
                assert(current@.len() == 0);
            }
        }
    }
    proof {
        crate::digits::lemma_zero_like(current@, f);
        assert(seq_value(current@, f) * pow(t, result@.len() as nat) == 0) by {
            vstd::arithmetic::mul::lemma_mul_by_zero_is_zero(pow(t, result@.len() as nat));
        }
        if result@.len() == 0 {
            // then the input itself was empty or [0], which was already handled
            assert(current@ == digits@);
            assert(false);
        }
    }
    while result.len() > 1 && result[result.len() - 1] == 0
        invariant
            result@.len() >= 1,
            t == to_base as int,
            digits_below(result@, t),
            seq_value(result@, t) == seq_value(digits@, f),
        decreases result@.len(),
    {
        proof {
            lemma_value_drop_last(result@, t);
            assert(result@.last() * pow(t, (result@.len() - 1) as nat) == 0) by {
                vstd::arithmetic::mul::lemma_mul_by_zero_is_zero(
                    pow(t, (result@.len() - 1) as nat),
                );
            }
        }
        result.pop();
    }
    Ok(result)
}

} // verus!
