//! Small shared helpers: power-of-two tests, digit-order utilities,
//! canonical trimming, digit-sequence comparison, and text conversion.

use vstd::prelude::*;
use vstd::arithmetic::power2::pow2;
use vstd::string::StrSliceExecFns;

use crate::digits::{
    digits_below, lemma_trim_shape, lemma_trim_value, lemma_value_lower, lemma_value_nonneg,
    lemma_value_push, lemma_value_upper, seq_value, trim_spec,
};

verus! {

/// Why a string failed to parse as digits.
#[derive(Clone, Copy, Debug, PartialEq, Eq, Structural)]
pub enum ParseError {
    /// A character that names no digit at all.
    InvalidCharacter,
    /// A digit that the requested base does not contain.
    DigitOutOfRange,
}

/// `n` is an exact power of two.
pub open spec fn power_of_two(n: u64) -> bool
    decreases n,
{
    if n == 0 {
        false
    } else if n == 1 {
        true
    } else {
        n % 2 == 0 && power_of_two(n / 2)
    }
}

/// The classic bit trick `n & (n - 1) == 0` detects exactly the powers of two
/// among the positive numbers.
proof fn lemma_power_of_two_bit_trick(n: u64)
    requires
        n > 0,
    ensures
        (n & ((n - 1) as u64)) == 0 <==> power_of_two(n),
    decreases n,
{
    if n == 1 {
        assert((1u64 & ((1u64 - 1) as u64)) == 0) by (bit_vector);
    } else if n % 2 == 1 {
        assert((n & ((n - 1) as u64)) != 0) by (bit_vector)
            requires
                n > 1 && n % 2 == 1,
        ;
    } else {
        lemma_power_of_two_bit_trick(n / 2);
        assert(((n & ((n - 1) as u64)) == 0) <==> (((n / 2) & (((n / 2) - 1) as u64)) == 0)) by (bit_vector)
            requires
                n > 1 && n % 2 == 0,
        ;
    }
}

/// Check whether a number is a power of two.
pub fn is_power_of_two(n: u64) -> (r: bool)
    ensures
        r == power_of_two(n),
{
    proof {
        if n > 0 {
            lemma_power_of_two_bit_trick(n);
        }
    }
    n > 0 && (n & (n - 1)) == 0
}

/// The base-2 logarithm of a power of two.
pub fn log2_of_power_of_two(n: u64) -> (r: u32)
    requires
        power_of_two(n),
    ensures
        n == pow2(r as nat),
        r <= 63,
{
    let mut m = n;
    let mut k: u32 = 0;
    proof {
        vstd::arithmetic::power2::lemma_pow2_pos(0);
        assert(pow2(0) == 1) by {
            vstd::arithmetic::power2::lemma2_to64();
        }
    }
    while m > 1
        invariant
            power_of_two(m),
            m >= 1,
            k <= 63,
            n as int == m * pow2(k as nat),
        decreases m,
    {
        proof {
            // m >= 2 here, so pow2(k + 1) <= n < pow2(64): k + 1 stays below 64
            assert(2 * pow2(k as nat) <= m * pow2(k as nat)) by {
                vstd::arithmetic::power2::lemma_pow2_pos(k as nat);
                vstd::arithmetic::mul::lemma_mul_inequality(2, m as int, pow2(k as nat) as int);
                vstd::arithmetic::mul::lemma_mul_is_commutative(2, pow2(k as nat) as int);
                vstd::arithmetic::mul::lemma_mul_is_commutative(m as int, pow2(k as nat) as int);
            }
            assert(pow2(k as nat + 1) == 2 * pow2(k as nat)) by {
                vstd::arithmetic::power2::lemma_pow2_unfold(k as nat + 1);
            }
            assert(pow2(k as nat + 1) <= n < pow2(64)) by {
                vstd::arithmetic::power2::lemma2_to64_rest();
            }
            if k as nat + 1 >= 64 {
                vstd::arithmetic::power2::lemma_pow2_strictly_increases(64, k as nat + 1);
                assert(false);
            }
            assert((m / 2) * pow2(k as nat + 1) == m * pow2(k as nat)) by {
                vstd::arithmetic::mul::lemma_mul_is_associative(
                    m as int / 2,
                    2,
                    pow2(k as nat) as int,
                );
            }
        }
        m = m / 2;
        k = k + 1;
    }
    proof {
        vstd::arithmetic::mul::lemma_mul_basics(pow2(k as nat) as int);
    }
    k
}

/// Drop trailing most-significant zero digits in place, keeping at least one.
pub(crate) fn trim_in_place(v: &mut Vec<u64>)
    requires
        old(v)@.len() >= 1,
    ensures
        final(v)@ == trim_spec(old(v)@),
{
    while v.len() > 1 && v[v.len() - 1] == 0
        invariant
            v@.len() >= 1,
            trim_spec(v@) == trim_spec(old(v)@),
        decreases v@.len(),
    {
        v.pop();
    }
}

/// Remove trailing most-significant zero digits, keeping at least one digit
/// for a nonempty input.
pub fn trim_leading_zeros(digits: &[u64]) -> (r: &[u64])
    ensures
        r@ == trim_spec(digits@),
{
    if digits.len() == 0 {
        return digits;
    }
    let mut end: usize = digits.len();
    proof {
        assert(digits@.take(digits@.len() as int) =~= digits@);
    }
    while end > 1 && digits[end - 1] == 0
        invariant
            1 <= end <= digits@.len(),
            trim_spec(digits@.take(end as int)) == trim_spec(digits@),
        decreases end,
    {
        proof {
            assert(digits@.take(end as int).drop_last() =~= digits@.take(end as int - 1));
        }
        end = end - 1;
    }
    let r = &digits[0..end];
    proof {
        assert(r@ =~= digits@.take(end as int));
    }
    r
}

/// The character that prints a digit: `0`-`9`, then `a`-`z`, then a
/// placeholder for digits too large for one character.
pub open spec fn digit_char(d: u64) -> char {
    if d < 10 {
        ((48 + d) as u8) as char
    } else if d < 36 {
        ((87 + d) as u8) as char
    } else {
        '?'
    }
}

/// The digit a character names: `0`-`9`, `a`-`z` and `A`-`Z` for 0 to 35,
/// and -1 for anything else.
pub open spec fn char_digit(c: char) -> int {
    if '0' <= c && c <= '9' {
        c as int - 48
    } else if 'a' <= c && c <= 'z' {
        c as int - 87
    } else if 'A' <= c && c <= 'Z' {
        c as int - 55
    } else {
        -1
    }
}

/// The least-significant-first digits a string's characters name, rightmost
/// character first.
pub open spec fn parsed_digits(s: Seq<char>) -> Seq<u64> {
    Seq::new(s.len(), |k: int| char_digit(s[s.len() - 1 - k]) as u64)
}

/// Relies on `String::push`: appends exactly the one character.
#[verifier::external_body]
fn push_char(s: &mut String, c: char)
    ensures
        final(s)@ == old(s)@.push(c),
{
    s.push(c)
}

/// Print digits as text, most significant digit first; the empty sequence
/// prints as zero.
pub fn digits_to_string(digits: &[u64], _base: u64) -> (r: String)
    ensures
        digits@.len() == 0 ==> r@ == seq!['0'],
        digits@.len() > 0 ==> r@.len() == digits@.len() && (forall|i: int|
            0 <= i < r@.len() ==> r@[i] == digit_char(digits@[digits@.len() - 1 - i])),
{
    let mut r = String::new();
    if digits.len() == 0 {
        push_char(&mut r, '0');
        proof {
            assert(r@ =~= seq!['0']);
        }
        return r;
    }
    let n = digits.len();
    let mut i: usize = n;
    while i > 0
        invariant
            i <= n,
            n == digits@.len(),
            r@.len() == n - i,
            forall|k: int| 0 <= k < r@.len() ==> r@[k] == digit_char(digits@[n - 1 - k]),
        decreases i,
    {
        let d = digits[i - 1];
        let c: char = if d < 10 {
            (48u8 + d as u8) as char
        } else if d < 36 {
            (87u8 + d as u8) as char
        } else {
            '?'
        };
        proof {
            assert(c == digit_char(d));
        }
        push_char(&mut r, c);
        i = i - 1;
    }
    r
}

/// Parse text into least-significant-first digits for the given base,
/// rightmost character first, trimming superfluous zeros; the empty string
/// parses as zero.
pub fn string_to_digits(s: &str, base: u64) -> (r: Result<Vec<u64>, ParseError>)
    ensures
        r is Ok <==> forall|i: int|
            0 <= i < s@.len() ==> 0 <= #[trigger] char_digit(s@[i]) < base,
        r matches Ok(out) ==> if s@.len() == 0 {
            out@ == seq![0u64]
        } else {
            out@ == trim_spec(parsed_digits(s@))
        },
        r == Result::<Vec<u64>, ParseError>::Err(ParseError::InvalidCharacter) ==> exists|i: int|
            0 <= i < s@.len() && #[trigger] char_digit(s@[i]) == -1,
        r == Result::<Vec<u64>, ParseError>::Err(ParseError::DigitOutOfRange) ==> exists|i: int|
            0 <= i < s@.len() && #[trigger] char_digit(s@[i]) >= base,
{
    let n = s.unicode_len();
    if n == 0 {
        let mut zero: Vec<u64> = Vec::new();
        zero.push(0);
        proof {
            assert(zero@ =~= seq![0u64]);
        }
        return Ok(zero);
    }
    let mut digits: Vec<u64> = Vec::new();
    let mut k: usize = 0;
    while k < n
        invariant
            k <= n,
            n == s@.len(),
            base >= 0,
            digits@.len() == k,
            forall|j: int|
                n - k <= j < n ==> 0 <= #[trigger] char_digit(s@[j]) < base,
            forall|j: int| 0 <= j < k ==> digits@[j] == parsed_digits(s@)[j],
        decreases n - k,
    {
        let c = s.get_char(n - 1 - k);
        let v = c as u32;
        let digit: u64 = if v >= 48 && v <= 57 {
            (v - 48) as u64
        } else if v >= 97 && v <= 122 {
            (v - 87) as u64
        } else if v >= 65 && v <= 90 {
            (v - 55) as u64
        } else {
            proof {
                assert(char_digit(s@[n - 1 - k]) == -1);
            }
            return Err(ParseError::InvalidCharacter);
        };
        proof {
            assert(digit as int == char_digit(s@[n - 1 - k]));
        }
        if digit >= base {
            return Err(ParseError::DigitOutOfRange);
        }
        digits.push(digit);
        k = k + 1;
    }
    proof {
        assert(digits@ =~= parsed_digits(s@));
    }
    trim_in_place(&mut digits);
    Ok(digits)
}

/// Compare the numbers two digit sequences denote, most significant digit
/// first after trimming, as the sequences' values compare in any common base.
pub fn compare_digits(a: &[u64], b: &[u64]) -> (r: core::cmp::Ordering)
    ensures
        r == compare_spec(trim_spec(a@), trim_spec(b@)),
{
    let at = trim_leading_zeros(a);
    let bt = trim_leading_zeros(b);
    if at.len() != bt.len() {
        if at.len() < bt.len() {
            return core::cmp::Ordering::Less;
        } else {
            return core::cmp::Ordering::Greater;
        }
    }
    let mut i: usize = at.len();
    while i > 0
        invariant
            i <= at@.len(),
            at@.len() == bt@.len(),
            at@ == trim_spec(a@),
            bt@ == trim_spec(b@),
            forall|j: int| i <= j < at@.len() ==> at@[j] == bt@[j],
            compare_spec(at@, bt@) == compare_prefix_spec(at@, bt@, i as int),
        decreases i,
    {
        let x = at[i - 1];
        let y = bt[i - 1];
        if x < y {
            return core::cmp::Ordering::Less;
        }
        if x > y {
            return core::cmp::Ordering::Greater;
        }
        i = i - 1;
    }
    core::cmp::Ordering::Equal
}

/// Lexicographic comparison from the most significant digit down, after
/// lengths: how two equally-long canonical sequences order by value.
pub open spec fn compare_prefix_spec(a: Seq<u64>, b: Seq<u64>, i: int) -> core::cmp::Ordering
    decreases i,
{
    if i <= 0 {
        core::cmp::Ordering::Equal
    } else if a[i - 1] < b[i - 1] {
        core::cmp::Ordering::Less
    } else if a[i - 1] > b[i - 1] {
        core::cmp::Ordering::Greater
    } else {
        compare_prefix_spec(a, b, i - 1)
    }
}

/// How two trimmed digit sequences compare: shorter is smaller, and equal
/// lengths compare from the most significant digit down.
pub open spec fn compare_spec(a: Seq<u64>, b: Seq<u64>) -> core::cmp::Ordering {
    if a.len() < b.len() {
        core::cmp::Ordering::Less
    } else if a.len() > b.len() {
        core::cmp::Ordering::Greater
    } else {
        compare_prefix_spec(a, b, a.len() as int)
    }
}

/// The first-difference scan over equally long sequences that agree above
/// position `i` orders exactly as the prefix values below `i` do.
proof fn lemma_compare_prefix_orders_values(a: Seq<u64>, b: Seq<u64>, base: int, i: int)
    requires
        base >= 2,
        digits_below(a, base),
        digits_below(b, base),
        a.len() == b.len(),
        0 <= i <= a.len(),
    ensures
        compare_prefix_spec(a, b, i) == core::cmp::Ordering::Equal <==> seq_value(
            a.take(i),
            base,
        ) == seq_value(b.take(i), base),
        compare_prefix_spec(a, b, i) == core::cmp::Ordering::Less <==> seq_value(a.take(i), base)
            < seq_value(b.take(i), base),
    decreases i,
{
    if i == 0 {
        assert(a.take(0) =~= Seq::<u64>::empty());
        assert(b.take(0) =~= Seq::<u64>::empty());
        assert(seq_value(Seq::<u64>::empty(), base) == 0);
    } else {
        lemma_compare_prefix_orders_values(a, b, base, i - 1);
        lemma_value_push(a.take(i - 1), base, a[i - 1]);
        lemma_value_push(b.take(i - 1), base, b[i - 1]);
        assert(a.take(i) =~= a.take(i - 1).push(a[i - 1]));
        assert(b.take(i) =~= b.take(i - 1).push(b[i - 1]));
        let p = vstd::arithmetic::power::pow(base, (i - 1) as nat);
        vstd::arithmetic::power::lemma_pow_positive(base, (i - 1) as nat);
        assert(digits_below(a.take(i - 1), base) && digits_below(b.take(i - 1), base)) by {
            assert(forall|j: int| 0 <= j < i - 1 ==> a.take(i - 1)[j] == a[j]);
            assert(forall|j: int| 0 <= j < i - 1 ==> b.take(i - 1)[j] == b[j]);
        }
        lemma_value_upper(a.take(i - 1), base);
        lemma_value_upper(b.take(i - 1), base);
        lemma_value_nonneg(a.take(i - 1), base);
        lemma_value_nonneg(b.take(i - 1), base);
        if a[i - 1] != b[i - 1] {
            // the differing digit dominates everything below it
            if a[i - 1] < b[i - 1] {
                lemma_low_digits_dominated(
                    seq_value(a.take(i - 1), base),
                    seq_value(b.take(i - 1), base),
                    a[i - 1] as int,
                    b[i - 1] as int,
                    p,
                );
            } else {
                lemma_low_digits_dominated(
                    seq_value(b.take(i - 1), base),
                    seq_value(a.take(i - 1), base),
                    b[i - 1] as int,
                    a[i - 1] as int,
                    p,
                );
            }
        }
    }
}

/// A strictly larger digit at the top outweighs any spread of lower digits:
/// if `da < db` and both low parts lie in `[0, p)`, the first whole value is
/// smaller.
proof fn lemma_low_digits_dominated(la: int, lb: int, da: int, db: int, p: int)
    requires
        p >= 1,
        0 <= la < p,
        0 <= lb,
        0 <= da < db,
    ensures
        la + da * p < lb + db * p,
{
    assert((da + 1) * p <= db * p) by {
        vstd::arithmetic::mul::lemma_mul_inequality(da + 1, db, p);
    }
    assert((da + 1) * p == da * p + p) by {
        vstd::arithmetic::mul::lemma_mul_is_distributive_add_other_way(p, da, 1);
    }
}

/// What the comparison means: for every base that admits all digits of both
/// nonempty sequences, `compare_digits` orders the sequences by the numbers
/// they denote.
pub proof fn lemma_compare_orders_values(a: Seq<u64>, b: Seq<u64>, base: int)
    requires
        base >= 2,
        digits_below(a, base),
        digits_below(b, base),
        a.len() >= 1,
        b.len() >= 1,
    ensures
        compare_spec(trim_spec(a), trim_spec(b)) == core::cmp::Ordering::Equal <==> seq_value(
            a,
            base,
        ) == seq_value(b, base),
        compare_spec(trim_spec(a), trim_spec(b)) == core::cmp::Ordering::Less <==> seq_value(
            a,
            base,
        ) < seq_value(b, base),
        compare_spec(trim_spec(a), trim_spec(b)) == core::cmp::Ordering::Greater <==> seq_value(
            a,
            base,
        ) > seq_value(b, base),
{
    let ta = trim_spec(a);
    let tb = trim_spec(b);
    lemma_trim_value(a, base);
    lemma_trim_value(b, base);
    lemma_trim_shape(a);
    lemma_trim_shape(b);
    assert(digits_below(ta, base) && digits_below(tb, base)) by {
        assert(forall|j: int| 0 <= j < ta.len() ==> ta[j] == a[j]);
        assert(forall|j: int| 0 <= j < tb.len() ==> tb[j] == b[j]);
    }
    if ta.len() < tb.len() {
        // the longer trimmed sequence has a nonzero top digit and wins
        lemma_value_upper(ta, base);
        lemma_value_lower(tb, base);
        lemma_pow_grows(base, ta.len() as nat, (tb.len() - 1) as nat);
    } else if ta.len() > tb.len() {
        lemma_value_upper(tb, base);
        lemma_value_lower(ta, base);
        lemma_pow_grows(base, tb.len() as nat, (ta.len() - 1) as nat);
    } else {
        lemma_compare_prefix_orders_values(ta, tb, base, ta.len() as int);
        assert(ta.take(ta.len() as int) =~= ta);
        assert(tb.take(tb.len() as int) =~= tb);
    }
}

/// Powers of a base at least two never shrink as the exponent grows.
proof fn lemma_pow_grows(base: int, e1: nat, e2: nat)
    requires
        base >= 2,
        e1 <= e2,
    ensures
        vstd::arithmetic::power::pow(base, e1) <= vstd::arithmetic::power::pow(base, e2),
{
    vstd::arithmetic::power::lemma_pow_increases(base as nat, e1, e2);
}

} // verus!
