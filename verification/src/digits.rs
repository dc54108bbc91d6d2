//! The digit-sequence model: what a sequence of digits is worth in a given
//! base, when it is canonical, and the lemmas the converters are proved with.

use vstd::prelude::*;
use vstd::arithmetic::power::pow;

verus! {

/// Smallest radix the engine accepts.
pub const MIN_BASE: u64 = 2;

/// Largest radix the engine accepts.
pub const MAX_BASE: u64 = 65536;

/// A base the engine accepts.
pub open spec fn valid_base(b: u64) -> bool {
    MIN_BASE <= b <= MAX_BASE
}

/// Every digit of `s` lies below `base`.
pub open spec fn digits_below(s: Seq<u64>, base: int) -> bool {
    forall|i: int| 0 <= i < s.len() ==> s[i] < base
}

/// The non-negative integer that the least-significant-first digit
/// sequence `s` denotes in radix `base`.
pub open spec fn seq_value(s: Seq<u64>, base: int) -> int
    decreases s.len(),
{
    if s.len() == 0 {
        0
    } else {
        s[0] + base * seq_value(s.drop_first(), base)
    }
}

/// The value of a digit sequence written most-significant digit first,
/// as a long-division pass emits quotient digits.
pub open spec fn seq_value_msd(s: Seq<u64>, base: int) -> int
    decreases s.len(),
{
    if s.len() == 0 {
        0
    } else {
        base * seq_value_msd(s.drop_last(), base) + s.last()
    }
}

/// Canonical form: at least one digit, and no trailing most-significant
/// zero digit except in the single-digit sequence `[0]`.
pub open spec fn is_canonical(s: Seq<u64>) -> bool {
    s.len() >= 1 && (s.len() == 1 || s.last() != 0)
}

/// A possibly empty sequence whose most significant digit, if any, is nonzero.
pub open spec fn no_leading_zero(s: Seq<u64>) -> bool {
    s.len() == 0 || s.last() != 0
}

/// `s` with trailing most-significant zero digits removed, keeping at least
/// one digit.
pub open spec fn trim_spec(s: Seq<u64>) -> Seq<u64>
    decreases s.len(),
{
    if s.len() <= 1 {
        s
    } else if s.last() == 0 {
        trim_spec(s.drop_last())
    } else {
        s
    }
}

/// The canonical digit sequence with the same value as `s`:
/// trailing zeros trimmed, and the empty sequence written `[0]`.
pub open spec fn canonical_form(s: Seq<u64>) -> Seq<u64> {
    if s.len() == 0 {
        seq![0u64]
    } else {
        trim_spec(s)
    }
}

/// What a successful conversion strategy delivers: a canonical sequence of
/// valid digits worth the same integer in the target base.
pub open spec fn converted(digits: Seq<u64>, from_base: u64, to_base: u64, out: Seq<u64>) -> bool {
    &&& is_canonical(out)
    &&& digits_below(out, to_base as int)
    &&& seq_value(out, to_base as int) == seq_value(digits, from_base as int)
}

/// The value of a digit sequence is never negative.
pub proof fn lemma_value_nonneg(s: Seq<u64>, base: int)
    requires
        base >= 0,
    ensures
        seq_value(s, base) >= 0,
    decreases s.len(),
{
    if s.len() > 0 {
        lemma_value_nonneg(s.drop_first(), base);
        vstd::arithmetic::mul::lemma_mul_nonnegative(base, seq_value(s.drop_first(), base));
    }
}

/// Splitting off the most significant digit: the value is the value of the
/// rest plus the last digit weighted by its position.
pub proof fn lemma_value_drop_last(s: Seq<u64>, base: int)
    requires
        s.len() > 0,
    ensures
        seq_value(s, base) == seq_value(s.drop_last(), base) + s.last() * pow(
            base,
            (s.len() - 1) as nat,
        ),
    decreases s.len(),
{
    if s.len() == 1 {
        assert(s.drop_last() =~= Seq::<u64>::empty());
        assert(s.drop_first() =~= Seq::<u64>::empty());
        assert(seq_value(Seq::<u64>::empty(), base) == 0);
        assert(seq_value(s, base) == s[0] + base * 0);
        assert(s.last() * pow(base, 0) == s.last()) by {
            vstd::arithmetic::power::lemma_pow0(base);
        }
    } else {
        let t = s.drop_first();
        lemma_value_drop_last(t, base);
        assert(s.drop_last().drop_first() =~= t.drop_last());
        assert(t.last() == s.last());
        // seq_value(s) == s[0] + base * (seq_value(t.drop_last()) + t.last() * pow(base, t.len()-1))
        let v = seq_value(t.drop_last(), base);
        let w = s.last() as int;
        let p = pow(base, (s.len() - 2) as nat);
        assert(base * (v + w * p) == base * v + w * (base * p)) by {
            vstd::arithmetic::mul::lemma_mul_is_distributive_add(base, v, w * p);
            vstd::arithmetic::mul::lemma_mul_is_associative(base, w, p);
            vstd::arithmetic::mul::lemma_mul_is_commutative(base, w);
            vstd::arithmetic::mul::lemma_mul_is_associative(w, base, p);
        }
        assert(pow(base, (s.len() - 1) as nat) == base * p) by {
            vstd::arithmetic::power::lemma_pow_adds(base, 1, (s.len() - 2) as nat);
            vstd::arithmetic::power::lemma_pow1(base);
        }
        assert(seq_value(s.drop_last(), base) == s[0] + base * v);
    }
}

/// Appending a digit at the most significant end adds its weighted value.
pub proof fn lemma_value_push(s: Seq<u64>, base: int, d: u64)
    ensures
        seq_value(s.push(d), base) == seq_value(s, base) + d * pow(base, s.len()),
{
    lemma_value_drop_last(s.push(d), base);
    assert(s.push(d).drop_last() =~= s);
}

/// A sequence that is empty or the single digit zero is worth zero.
pub proof fn lemma_zero_like(s: Seq<u64>, base: int)
    requires
        s.len() == 0 || (s.len() == 1 && s[0] == 0),
    ensures
        seq_value(s, base) == 0,
{
    if s.len() == 1 {
        lemma_value_single(s, base);
    }
}

/// A single digit is worth itself in any base.
pub proof fn lemma_value_single(s: Seq<u64>, base: int)
    requires
        s.len() == 1,
    ensures
        seq_value(s, base) == s[0],
{
    assert(s.drop_first() =~= Seq::<u64>::empty());
    assert(seq_value(Seq::<u64>::empty(), base) == 0);
}

/// Reading the suffix that starts one digit further down.
pub proof fn lemma_value_skip_step(s: Seq<u64>, base: int, i: int)
    requires
        0 <= i < s.len(),
    ensures
        seq_value(s.skip(i), base) == s[i] + base * seq_value(s.skip(i + 1), base),
{
    assert(s.skip(i).drop_first() =~= s.skip(i + 1));
    assert(s.skip(i)[0] == s[i]);
}

/// Splitting a sequence at position `j`: the low digits keep their value and
/// the high digits are weighted by `base^j`.
pub proof fn lemma_value_split(s: Seq<u64>, base: int, j: int)
    requires
        0 <= j <= s.len(),
    ensures
        seq_value(s, base) == seq_value(s.take(j), base) + pow(base, j as nat) * seq_value(
            s.skip(j),
            base,
        ),
    decreases j,
{
    if j == 0 {
        assert(s.take(0) =~= Seq::<u64>::empty());
        assert(seq_value(Seq::<u64>::empty(), base) == 0);
        assert(s.skip(0) =~= s);
        vstd::arithmetic::power::lemma_pow0(base);
        vstd::arithmetic::mul::lemma_mul_basics(seq_value(s, base));
    } else {
        lemma_value_split(s, base, j - 1);
        lemma_value_skip_step(s, base, j - 1);
        lemma_value_push(s.take(j - 1), base, s[j - 1]);
        assert(s.take(j) =~= s.take(j - 1).push(s[j - 1]));
        let p = pow(base, (j - 1) as nat);
        let d = s[j - 1] as int;
        let v = seq_value(s.skip(j), base);
        assert(p * (d + base * v) == p * d + p * (base * v)) by {
            vstd::arithmetic::mul::lemma_mul_is_distributive_add(p, d, base * v);
        }
        assert(p * (base * v) == (p * base) * v) by {
            vstd::arithmetic::mul::lemma_mul_is_associative(p, base, v);
        }
        assert(p * base == pow(base, j as nat)) by {
            vstd::arithmetic::power::lemma_pow_adds(base, (j - 1) as nat, 1);
            vstd::arithmetic::power::lemma_pow1(base);
        }
        assert(p * d == d * p) by {
            vstd::arithmetic::mul::lemma_mul_is_commutative(p, d);
        }
    }
}

/// With every digit below the base, the value is below `base^len`.
pub proof fn lemma_value_upper(s: Seq<u64>, base: int)
    requires
        base >= 1,
        digits_below(s, base),
    ensures
        seq_value(s, base) < pow(base, s.len()),
    decreases s.len(),
{
    if s.len() == 0 {
        vstd::arithmetic::power::lemma_pow0(base);
    } else {
        let t = s.drop_first();
        assert(digits_below(t, base)) by {
            assert(forall|i: int| 0 <= i < t.len() ==> t[i] == s[i + 1]);
        }
        lemma_value_upper(t, base);
        lemma_value_nonneg(t, base);
        // s[0] + base * v <= base - 1 + base * (pow(base, len-1) - 1) < base^len
        let v = seq_value(t, base);
        assert(base * v <= base * (pow(base, t.len()) - 1)) by {
            vstd::arithmetic::mul::lemma_mul_inequality(v, pow(base, t.len()) - 1, base);
            vstd::arithmetic::mul::lemma_mul_is_commutative(base, v);
            vstd::arithmetic::mul::lemma_mul_is_commutative(base, pow(base, t.len()) - 1);
        }
        assert(base * (pow(base, t.len()) - 1) == base * pow(base, t.len()) - base) by {
            vstd::arithmetic::mul::lemma_mul_is_distributive_sub(base, pow(base, t.len()), 1);
        }
        assert(pow(base, s.len()) == base * pow(base, t.len())) by {
            vstd::arithmetic::power::lemma_pow_adds(base, 1, t.len());
            vstd::arithmetic::power::lemma_pow1(base);
        }
    }
}

/// A sequence whose most significant digit is nonzero is worth at least
/// the weight of that digit's position.
pub proof fn lemma_value_lower(s: Seq<u64>, base: int)
    requires
        base >= 1,
        s.len() > 0,
        s.last() != 0,
    ensures
        seq_value(s, base) >= pow(base, (s.len() - 1) as nat),
        seq_value(s, base) >= 1,
{
    lemma_value_drop_last(s, base);
    lemma_value_nonneg(s.drop_last(), base);
    let p = pow(base, (s.len() - 1) as nat);
    vstd::arithmetic::power::lemma_pow_positive(base, (s.len() - 1) as nat);
    assert(s.last() * p >= 1 * p) by {
        vstd::arithmetic::mul::lemma_mul_inequality(1, s.last() as int, p);
        vstd::arithmetic::mul::lemma_mul_is_commutative(s.last() as int, p);
    }
}

/// First digit and tail are the value's remainder and quotient by the base.
pub proof fn lemma_value_div_mod(s: Seq<u64>, base: int)
    requires
        base >= 2,
        s.len() > 0,
        s[0] < base,
    ensures
        seq_value(s, base) % base == s[0],
        seq_value(s, base) / base == seq_value(s.drop_first(), base),
{
    let q = seq_value(s.drop_first(), base);
    lemma_value_nonneg(s.drop_first(), base);
    assert(seq_value(s, base) == q * base + s[0]) by {
        vstd::arithmetic::mul::lemma_mul_is_commutative(base, q);
    }
    vstd::arithmetic::div_mod::lemma_fundamental_div_mod_converse_mod(
        seq_value(s, base),
        base,
        q,
        s[0] as int,
    );
    vstd::arithmetic::div_mod::lemma_fundamental_div_mod_converse_div(
        seq_value(s, base),
        base,
        q,
        s[0] as int,
    );
}

/// One digit of a long-division pass: if one quotient digit and remainder
/// account for the folded-in digit, the extended quotient and new remainder
/// account for the digits read so far.
pub proof fn lemma_division_step(f: int, t: int, old_q: int, old_c: int, d: int, q: int, c: int)
    requires
        q * t + c == old_c * f + d,
    ensures
        (f * old_q + q) * t + c == d + f * (old_q * t + old_c),
{
    assert((f * old_q + q) * t == (f * old_q) * t + q * t) by {
        vstd::arithmetic::mul::lemma_mul_is_distributive_add_other_way(t, f * old_q, q);
    }
    assert((f * old_q) * t == f * (old_q * t)) by {
        vstd::arithmetic::mul::lemma_mul_is_associative(f, old_q, t);
    }
    assert(f * (old_q * t) + f * old_c == f * (old_q * t + old_c)) by {
        vstd::arithmetic::mul::lemma_mul_is_distributive_add(f, old_q * t, old_c);
    }
    assert(old_c * f == f * old_c) by {
        vstd::arithmetic::mul::lemma_mul_is_commutative(old_c, f);
    }
}

/// Two sequences without a leading zero that are worth the same are equal.
pub proof fn lemma_strict_value_injective(a: Seq<u64>, b: Seq<u64>, base: int)
    requires
        base >= 2,
        digits_below(a, base),
        digits_below(b, base),
        no_leading_zero(a),
        no_leading_zero(b),
        seq_value(a, base) == seq_value(b, base),
    ensures
        a == b,
    decreases a.len(),
{
    if a.len() == 0 {
        assert(seq_value(a, base) == 0);
        if b.len() > 0 {
            lemma_value_lower(b, base);
        }
        assert(a =~= b);
    } else if b.len() == 0 {
        assert(seq_value(b, base) == 0);
        lemma_value_lower(a, base);
        assert(a =~= b);
    } else {
        lemma_value_div_mod(a, base);
        lemma_value_div_mod(b, base);
        let ta = a.drop_first();
        let tb = b.drop_first();
        assert(forall|i: int| 0 <= i < ta.len() ==> ta[i] == a[i + 1]);
        assert(forall|i: int| 0 <= i < tb.len() ==> tb[i] == b[i + 1]);
        assert(digits_below(ta, base) && digits_below(tb, base));
        assert(no_leading_zero(ta)) by {
            if ta.len() > 0 {
                assert(ta.last() == a.last());
            }
        }
        assert(no_leading_zero(tb)) by {
            if tb.len() > 0 {
                assert(tb.last() == b.last());
            }
        }
        lemma_strict_value_injective(ta, tb, base);
        assert(a[0] == b[0]);
        assert forall|i: int| 0 <= i < a.len() implies a[i] == b[i] by {
            if i > 0 {
                assert(a[i] == ta[i - 1]);
                assert(b[i] == tb[i - 1]);
            }
        }
        assert(a =~= b);
    }
}

/// Two canonical sequences of valid digits that are worth the same are equal:
/// the value determines the canonical digit sequence.
pub proof fn lemma_canonical_value_injective(a: Seq<u64>, b: Seq<u64>, base: int)
    requires
        base >= 2,
        digits_below(a, base),
        digits_below(b, base),
        is_canonical(a),
        is_canonical(b),
        seq_value(a, base) == seq_value(b, base),
    ensures
        a == b,
{
    if seq_value(a, base) == 0 {
        lemma_canonical_zero_form(a, base);
        lemma_canonical_zero_form(b, base);
        assert(a =~= b);
    } else {
        assert(no_leading_zero(a)) by {
            if a.len() == 1 && a.last() == 0 {
                assert(a.drop_first() =~= Seq::<u64>::empty());
                assert(seq_value(Seq::<u64>::empty(), base) == 0);
                assert(seq_value(a, base) == 0);
            }
        }
        assert(no_leading_zero(b)) by {
            if b.len() == 1 && b.last() == 0 {
                assert(b.drop_first() =~= Seq::<u64>::empty());
                assert(seq_value(Seq::<u64>::empty(), base) == 0);
                assert(seq_value(b, base) == 0);
            }
        }
        lemma_strict_value_injective(a, b, base);
    }
}

/// A canonical sequence worth zero is exactly `[0]`.
pub proof fn lemma_canonical_zero_form(s: Seq<u64>, base: int)
    requires
        base >= 2,
        is_canonical(s),
        seq_value(s, base) == 0,
    ensures
        s == seq![0u64],
{
    if s.len() > 1 {
        lemma_value_lower(s, base);
    } else {
        assert(s.drop_first() =~= Seq::<u64>::empty());
        assert(seq_value(Seq::<u64>::empty(), base) == 0);
        assert(seq_value(s, base) == s[0]);
        assert(s =~= seq![0u64]);
    }
}

/// Trimming trailing zeros keeps the value.
pub proof fn lemma_trim_value(s: Seq<u64>, base: int)
    ensures
        seq_value(trim_spec(s), base) == seq_value(s, base),
    decreases s.len(),
{
    if s.len() > 1 && s.last() == 0 {
        lemma_value_drop_last(s, base);
        lemma_trim_value(s.drop_last(), base);
    }
}

/// What trimming yields: a canonical sequence (for nonempty input) whose
/// digits come from the input.
pub proof fn lemma_trim_shape(s: Seq<u64>)
    ensures
        trim_spec(s).len() <= s.len(),
        s.len() >= 1 ==> is_canonical(trim_spec(s)),
        forall|i: int| 0 <= i < trim_spec(s).len() ==> trim_spec(s)[i] == s[i],
    decreases s.len(),
{
    if s.len() > 1 && s.last() == 0 {
        lemma_trim_shape(s.drop_last());
        assert(forall|i: int|
            0 <= i < trim_spec(s).len() ==> trim_spec(s)[i] == s.drop_last()[i]);
    }
}

/// Reversing a most-significant-first sequence yields the least-significant-
/// first reading of the same digits.
pub proof fn lemma_value_msd_reverse(s: Seq<u64>, base: int)
    ensures
        seq_value(s.reverse(), base) == seq_value_msd(s, base),
    decreases s.len(),
{
    if s.len() > 0 {
        lemma_value_msd_reverse(s.drop_last(), base);
        assert(s.reverse()[0] == s.last());
        assert(s.reverse().drop_first() =~= s.drop_last().reverse());
    }
}

} // verus!
