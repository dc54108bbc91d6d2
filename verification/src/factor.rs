//! Prime factorization of small bases, with a get-or-compute cache owned by
//! the conversion engine. The aligned-base detector compares prime sets.

use vstd::prelude::*;
use vstd::arithmetic::power::pow;
use vstd::arithmetic::power2::pow2;

use crate::digits::MAX_BASE;

verus! {

/// `p` has no divisor strictly between 1 and itself.
pub open spec fn is_prime(p: int) -> bool {
    p >= 2 && forall|d: int| 2 <= d < p ==> #[trigger] (p % d) != 0
}

/// The product of a factorization record's prime powers.
pub open spec fn factors_product(fs: Seq<(u64, u32)>) -> int
    decreases fs.len(),
{
    if fs.len() == 0 {
        1
    } else {
        factors_product(fs.drop_last()) * pow(fs.last().0 as int, fs.last().1 as nat)
    }
}

/// A factorization record for `n`: strictly increasing primes, exponents at
/// least one, and a product equal to `n`.
pub open spec fn valid_factorization(n: int, fs: Seq<(u64, u32)>) -> bool {
    &&& factors_product(fs) == n
    &&& forall|i: int|
        0 <= i < fs.len() ==> is_prime(#[trigger] fs[i].0 as int) && fs[i].1 >= 1
    &&& forall|i: int, j: int| 0 <= i < j < fs.len() ==> fs[i].0 < fs[j].0
}

/// If `d` divides `x`, it divides any multiple `k * x`.
proof fn lemma_divides_multiple(k: int, x: int, d: int)
    requires
        d >= 1,
        x % d == 0,
        k >= 0,
        x >= 0,
    ensures
        (k * x) % d == 0,
{
    vstd::arithmetic::div_mod::lemma_fundamental_div_mod(x, d);
    let q = x / d;
    assert(x == q * d) by {
        vstd::arithmetic::mul::lemma_mul_is_commutative(d, q);
    }
    assert(k * x == (k * q) * d) by {
        vstd::arithmetic::mul::lemma_mul_is_associative(k, q, d);
    }
    vstd::arithmetic::div_mod::lemma_mod_multiples_basic(k * q, d);
}

/// Divisibility is transitive: if `d` divides `p` and `p` divides `m`,
/// then `d` divides `m`.
proof fn lemma_divides_transitive(m: int, p: int, d: int)
    requires
        d >= 1,
        p >= 1,
        m >= 0,
        m % p == 0,
        p % d == 0,
    ensures
        m % d == 0,
{
    vstd::arithmetic::div_mod::lemma_fundamental_div_mod(m, p);
    let q = m / p;
    assert(q >= 0) by {
        vstd::arithmetic::div_mod::lemma_div_pos_is_pos(m, p);
    }
    lemma_divides_multiple(q, p, d);
    assert(m == q * p) by {
        vstd::arithmetic::mul::lemma_mul_is_commutative(q, p);
    }
}

/// The record lists `p` among its primes.
pub open spec fn record_has_prime(fs: Seq<(u64, u32)>, p: u64) -> bool {
    exists|i: int| 0 <= i < fs.len() && (#[trigger] fs[i]).0 == p
}

/// Euclid's lemma: a prime dividing a product divides one of the factors.
/// Proved by descent: reduce the first factor modulo `p`, then descend on
/// the remainder of `p` by the first factor, which primality keeps nonzero.
proof fn lemma_euclid(p: int, a: int, b: int)
    requires
        is_prime(p),
        a >= 0,
        b >= 0,
        (a * b) % p == 0,
    ensures
        a % p == 0 || b % p == 0,
    decreases a,
{
    if a == 0 {
        assert(a % p == 0);
    } else if a >= p {
        let a1 = a % p;
        vstd::arithmetic::div_mod::lemma_fundamental_div_mod(a, p);
        vstd::arithmetic::div_mod::lemma_fundamental_div_mod(a * b, p);
        vstd::arithmetic::div_mod::lemma_mod_division_less_than_divisor(a, p);
        let k = (a * b) / p;
        assert(a1 * b == (k - (a / p) * b) * p) by {
            assert(a1 == a - p * (a / p));
            vstd::arithmetic::mul::lemma_mul_is_distributive_sub_other_way(b, a, p * (a / p));
            assert((p * (a / p)) * b == p * ((a / p) * b)) by {
                vstd::arithmetic::mul::lemma_mul_is_associative(p, a / p, b);
            }
            assert(a * b == p * k);
            assert(p * k - p * ((a / p) * b) == p * (k - (a / p) * b)) by {
                vstd::arithmetic::mul::lemma_mul_is_distributive_sub(p, k, (a / p) * b);
            }
            vstd::arithmetic::mul::lemma_mul_is_commutative(p, k - (a / p) * b);
        }
        assert((a1 * b) % p == 0) by {
            vstd::arithmetic::div_mod::lemma_mod_multiples_basic(k - (a / p) * b, p);
        }
        lemma_euclid(p, a1, b);
        if a1 % p == 0 {
            vstd::arithmetic::div_mod::lemma_small_mod(a1 as nat, p as nat);
        }
    } else if a == 1 {
        assert(1 * b == b) by {
            vstd::arithmetic::mul::lemma_mul_basics(b);
        }
    } else {
        // 2 <= a < p, so p % a is not zero, and strictly below a: descend
        let r = p % a;
        assert(p % a != 0);
        vstd::arithmetic::div_mod::lemma_fundamental_div_mod(p, a);
        vstd::arithmetic::div_mod::lemma_mod_division_less_than_divisor(p, a);
        vstd::arithmetic::div_mod::lemma_fundamental_div_mod(a * b, p);
        let k = (a * b) / p;
        assert(r * b == (b - (p / a) * k) * p) by {
            assert(r == p - a * (p / a));
            vstd::arithmetic::mul::lemma_mul_is_distributive_sub_other_way(b, p, a * (p / a));
            assert((a * (p / a)) * b == (p / a) * (a * b)) by {
                vstd::arithmetic::mul::lemma_mul_is_associative(a, p / a, b);
                vstd::arithmetic::mul::lemma_mul_is_commutative(a, p / a);
                vstd::arithmetic::mul::lemma_mul_is_associative(p / a, a, b);
            }
            assert(a * b == p * k);
            assert((p / a) * (p * k) == p * ((p / a) * k)) by {
                vstd::arithmetic::mul::lemma_mul_is_associative(p / a, p, k);
                vstd::arithmetic::mul::lemma_mul_is_commutative(p / a, p);
                vstd::arithmetic::mul::lemma_mul_is_associative(p, p / a, k);
            }
            assert(p * b - p * ((p / a) * k) == p * (b - (p / a) * k)) by {
                vstd::arithmetic::mul::lemma_mul_is_distributive_sub(p, b, (p / a) * k);
            }
            vstd::arithmetic::mul::lemma_mul_is_commutative(p, b - (p / a) * k);
        }
        assert((r * b) % p == 0) by {
            vstd::arithmetic::div_mod::lemma_mod_multiples_basic(b - (p / a) * k, p);
        }
        lemma_euclid(p, r, b);
        if r % p == 0 {
            vstd::arithmetic::div_mod::lemma_small_mod(r as nat, p as nat);
            assert(false);
        }
    }
}

/// A prime dividing a positive power divides the base.
proof fn lemma_prime_divides_power(p: int, m: int, e: int)
    requires
        is_prime(p),
        m >= 1,
        e >= 1,
        pow(m, e as nat) % p == 0,
    ensures
        m % p == 0,
    decreases e,
{
    assert(pow(m, e as nat) == m * pow(m, (e - 1) as nat)) by {
        vstd::arithmetic::power::lemma_pow_adds(m, 1, (e - 1) as nat);
        vstd::arithmetic::power::lemma_pow1(m);
    }
    vstd::arithmetic::power::lemma_pow_positive(m, (e - 1) as nat);
    lemma_euclid(p, m, pow(m, (e - 1) as nat));
    if m % p != 0 {
        if e == 1 {
            vstd::arithmetic::power::lemma_pow0(m);
            vstd::arithmetic::div_mod::lemma_small_mod(1, p as nat);
            assert(false);
        } else {
            lemma_prime_divides_power(p, m, e - 1);
        }
    }
}

/// A prime dividing a prime equals it.
proof fn lemma_prime_divides_prime(p: int, q: int)
    requires
        is_prime(p),
        is_prime(q),
        q % p == 0,
    ensures
        p == q,
{
    if p < q {
        assert(q % p != 0);
        assert(false);
    }
    if p > q {
        vstd::arithmetic::div_mod::lemma_small_mod(q as nat, p as nat);
        assert(false);
    }
}

/// A record of positive entries has a positive product.
proof fn lemma_product_pos(fs: Seq<(u64, u32)>)
    requires
        forall|j: int| 0 <= j < fs.len() ==> (#[trigger] fs[j]).0 >= 1,
    ensures
        factors_product(fs) >= 1,
    decreases fs.len(),
{
    if fs.len() > 0 {
        lemma_product_pos(fs.drop_last());
        vstd::arithmetic::power::lemma_pow_positive(fs.last().0 as int, fs.last().1 as nat);
        vstd::arithmetic::mul::lemma_mul_inequality(
            1,
            factors_product(fs.drop_last()),
            pow(fs.last().0 as int, fs.last().1 as nat),
        );
        vstd::arithmetic::mul::lemma_mul_basics(pow(fs.last().0 as int, fs.last().1 as nat));
    }
}

/// Each prime listed in a record divides the record's product.
proof fn lemma_record_prime_divides_product(fs: Seq<(u64, u32)>, i: int)
    requires
        0 <= i < fs.len(),
        forall|j: int| 0 <= j < fs.len() ==> (#[trigger] fs[j]).0 >= 1,
        forall|j: int| 0 <= j < fs.len() ==> (#[trigger] fs[j]).1 >= 1,
    ensures
        factors_product(fs) % (fs[i].0 as int) == 0,
    decreases fs.len(),
{
    let p = fs[i].0 as int;
    let q = fs.last().0 as int;
    let e = fs.last().1 as int;
    let rest = factors_product(fs.drop_last());
    lemma_product_pos(fs.drop_last());
    vstd::arithmetic::power::lemma_pow_positive(q, fs.last().1 as nat);
    if i == fs.len() - 1 {
        assert(pow(q, fs.last().1 as nat) == pow(q, (e - 1) as nat) * q) by {
            vstd::arithmetic::power::lemma_pow_adds(q, (e - 1) as nat, 1);
            vstd::arithmetic::power::lemma_pow1(q);
        }
        assert(pow(q, fs.last().1 as nat) % q == 0) by {
            vstd::arithmetic::div_mod::lemma_mod_multiples_basic(pow(q, (e - 1) as nat), q);
        }
        vstd::arithmetic::power::lemma_pow_positive(q, (e - 1) as nat);
        lemma_divides_multiple(rest, pow(q, fs.last().1 as nat), q);
    } else {
        lemma_record_prime_divides_product(fs.drop_last(), i);
        assert(fs.drop_last()[i] == fs[i]);
        assert(factors_product(fs) == pow(q, fs.last().1 as nat) * rest) by {
            vstd::arithmetic::mul::lemma_mul_is_commutative(rest, pow(q, fs.last().1 as nat));
        }
        lemma_divides_multiple(pow(q, fs.last().1 as nat), rest, p);
    }
}

/// A prime dividing a record's product is listed in the record.
proof fn lemma_prime_in_record(p: int, fs: Seq<(u64, u32)>)
    requires
        is_prime(p),
        forall|j: int| 0 <= j < fs.len() ==> is_prime((#[trigger] fs[j]).0 as int),
        forall|j: int| 0 <= j < fs.len() ==> (#[trigger] fs[j]).1 >= 1,
        factors_product(fs) % p == 0,
    ensures
        exists|i: int| 0 <= i < fs.len() && (#[trigger] fs[i]).0 == p,
    decreases fs.len(),
{
    assert(forall|j: int| 0 <= j < fs.len() ==> (#[trigger] fs[j]).0 >= 1);
    if fs.len() == 0 {
        vstd::arithmetic::div_mod::lemma_small_mod(1, p as nat);
        assert(false);
    } else {
        let q = fs.last().0 as int;
        let e = fs.last().1 as int;
        let rest = factors_product(fs.drop_last());
        lemma_product_pos(fs.drop_last());
        vstd::arithmetic::power::lemma_pow_positive(q, fs.last().1 as nat);
        lemma_euclid(p, rest, pow(q, fs.last().1 as nat));
        if pow(q, fs.last().1 as nat) % p == 0 {
            lemma_prime_divides_power(p, q, e);
            lemma_prime_divides_prime(p, q);
            assert(fs[fs.len() - 1].0 == p);
        } else {
            lemma_prime_in_record(p, fs.drop_last());
            let i = choose|i: int|
                0 <= i < fs.drop_last().len() && (#[trigger] fs.drop_last()[i]).0 == p;
            assert(fs[i].0 == p);
        }
    }
}

/// If a prime is listed for one base and the bases share a power, the same
/// prime is listed for the other base.
proof fn lemma_shared_power_shares_primes(
    p: u64,
    n: u64,
    m: u64,
    fsn: Seq<(u64, u32)>,
    fsm: Seq<(u64, u32)>,
    a: int,
    b: int,
)
    requires
        n >= 1,
        m >= 1,
        a >= 1,
        b >= 1,
        valid_factorization(n as int, fsn),
        valid_factorization(m as int, fsm),
        record_has_prime(fsn, p),
        pow(n as int, a as nat) == pow(m as int, b as nat),
    ensures
        record_has_prime(fsm, p),
{
    let pi = p as int;
    let i = choose|i: int| 0 <= i < fsn.len() && (#[trigger] fsn[i]).0 == p;
    assert(is_prime(pi));
    assert(forall|j: int| 0 <= j < fsn.len() ==> (#[trigger] fsn[j]).0 >= 1);
    lemma_record_prime_divides_product(fsn, i);
    assert((n as int) % pi == 0);
    // the prime carries into every power of n
    assert(pow(n as int, a as nat) % pi == 0) by {
        assert(pow(n as int, a as nat) == pow(n as int, (a - 1) as nat) * (n as int)) by {
            vstd::arithmetic::power::lemma_pow_adds(n as int, (a - 1) as nat, 1);
            vstd::arithmetic::power::lemma_pow1(n as int);
        }
        vstd::arithmetic::power::lemma_pow_positive(n as int, (a - 1) as nat);
        lemma_divides_multiple(pow(n as int, (a - 1) as nat), n as int, pi);
    }
    lemma_prime_divides_power(pi, m as int, b);
    lemma_prime_in_record(pi, fsm);
    let j = choose|j: int| 0 <= j < fsm.len() && (#[trigger] fsm[j]).0 as int == pi;
    assert(fsm[j].0 == p);
}

/// Bases whose factorization records list different primes share no powers
/// at all: a listed prime of one divides each of its powers but no power of
/// the other.
pub proof fn lemma_distinct_prime_records_separate_powers(
    n: u64,
    m: u64,
    fsn: Seq<(u64, u32)>,
    fsm: Seq<(u64, u32)>,
)
    requires
        n >= 1,
        m >= 1,
        valid_factorization(n as int, fsn),
        valid_factorization(m as int, fsm),
        exists|p: u64| record_has_prime(fsn, p) != record_has_prime(fsm, p),
    ensures
        forall|a: int, b: int|
            #![trigger pow(n as int, a as nat), pow(m as int, b as nat)]
            1 <= a && 1 <= b ==> pow(n as int, a as nat) != pow(m as int, b as nat),
{
    let p = choose|p: u64| record_has_prime(fsn, p) != record_has_prime(fsm, p);
    assert forall|a: int, b: int|
        #![trigger pow(n as int, a as nat), pow(m as int, b as nat)]
        1 <= a && 1 <= b implies pow(n as int, a as nat) != pow(m as int, b as nat) by {
        if pow(n as int, a as nat) == pow(m as int, b as nat) {
            if record_has_prime(fsn, p) {
                lemma_shared_power_shares_primes(p, n, m, fsn, fsm, a, b);
            } else {
                lemma_shared_power_shares_primes(p, m, n, fsm, fsn, b, a);
            }
            assert(false);
        }
    }
}

/// Appending a prime power multiplies the record's product by it.
proof fn lemma_product_push(fs: Seq<(u64, u32)>, p: u64, e: u32)
    ensures
        factors_product(fs.push((p, e))) == factors_product(fs) * pow(p as int, e as nat),
{
    assert(fs.push((p, e)).drop_last() =~= fs);
    assert(fs.push((p, e)).last() == (p, e));
}

/// Divide out every factor `p` of `m`, returning the reduced number and the
/// exponent taken out.
fn strip_factor(m: u64, p: u64) -> (r: (u64, u32))
    requires
        1 <= m <= MAX_BASE,
        2 <= p <= MAX_BASE,
        m % p == 0,
    ensures
        1 <= r.0 <= MAX_BASE,
        r.0 % p != 0,
        r.1 >= 1,
        pow(p as int, r.1 as nat) * r.0 == m,
        forall|d: int| 2 <= d < p && #[trigger] ((m as int) % d) != 0 ==> (r.0 as int) % d != 0,
{
    let ghost m0 = m as int;
    let mut cur = m;
    let mut e: u32 = 0;
    proof {
        vstd::arithmetic::power::lemma_pow0(p as int);
        vstd::arithmetic::mul::lemma_mul_basics(cur as int);
        vstd::arithmetic::power2::lemma2_to64();
    }
    while cur % p == 0
        invariant
            1 <= cur,
            2 <= p <= MAX_BASE,
            m0 == m as int,
            1 <= m <= MAX_BASE,
            pow(p as int, e as nat) * cur == m0,
            cur * pow2(e as nat) <= m0,
            e == 0 ==> cur == m,
            e <= 16,
        decreases cur,
    {
        proof {
            // the exponent cannot pass 15 here: the number still divides by p,
            // so it is at least 2, and each step at least halves it
            assert(cur >= 2) by {
                if cur < p {
                    vstd::arithmetic::div_mod::lemma_small_mod(cur as nat, p as nat);
                }
            }
            assert(2 * pow2(e as nat) <= m0) by {
                vstd::arithmetic::power2::lemma_pow2_pos(e as nat);
                vstd::arithmetic::mul::lemma_mul_inequality(2, cur as int, pow2(e as nat) as int);
                vstd::arithmetic::mul::lemma_mul_is_commutative(2, pow2(e as nat) as int);
                vstd::arithmetic::mul::lemma_mul_is_commutative(cur as int, pow2(e as nat) as int);
            }
            if e >= 16 {
                vstd::arithmetic::power2::lemma2_to64();
                vstd::arithmetic::power2::lemma_pow2_unfold(e as nat + 1);
                vstd::arithmetic::power2::lemma_pow2_strictly_increases(16, e as nat + 1);
                assert(pow2(e as nat + 1) > 65536);
                assert(false);
            }
            vstd::arithmetic::div_mod::lemma_fundamental_div_mod(cur as int, p as int);
            vstd::arithmetic::div_mod::lemma_div_decreases(cur as int, p as int);
            vstd::arithmetic::div_mod::lemma_div_pos_is_pos(cur as int, p as int);
            assert(cur / p >= 1) by {
                if cur / p == 0 {
                    assert(cur as int == (p as int) * ((cur / p) as int) + (cur as int) % (
                    p as int));
                    vstd::arithmetic::mul::lemma_mul_by_zero_is_zero(p as int);
                }
            }
            // product bookkeeping for one more factor of p
            let q = (cur / p) as int;
            assert(pow(p as int, e as nat + 1) == pow(p as int, e as nat) * (p as int)) by {
                vstd::arithmetic::power::lemma_pow_adds(p as int, e as nat, 1);
                vstd::arithmetic::power::lemma_pow1(p as int);
            }
            assert((pow(p as int, e as nat) * (p as int)) * q == pow(p as int, e as nat) * ((
            p as int) * q)) by {
                vstd::arithmetic::mul::lemma_mul_is_associative(
                    pow(p as int, e as nat),
                    p as int,
                    q,
                );
            }
            // the halving bound
            assert(q * pow2(e as nat + 1) <= cur * pow2(e as nat)) by {
                vstd::arithmetic::power2::lemma_pow2_unfold(e as nat + 1);
                assert(q * 2 <= cur) by {
                    assert(cur as int == (p as int) * q);
                    vstd::arithmetic::mul::lemma_mul_inequality(2, p as int, q);
                    vstd::arithmetic::mul::lemma_mul_is_commutative(2, q);
                }
                assert(q * (2 * pow2(e as nat)) == (q * 2) * pow2(e as nat)) by {
                    vstd::arithmetic::mul::lemma_mul_is_associative(q, 2, pow2(e as nat) as int);
                }
                vstd::arithmetic::mul::lemma_mul_inequality(
                    q * 2,
                    cur as int,
                    pow2(e as nat) as int,
                );
            }
        }
        cur = cur / p;
        e = e + 1;
    }
    proof {
        if e == 0 {
            assert(cur == m && m % p == 0);
            assert(false);
        }
        // a divisor of the reduced number divides the number it came from
        assert forall|d: int| 2 <= d < p && #[trigger] (m0 % d) != 0 implies (cur as int) % d != 0 by {
            if (cur as int) % d == 0 {
                vstd::arithmetic::power::lemma_pow_positive(p as int, e as nat);
                lemma_divides_multiple(pow(p as int, e as nat), cur as int, d);
                assert(false);
            }
        }
        assert(cur <= MAX_BASE) by {
            vstd::arithmetic::power::lemma_pow_positive(p as int, e as nat);
            vstd::arithmetic::mul::lemma_mul_inequality(1, pow(p as int, e as nat), cur as int);
            vstd::arithmetic::mul::lemma_mul_is_commutative(pow(p as int, e as nat), cur as int);
        }
    }
    (cur, e)
}

/// Whether the trial divisor is still within the search range: `p * p <= m`.
fn square_within(p: u64, m: u64) -> (r: bool)
    requires
        p <= MAX_BASE,
    ensures
        r == ((p as int) * (p as int) <= m as int),
{
    proof {
        assert((p as int) * (p as int) <= 65536 * 65536) by (nonlinear_arith)
            requires
                p <= 65536,
        ;
    }
    p * p <= m
}

/// Factor `n` by trial division: strip the factor two, then odd divisors up
/// to the square root; any residual above one is itself prime.
pub fn prime_factorization(n: u64) -> (r: Vec<(u64, u32)>)
    requires
        1 <= n <= MAX_BASE,
    ensures
        valid_factorization(n as int, r@),
{
    let mut factors: Vec<(u64, u32)> = Vec::new();
    let mut m = n;
    proof {
        assert(factors_product(factors@) == 1);
        vstd::arithmetic::mul::lemma_mul_basics(m as int);
    }
    if m % 2 == 0 {
        let ghost before = factors@;
        let (reduced, e) = strip_factor(m, 2);
        factors.push((2, e));
        proof {
            lemma_product_push(before, 2, e);
            assert(is_prime(2));
        }
        m = reduced;
    }
    let mut p: u64 = 3;
    proof {
        assert forall|d: int| 2 <= d < 3 implies #[trigger] ((m as int) % d) != 0 by {
            assert(d == 2);
        }
    }
    while square_within(p, m)
        invariant
            1 <= m <= MAX_BASE,
            m % 2 != 0,
            3 <= p <= 259,
            p % 2 == 1,
            factors_product(factors@) * m == n,
            forall|d: int| 2 <= d < p ==> #[trigger] ((m as int) % d) != 0,
            forall|i: int|
                0 <= i < factors@.len() ==> is_prime(#[trigger] factors@[i].0 as int)
                    && factors@[i].1 >= 1,
            forall|i: int, j: int| 0 <= i < j < factors@.len() ==> factors@[i].0 < factors@[j].0,
            forall|i: int| 0 <= i < factors@.len() ==> (#[trigger] factors@[i]).0 < p,
        decreases 259 - p,
    {
        proof {
            // the divisor stays small: p * p <= m <= 65536
            if p > 256 {
                assert((p as int) * (p as int) > 65536) by (nonlinear_arith)
                    requires
                        p > 256,
                ;
                assert(false);
            }
        }
        if m % p == 0 {
            proof {
                // p divides m and nothing smaller does, so p is prime
                assert forall|d: int| 2 <= d < p implies #[trigger] ((p as int) % d) != 0 by {
                    if (p as int) % d == 0 {
                        lemma_divides_transitive(m as int, p as int, d);
                        assert(false);
                    }
                }
                assert(is_prime(p as int));
            }
            let ghost before = factors@;
            let ghost m_before = m as int;
            let (reduced, e) = strip_factor(m, p);
            factors.push((p, e));
            m = reduced;
            proof {
                lemma_product_push(before, p, e);
                // product: factors * reduced == n through pow(p, e)
                assert((factors_product(before) * pow(p as int, e as nat)) * (m as int)
                    == factors_product(before) * (pow(p as int, e as nat) * (m as int))) by {
                    vstd::arithmetic::mul::lemma_mul_is_associative(
                        factors_product(before),
                        pow(p as int, e as nat),
                        m as int,
                    );
                }
                // oddness survives: 2 divides neither
                assert((m as int) % 2 != 0);
                // no divisor below the next odd candidate is left
                assert forall|d: int| 2 <= d < p + 2 implies #[trigger] ((m as int) % d)
                    != 0 by {
                    if d < p {
                        assert(m_before % d != 0);
                    } else if d == p + 1 {
                        if (m as int) % d == 0 {
                            assert(d % 2 == 0);
                            lemma_divides_transitive(m as int, d, 2);
                            assert(false);
                        }
                    }
                }
            }
        } else {
            proof {
                assert forall|d: int| 2 <= d < p + 2 implies #[trigger] ((m as int) % d)
                    != 0 by {
                    if d == p + 1 {
                        if (m as int) % d == 0 {
                            assert(d % 2 == 0);
                            lemma_divides_transitive(m as int, d, 2);
                            assert(false);
                        }
                    }
                }
            }
        }
        p = p + 2;
    }
    proof {
        // past the square root: either nothing is left or the residue is prime
        assert((p as int) * (p as int) > m as int);
    }
    if m > 1 {
        proof {
            lemma_residue_prime(m as int, p as int);
            // the residue exceeds every recorded prime
            assert(m >= p) by {
                if m < p {
                    vstd::arithmetic::div_mod::lemma_mod_self_0(m as int);
                }
            }
        }
        let ghost before = factors@;
        factors.push((m, 1));
        proof {
            lemma_product_push(before, m, 1);
            vstd::arithmetic::power::lemma_pow1(m as int);
        }
    }
    factors
}

/// A residue above one with no divisor below `p`, where `p` already exceeds
/// its square root, is prime; used at the end of trial division.
proof fn lemma_residue_prime(m: int, p: int)
    requires
        m >= 2,
        p >= 2,
        p * p > m,
        forall|e: int| 2 <= e < p ==> #[trigger] (m % e) != 0,
    ensures
        is_prime(m),
{
    assert forall|d: int| 2 <= d < m implies #[trigger] (m % d) != 0 by {
        if m % d == 0 {
            assert(d >= p);
            vstd::arithmetic::div_mod::lemma_fundamental_div_mod(m, d);
            let q = m / d;
            assert(m == q * d);
            assert(q >= 1) by {
                vstd::arithmetic::div_mod::lemma_div_pos_is_pos(m, d);
                if q == 0 {
                    vstd::arithmetic::mul::lemma_mul_by_zero_is_zero(d);
                }
            }
            assert(q >= 2) by {
                if q == 1 {
                    vstd::arithmetic::mul::lemma_mul_basics(d);
                }
            }
            assert(m % q == 0) by {
                vstd::arithmetic::div_mod::lemma_mod_multiples_basic(d, q);
                vstd::arithmetic::mul::lemma_mul_is_commutative(d, q);
            }
            assert(q >= p);
            assert(m >= p * p) by {
                vstd::arithmetic::mul::lemma_mul_inequality(p, q, d);
                vstd::arithmetic::mul::lemma_mul_inequality(p, d, p);
                vstd::arithmetic::mul::lemma_mul_is_commutative(q, d);
                vstd::arithmetic::mul::lemma_mul_is_commutative(p, d);
            }
            assert(false);
        }
    }
}

/// An exact copy of a factorization record.
fn copy_factors(v: &Vec<(u64, u32)>) -> (r: Vec<(u64, u32)>)
    ensures
        r@ == v@,
{
    let mut r: Vec<(u64, u32)> = Vec::new();
    let mut i: usize = 0;
    while i < v.len()
        invariant
            i <= v@.len(),
            r@ == v@.take(i as int),
        decreases v@.len() - i,
    {
        let (p, e) = v[i];
        r.push((p, e));
        i = i + 1;
        proof {
            assert(r@ =~= v@.take(i as int));
        }
    }
    proof {
        assert(v@.take(v@.len() as int) =~= v@);
    }
    r
}

/// A memoized map from base to prime factorization, filled on first query.
/// The engine owns one per conversion; entries are never evicted.
pub struct FactorCache {
    entries: Vec<(u64, Vec<(u64, u32)>)>,
}

impl FactorCache {
    /// Every stored record is the factorization of its key.
    pub closed spec fn wf(&self) -> bool {
        forall|i: int|
            0 <= i < self.entries@.len() ==> valid_factorization(
                (#[trigger] self.entries@[i]).0 as int,
                self.entries@[i].1@,
            )
    }

    /// An empty cache.
    pub fn new() -> (c: FactorCache)
        ensures
            c.wf(),
    {
        FactorCache { entries: Vec::new() }
    }

    /// Return the cached factorization of `n`, computing and storing it on
    /// the first query.
    pub fn get_factorization(&mut self, n: u64) -> (r: Vec<(u64, u32)>)
        requires
            old(self).wf(),
            1 <= n <= MAX_BASE,
        ensures
            final(self).wf(),
            valid_factorization(n as int, r@),
    {
        let count = self.entries.len();
        let mut i: usize = 0;
        while i < count
            invariant
                self.wf(),
                count == self.entries@.len(),
                1 <= n <= MAX_BASE,
            decreases count - i,
        {
            if self.entries[i].0 == n {
                return copy_factors(&self.entries[i].1);
            }
            i = i + 1;
        }
        let computed = prime_factorization(n);
        let result = copy_factors(&computed);
        self.entries.push((n, computed));
        result
    }
}

} // verus!
