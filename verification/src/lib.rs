//! Arbitrary-precision positional-numeral base conversion.
//!
//! A number is a sequence of digits, least-significant first, read in a base
//! from 2 to 65536. The reference converter performs classical long division;
//! the optimized converter picks among faster strategies (power-of-two
//! re-basing, a fixed-width accumulator fast path, aligned-base chunking)
//! that are each proved to produce the same canonical digit sequence.

pub mod baseline;
pub mod optimized;
pub mod digits;
pub mod factor;
pub mod utils;

use vstd::prelude::*;

pub use crate::baseline::convert_base as convert_base_baseline;
pub use crate::optimized::convert_base;
pub use crate::optimized::convert_base_with_cache;
pub use crate::utils::{
    compare_digits, digits_to_string, is_power_of_two, log2_of_power_of_two, string_to_digits,
    trim_leading_zeros,
};

use crate::digits::{
    canonical_form, converted, digits_below, is_canonical, lemma_canonical_value_injective,
    lemma_canonical_zero_form, lemma_trim_shape, lemma_trim_value, lemma_zero_like, seq_value,
    trim_spec, valid_base,
};

verus! {

/// Why a conversion request was rejected.
#[derive(Clone, Copy, Debug, PartialEq, Eq, Structural)]
pub enum ConvertError {
    /// `from_base` or `to_base` lies outside `[2, 65536]`.
    InvalidBase,
    /// Some input digit is not below `from_base`.
    InvalidDigit,
}

/// What any converter of this crate promises: success exactly on valid
/// input, each error exactly on its own violation, identity on equal bases,
/// and otherwise a canonical digit sequence worth the same integer.
pub open spec fn convert_post(
    digits: Seq<u64>,
    from_base: u64,
    to_base: u64,
    r: Result<Vec<u64>, ConvertError>,
) -> bool {
    &&& (r is Ok <==> valid_base(from_base) && valid_base(to_base) && digits_below(
        digits,
        from_base as int,
    ))
    &&& (r == Result::<Vec<u64>, ConvertError>::Err(ConvertError::InvalidBase) <==> !(
    valid_base(from_base) && valid_base(to_base)))
    &&& match r {
        Ok(out) => {
            &&& (from_base == to_base ==> out@ == digits)
            &&& (from_base != to_base ==> converted(digits, from_base, to_base, out@))
        },
        Err(_) => true,
    }
}

/// Convenience entry point that always dispatches through the strategy
/// selector; its behaviour is the reference converter's.
pub fn convert_base_auto(digits: &[u64], from_base: u64, to_base: u64) -> (r: Result<
    Vec<u64>,
    ConvertError,
>)
    ensures
        convert_post(digits@, from_base, to_base, r),
{
    crate::optimized::convert_base(digits, from_base, to_base)
}

/// Round trip: converting digits to another base and back yields their
/// canonical form. `e` and `g` stand for the two conversion results,
/// constrained exactly as the converters' contracts leave them. With equal
/// bases the converter returns its input unchanged, so there the input must
/// already be canonical (a non-canonical input such as a trailing zero digit
/// comes back unchanged, not canonicalized).
pub proof fn lemma_round_trip(d: Seq<u64>, e: Seq<u64>, g: Seq<u64>, b1: u64, b2: u64)
    requires
        valid_base(b1),
        valid_base(b2),
        digits_below(d, b1 as int),
        b1 == b2 ==> is_canonical(d) && e == d && g == e,
        b1 != b2 ==> converted(d, b1, b2, e) && converted(e, b2, b1, g),
    ensures
        g == canonical_form(d),
{
    if b1 == b2 {
        assert(trim_spec(d) == d);
    } else {
        if d.len() == 0 {
            lemma_canonical_zero_form(g, b1 as int);
        } else {
            let cf = trim_spec(d);
            lemma_trim_value(d, b1 as int);
            lemma_trim_shape(d);
            assert(digits_below(cf, b1 as int)) by {
                assert(forall|j: int| 0 <= j < cf.len() ==> cf[j] == d[j]);
            }
            lemma_canonical_value_injective(g, cf, b1 as int);
        }
    }
}

/// Strategy agreement: any two results that meet the conversion contract
/// for the same input are identical — on success the same digit sequence,
/// on failure the same error. In particular every optimized strategy
/// agrees with the reference converter.
pub proof fn lemma_strategy_agreement(
    digits: Seq<u64>,
    from_base: u64,
    to_base: u64,
    r1: Result<Vec<u64>, ConvertError>,
    r2: Result<Vec<u64>, ConvertError>,
)
    requires
        convert_post(digits, from_base, to_base, r1),
        convert_post(digits, from_base, to_base, r2),
    ensures
        r1 is Ok <==> r2 is Ok,
        (r1 is Ok && r2 is Ok) ==> (r1->Ok_0)@ == (r2->Ok_0)@,
        (r1 is Err && r2 is Err) ==> r1->Err_0 == r2->Err_0,
{
    if r1 is Ok && r2 is Ok && from_base != to_base {
        let o1 = r1->Ok_0;
        let o2 = r2->Ok_0;
        lemma_canonical_value_injective(o1@, o2@, to_base as int);
    }
}

/// Canonical zero: converting the canonical zero sequence succeeds and
/// yields the canonical zero sequence in any valid target base.
pub proof fn lemma_canonical_zero(
    digits: Seq<u64>,
    from_base: u64,
    to_base: u64,
    r: Result<Vec<u64>, ConvertError>,
)
    requires
        valid_base(from_base),
        valid_base(to_base),
        digits == seq![0u64],
        convert_post(digits, from_base, to_base, r),
    ensures
        r matches Ok(out) && out@ == seq![0u64],
{
    assert(digits_below(digits, from_base as int)) by {
        assert(digits[0] == 0);
    }
    assert(r is Ok);
    let out = r->Ok_0;
    if from_base != to_base {
        lemma_zero_like(digits, from_base as int);
        lemma_canonical_zero_form(out@, to_base as int);
    }
}

/// Identity: with equal source and target bases the converter returns its
/// input unchanged; this is the equal-bases clause of the contract itself.
pub proof fn lemma_identity(
    digits: Seq<u64>,
    base: u64,
    r: Result<Vec<u64>, ConvertError>,
)
    requires
        valid_base(base),
        digits_below(digits, base as int),
        convert_post(digits, base, base, r),
    ensures
        r matches Ok(out) && out@ == digits,
{
}

} // verus!

