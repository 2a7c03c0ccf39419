//! Exact decimal numbers: a 96-bit integer mantissa together with a power of
//! ten scale, the representation that `rust_decimal::Decimal` uses.  The
//! mathematical value of a number is modelled as an integer count of units of
//! ten to the minus [`MAX_SCALE`], so that every representable number has an
//! exact integer model and arithmetic contracts are plain integer equations.

use vstd::prelude::*;

verus! {

/// Largest magnitude a mantissa may take: `2^96 - 1`.
pub const MAX_MANTISSA: i128 = 79228162514264337593543950335;

/// Largest number of fractional digits a value may carry.
pub const MAX_SCALE: u32 = 28;

/// Ten to the `k`-th power.
pub open spec fn pow10(k: nat) -> int
    decreases k,
{
    if k == 0 {
        1
    } else {
        10 * pow10((k - 1) as nat)
    }
}

/// An exact decimal number `mantissa * 10^(-scale)`.
#[derive(Clone, Copy, Debug, PartialEq, Eq, Structural)]
pub struct Num {
    pub mantissa: i128,
    pub scale: u32,
}

impl Num {
    /// The representation is one that `rust_decimal::Decimal` can hold.
    pub open spec fn wf(self) -> bool {
        &&& -MAX_MANTISSA <= self.mantissa <= MAX_MANTISSA
        &&& self.scale <= MAX_SCALE
    }

    /// The value as an integer count of units of `10^(-MAX_SCALE)`.
    pub open spec fn value(self) -> int {
        self.mantissa * pow10((MAX_SCALE - self.scale) as nat)
    }
}

/// `pow10` is positive.
pub proof fn lemma_pow10_pos(k: nat)
    ensures
        pow10(k) >= 1,
    decreases k,
{
    if k > 0 {
        lemma_pow10_pos((k - 1) as nat);
    }
}

/// `pow10` does not decrease as the exponent grows.
pub proof fn lemma_pow10_mono(j: nat, k: nat)
    requires
        j <= k,
    ensures
        pow10(j) <= pow10(k),
    decreases k,
{
    if j < k {
        lemma_pow10_mono(j, (k - 1) as nat);
        lemma_pow10_pos((k - 1) as nat);
    }
}

/// `pow10` at the maximum scale, as a bound for the smaller exponents.
pub proof fn lemma_pow10_bound(k: nat)
    requires
        k <= MAX_SCALE,
    ensures
        pow10(k) <= pow10(MAX_SCALE as nat),
        pow10(MAX_SCALE as nat) == 10000000000000000000000000000,
{
    lemma_pow10_mono(k, MAX_SCALE as nat);
    reveal_with_fuel(pow10, 29);
    assert(pow10(MAX_SCALE as nat) == 10000000000000000000000000000);
}

/// The larger of the two scales: the precision a sum or difference is carried
/// at.
pub open spec fn max_scale(a: Num, b: Num) -> u32 {
    if a.scale >= b.scale {
        a.scale
    } else {
        b.scale
    }
}

/// The exact sum of `a` and `b`, brought to their common scale, fits in a
/// 96-bit mantissa: `rust_decimal` then returns it without rounding.
pub open spec fn sum_fits(a: Num, b: Num) -> bool {
    let v = a.value() + b.value();
    -MAX_MANTISSA * pow10((MAX_SCALE - max_scale(a, b)) as nat) <= v <= MAX_MANTISSA * pow10(
        (MAX_SCALE - max_scale(a, b)) as nat,
    )
}

/// The exact difference `a - b`, brought to the common scale, fits in a
/// 96-bit mantissa.
pub open spec fn diff_fits(a: Num, b: Num) -> bool {
    let v = a.value() - b.value();
    -MAX_MANTISSA * pow10((MAX_SCALE - max_scale(a, b)) as nat) <= v <= MAX_MANTISSA * pow10(
        (MAX_SCALE - max_scale(a, b)) as nat,
    )
}

/// The exact product of `a` and `b` is representable without rounding: the
/// scales add up to no more than the maximum and the mantissa product fits.
pub open spec fn prod_fits(a: Num, b: Num) -> bool {
    &&& a.scale + b.scale <= MAX_SCALE
    &&& -MAX_MANTISSA <= a.mantissa * b.mantissa <= MAX_MANTISSA
}

/// What `rust_decimal`'s checked addition returns, as a function of the two
/// representations.
pub uninterp spec fn add_result(a: Num, b: Num) -> Option<Num>;

/// What `rust_decimal`'s checked subtraction returns.
pub uninterp spec fn sub_result(a: Num, b: Num) -> Option<Num>;

/// What `rust_decimal`'s checked multiplication returns.
pub uninterp spec fn mul_result(a: Num, b: Num) -> Option<Num>;

/// What `rust_decimal`'s checked division returns.
pub uninterp spec fn div_result(a: Num, b: Num) -> Option<Num>;

/// Relies on `rust_decimal::Decimal::checked_add`: `None` only on overflow,
/// and the exact sum whenever that sum, at the operands' common scale, fits in
/// the 96-bit mantissa (its addition rounds only when the aligned result
/// exceeds 96 bits).
#[verifier::external_body]
pub(crate) fn checked_add(a: &Num, b: &Num) -> (r: Option<Num>)
    requires
        a.wf(),
        b.wf(),
    ensures
        r == add_result(*a, *b),
        r matches Some(x) ==> x.wf(),
        sum_fits(*a, *b) ==> r is Some && r.unwrap().value() == a.value() + b.value(),
{
    let x = rust_decimal::Decimal::from_i128_with_scale(a.mantissa, a.scale);
    let y = rust_decimal::Decimal::from_i128_with_scale(b.mantissa, b.scale);
    match x.checked_add(y) {
        Some(d) => Some(Num { mantissa: d.mantissa(), scale: d.scale() }),
        None => None,
    }
}

/// Relies on `rust_decimal::Decimal::checked_sub`: `None` only on overflow,
/// and the exact difference whenever it fits at the operands' common scale.
#[verifier::external_body]
pub(crate) fn checked_sub(a: &Num, b: &Num) -> (r: Option<Num>)
    requires
        a.wf(),
        b.wf(),
    ensures
        r == sub_result(*a, *b),
        r matches Some(x) ==> x.wf(),
        diff_fits(*a, *b) ==> r is Some && r.unwrap().value() == a.value() - b.value(),
{
    let x = rust_decimal::Decimal::from_i128_with_scale(a.mantissa, a.scale);
    let y = rust_decimal::Decimal::from_i128_with_scale(b.mantissa, b.scale);
    match x.checked_sub(y) {
        Some(d) => Some(Num { mantissa: d.mantissa(), scale: d.scale() }),
        None => None,
    }
}

/// Relies on `rust_decimal::Decimal::checked_mul`: `None` only on overflow,
/// and the exact product whenever the mantissa product fits in 96 bits and the
/// scales sum to at most the maximum.  The product of the values carries a
/// factor of `10^MAX_SCALE`, since each value is a count of `10^(-MAX_SCALE)`
/// units.
#[verifier::external_body]
pub(crate) fn checked_mul(a: &Num, b: &Num) -> (r: Option<Num>)
    requires
        a.wf(),
        b.wf(),
    ensures
        r == mul_result(*a, *b),
        r matches Some(x) ==> x.wf(),
        prod_fits(*a, *b) ==> r is Some && r.unwrap().value() * pow10(MAX_SCALE as nat)
            == a.value() * b.value(),
{
    let x = rust_decimal::Decimal::from_i128_with_scale(a.mantissa, a.scale);
    let y = rust_decimal::Decimal::from_i128_with_scale(b.mantissa, b.scale);
    match x.checked_mul(y) {
        Some(d) => Some(Num { mantissa: d.mantissa(), scale: d.scale() }),
        None => None,
    }
}

/// Relies on `rust_decimal::Decimal::checked_div`: `None` when the divisor is
/// zero (and otherwise only on overflow); any returned quotient is a valid
/// representation.  The quotient is rounded to the available precision, so
/// nothing more than the name is claimed of its value.
#[verifier::external_body]
pub(crate) fn checked_div(a: &Num, b: &Num) -> (r: Option<Num>)
    requires
        a.wf(),
        b.wf(),
    ensures
        r == div_result(*a, *b),
        r matches Some(x) ==> x.wf(),
        b.value() == 0 ==> r is None,
{
    let x = rust_decimal::Decimal::from_i128_with_scale(a.mantissa, a.scale);
    let y = rust_decimal::Decimal::from_i128_with_scale(b.mantissa, b.scale);
    match x.checked_div(y) {
        Some(d) => Some(Num { mantissa: d.mantissa(), scale: d.scale() }),
        None => None,
    }
}

} // verus!
