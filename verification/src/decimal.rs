//! Signed fixed-point decimals: a `u128` magnitude, a number of decimal places
//! (`scale`) and a sign. A decimal stands for `±value / 10^scale`.
//!
//! Multiplication and division keep the scale of the left operand and truncate
//! towards zero; addition and subtraction are exact and need equal scales;
//! comparisons compare magnitudes at equal scales.
use vstd::prelude::*;
use crate::arith::{
    isqrt, isqrt_u128, lemma_div_between, lemma_div_mul_le, lemma_floor_div_bounds, lemma_isqrt,
    lemma_log2_floor_bounds, lemma_pow10_monotonic, lemma_pow10_positive, lemma_pow10_u128_range,
    lemma_two_pow_adds, lemma_two_pow_monotonic, lemma_two_pow_positive, lemma_two_pow_values,
    log2_floor, log2_floor_u128, pow10, pow10_u128, two_pow, two_pow_u128,
};

verus! {

/// The number of decimal places of token amounts.
pub const AMOUNT_SCALE: u8 = 6;

/// The largest scale whose denominator `10^scale` fits in a `u128`.
pub const MAX_SCALE: u8 = 38;

/// A signed fixed-point number `±value / 10^scale`.
#[derive(Clone, Copy, Debug)]
pub struct Decimal {
    /// Magnitude, in units of `10^-scale`.
    pub value: u128,
    /// Number of decimal places.
    pub scale: u8,
    /// Sign.
    pub negative: bool,
}

/// Why a decimal operation has no result.
#[derive(Clone, Copy, Debug, PartialEq, Eq, Structural)]
pub enum DecimalError {
    /// The operands have different scales.
    DifferentScale,
    /// The result does not fit in a `u128` magnitude.
    Overflow,
    /// Square root of a negative number.
    NegativeRoot,
    /// Logarithm of a number that is not positive.
    NonPositiveLog,
    /// The logarithm is computed for scales up to 18 only.
    ScaleTooLarge,
}

/// The decimal at `scale` whose signed magnitude is `t`.
pub open spec fn from_signed(t: int, scale: u8) -> Decimal {
    Decimal { value: (if t < 0 { -t } else { t }) as u128, scale, negative: t < 0 }
}

/// `|t|`.
pub open spec fn abs(t: int) -> int {
    if t < 0 {
        -t
    } else {
        t
    }
}

/// One, in units of `10^-18`.
pub const WAD: u128 = 1_000_000_000_000_000_000;

/// `ln 2`, in units of `10^-18`, truncated.
pub const LN2_WAD: u128 = 693_147_180_559_945_309;

/// `ln 10`, in units of `10^-18`, truncated.
pub const LN10_WAD: u128 = 2_302_585_092_994_045_684;

/// The largest scale at which `ln` is computed; it works at 18 places.
pub const LN_MAX_SCALE: u8 = 18;

/// The number of binary digits of an exponent's fractional part that `pow`
/// takes into account.
pub const POW_FRACTION_BITS: u32 = 64;

/// `v / 2^m` in units of `10^-18`, for `m` the floor of the binary logarithm
/// of `v`: a number in `[1, 2)`. Past 2^60 the low bits of `v` are dropped
/// before the division.
pub open spec fn mantissa_wad(v: nat) -> nat {
    let m = log2_floor(v);
    if m <= 60 {
        v * (WAD as nat) / two_pow(m)
    } else {
        (v / two_pow((m - 60) as nat)) * (WAD as nat) / two_pow(60)
    }
}

/// The tail `sum_{j >= k} term_j / (2j + 1)` of the series of `atanh`, where
/// each term is the previous one times `z2`, truncated to `10^-18`.
pub open spec fn atanh_series(term: nat, z2: nat, k: nat) -> nat
    decreases term,
{
    if term == 0 || z2 >= WAD {
        0
    } else {
        proof {
            lemma_series_term_decreases(term, z2);
        }
        term / (2 * k + 1) + atanh_series(term * z2 / (WAD as nat), z2, k + 1)
    }
}

/// `ln y` for `y` in `[1, 2)` in units of `10^-18`, as `2 atanh((y - 1) / (y + 1))`.
pub open spec fn ln_mantissa_wad(y: nat) -> nat {
    let z = ((y - WAD) * (WAD as int) / (y + WAD)) as nat;
    2 * atanh_series(z, z * z / (WAD as nat), 0)
}

/// `ln(v / 10^s)` in units of `10^-18`: `m ln 2 + ln(v / 2^m) - s ln 10`.
pub open spec fn ln_wad(v: nat, s: nat) -> int {
    log2_floor(v) * LN2_WAD + ln_mantissa_wad(mantissa_wad(v)) - s * LN10_WAD
}

/// The next term of the series is smaller than the current one.
pub proof fn lemma_series_term_decreases(term: nat, z2: nat)
    requires
        term > 0,
        z2 < WAD,
    ensures
        term * z2 / (WAD as nat) < term,
{
    assert(term * z2 < term * (WAD as nat)) by (nonlinear_arith)
        requires
            term > 0,
            z2 < WAD,
    ;
    lemma_div_between((term * z2) as int, WAD as int, 0, term as int);
}

/// Rescaling to a decimal's own scale has a result and changes nothing.
pub proof fn lemma_rescale_same(d: Decimal)
    ensures
        d.rescale_ok(d.scale),
        d.rescaled(d.scale) == d,
{
    assert((d.scale - d.scale) as nat == 0);
    assert(pow10(0) == 1);
    assert(d.value * pow10(0) == d.value);
}

/// A signed magnitude that fits is read back unchanged.
pub proof fn lemma_from_signed(t: int, scale: u8)
    requires
        abs(t) <= u128::MAX,
    ensures
        from_signed(t, scale).signed() == t,
        from_signed(t, scale).scale == scale,
{
}

/// Subtracting what was added gives back the first operand.
pub proof fn lemma_sum_then_difference(a: Decimal, b: Decimal)
    requires
        a.add_ok(b),
    ensures
        a.sum(b).sub_ok(b),
        a.sum(b).difference(b).signed() == a.signed(),
{
    lemma_from_signed(a.signed() + b.signed(), a.scale);
    assert(abs(a.signed()) <= u128::MAX);
    lemma_from_signed(a.signed(), a.scale);
}

/// Scaling up and back down gives back the decimal it started from.
pub proof fn lemma_rescale_round_trip(a: Decimal, scale: u8)
    requires
        a.scale <= scale,
        a.rescale_ok(scale),
    ensures
        a.rescaled(scale).rescale_ok(a.scale),
        a.rescaled(scale).rescaled(a.scale) == a,
{
    let d = (scale - a.scale) as nat;
    lemma_pow10_positive(d);
    if a.scale == scale {
        lemma_rescale_same(a);
    } else {
        let up = a.rescaled(scale);
        assert(up.value == a.value * pow10(d));
        vstd::arithmetic::div_mod::lemma_div_by_multiple(a.value as int, pow10(d) as int);
    }
}

/// The quotient is truncated: `q * |b| <= |a| * 10^b.scale < (q + 1) * |b|`
/// for `q` its magnitude.
pub proof fn lemma_quotient_bounds(a: Decimal, b: Decimal)
    requires
        a.div_ok(b),
    ensures
        a.quotient(b).value * b.value <= a.value * b.denom(),
        a.value * b.denom() < (a.quotient(b).value + 1) * b.value,
        a.quotient(b).scale == a.scale,
{
    lemma_floor_div_bounds((a.value as nat) * b.denom(), b.value as nat);
}

/// The product is truncated: `p * 10^b.scale <= |a| * |b| < (p + 1) * 10^b.scale`
/// for `p` its magnitude.
pub proof fn lemma_product_bounds(a: Decimal, b: Decimal)
    requires
        a.mul_ok(b),
    ensures
        a.product(b).value * b.denom() <= a.value * b.value,
        a.value * b.value < (a.product(b).value + 1) * b.denom(),
        a.product(b).scale == a.scale,
{
    lemma_pow10_positive(b.scale as nat);
    lemma_floor_div_bounds((a.value * b.value) as nat, b.denom());
}

/// The square root is the integer square root of `value * 10^scale`:
/// `r * r <= value * 10^scale < (r + 1) * (r + 1)`.
pub proof fn lemma_root_bounds(a: Decimal)
    requires
        a.sqrt_ok(),
    ensures
        a.root().value * a.root().value <= a.value * a.denom(),
        a.value * a.denom() < (a.root().value + 1) * (a.root().value + 1),
        a.root().scale == a.scale,
        !a.root().negative,
{
    lemma_isqrt((a.value as nat) * a.denom());
    let n = (a.value as nat) * a.denom();
    assert(isqrt(n) <= n) by (nonlinear_arith)
        requires
            isqrt(n) * isqrt(n) <= n,
    ;
}

/// `x / 10^s * 10^s` style cancellation: `(10^s * v) / 10^s == v`.
proof fn lemma_cancel_pow10(v: nat, s: nat)
    ensures
        (pow10(s) * v) / pow10(s) == v,
        (v * pow10(s)) / pow10(s) == v,
{
    lemma_pow10_positive(s);
    vstd::arithmetic::div_mod::lemma_div_multiples_vanish(v as int, pow10(s) as int);
    vstd::arithmetic::mul::lemma_mul_is_commutative(v as int, pow10(s) as int);
}

/// A power with exponent `±1` is the base itself (with the sign of zero
/// cleared).
pub proof fn lemma_power_unit_exponent(q: Decimal, e: Decimal)
    requires
        q.scale <= MAX_SCALE,
        e.scale <= MAX_SCALE,
        e.value as nat == e.denom(),
    ensures
        q.power(e) == (Decimal { value: q.value, scale: q.scale, negative: q.negative && q.value != 0 }),
{
    lemma_pow10_positive(e.scale as nat);
    vstd::arithmetic::div_mod::lemma_div_by_multiple(1, e.denom() as int);
    vstd::arithmetic::div_mod::lemma_mod_multiples_basic(1, e.denom() as int);
    assert(e.value as nat / e.denom() == 1);
    assert(e.value as nat % e.denom() == 0);
    assert(pow_int(q, 1) == pow_int(q, 0).product(q));
    lemma_cancel_pow10(q.value as nat, q.scale as nat);
    lemma_pow10_monotonic(q.scale as nat, 38);
    lemma_pow10_u128_range();
}

/// A power with exponent zero is one at the base's scale.
pub proof fn lemma_power_zero_exponent(q: Decimal, e: Decimal)
    requires
        e.value == 0,
        e.scale <= MAX_SCALE,
    ensures
        q.power(e) == one_at(q.scale),
{
    lemma_pow10_positive(e.scale as nat);
    assert(0nat / e.denom() == 0);
    assert(0nat % e.denom() == 0);
}

/// Dividing by one keeps the magnitude and the sign (with the sign of zero
/// cleared).
pub proof fn lemma_quotient_by_one(a: Decimal, s: u8)
    requires
        s <= MAX_SCALE,
    ensures
        a.quotient(one_at(s)) == (Decimal { value: a.value, scale: a.scale, negative: a.negative && a.value != 0 }),
        a.value * pow10(s as nat) <= u128::MAX ==> a.div_ok(one_at(s)),
{
    lemma_pow10_monotonic(s as nat, 38);
    lemma_pow10_u128_range();
    lemma_pow10_positive(s as nat);
    lemma_cancel_pow10(a.value as nat, s as nat);
}

/// Multiplication at one scale commutes.
pub proof fn lemma_product_commutes(a: Decimal, b: Decimal)
    requires
        a.scale == b.scale,
    ensures
        a.mul_ok(b) == b.mul_ok(a),
        a.product(b) == b.product(a),
{
    vstd::arithmetic::mul::lemma_mul_is_commutative(a.value as int, b.value as int);
}

/// One at the given scale.
pub open spec fn one_at(scale: u8) -> Decimal {
    Decimal { value: pow10(scale as nat) as u128, scale, negative: false }
}

/// `x^n` by squaring, each product truncated at `x`'s scale.
pub open spec fn pow_int(x: Decimal, n: nat) -> Decimal
    decreases n,
{
    if n == 0 {
        one_at(x.scale)
    } else if n % 2 == 0 {
        let h = pow_int(x, n / 2);
        h.product(h)
    } else {
        pow_int(x, (n - 1) as nat).product(x)
    }
}

/// Every product in `pow_int(x, n)` has a result.
pub open spec fn pow_int_ok(x: Decimal, n: nat) -> bool
    decreases n,
{
    if n == 0 {
        x.scale <= MAX_SCALE
    } else if n % 2 == 0 {
        let h = pow_int(x, n / 2);
        pow_int_ok(x, n / 2) && h.mul_ok(h)
    } else {
        pow_int_ok(x, (n - 1) as nat) && pow_int(x, (n - 1) as nat).mul_ok(x)
    }
}

/// `acc * root^(f / den)` by the binary digits of `f / den` (at most `bits` of
/// them): each digit takes one more square root of `root`, and a digit 1
/// multiplies that root into the accumulator.
pub open spec fn pow_frac(acc: Decimal, root: Decimal, f: nat, den: nat, bits: nat) -> Decimal
    decreases bits,
{
    if f == 0 || bits == 0 {
        acc
    } else {
        let r2 = root.root();
        if 2 * f >= den {
            pow_frac(acc.product(r2), r2, (2 * f - den) as nat, den, (bits - 1) as nat)
        } else {
            pow_frac(acc, r2, 2 * f, den, (bits - 1) as nat)
        }
    }
}

/// Every root and product in `pow_frac` has a result.
pub open spec fn pow_frac_ok(acc: Decimal, root: Decimal, f: nat, den: nat, bits: nat) -> bool
    decreases bits,
{
    if f == 0 || bits == 0 {
        true
    } else {
        let r2 = root.root();
        &&& root.sqrt_ok()
        &&& if 2 * f >= den {
            acc.mul_ok(r2) && pow_frac_ok(acc.product(r2), r2, (2 * f - den) as nat, den, (bits - 1) as nat)
        } else {
            pow_frac_ok(acc, r2, 2 * f, den, (bits - 1) as nat)
        }
    }
}

impl Decimal {
    /// `10^scale`: the number of units in one.
    pub open spec fn denom(self) -> nat {
        pow10(self.scale as nat)
    }

    /// The signed magnitude, in units of `10^-scale`.
    pub open spec fn signed(self) -> int {
        if self.negative {
            -(self.value as int)
        } else {
            self.value as int
        }
    }

    /// `to_scale` has a result: the factor `10^|scale - self.scale|` fits in a
    /// `u128`, and so does the magnitude when scaling up.
    pub open spec fn rescale_ok(self, scale: u8) -> bool {
        if self.scale > scale {
            self.scale - scale <= MAX_SCALE
        } else {
            &&& scale - self.scale <= MAX_SCALE
            &&& self.value * pow10((scale - self.scale) as nat) <= u128::MAX
        }
    }

    /// The same number at another scale; scaling down truncates the magnitude.
    pub open spec fn rescaled(self, scale: u8) -> Decimal {
        if self.scale > scale {
            Decimal {
                value: (self.value as nat / pow10((self.scale - scale) as nat)) as u128,
                scale,
                negative: self.negative,
            }
        } else {
            Decimal {
                value: (self.value * pow10((scale - self.scale) as nat)) as u128,
                scale,
                negative: self.negative,
            }
        }
    }

    /// `mul` has a result.
    pub open spec fn mul_ok(self, rhs: Decimal) -> bool {
        &&& rhs.scale <= MAX_SCALE
        &&& self.value * rhs.value <= u128::MAX
    }

    /// The product at the left operand's scale, truncated towards zero.
    pub open spec fn product(self, rhs: Decimal) -> Decimal {
        let v = (self.value * rhs.value) as nat / rhs.denom();
        Decimal { value: v as u128, scale: self.scale, negative: self.negative != rhs.negative && v != 0 }
    }

    /// `div` has a result.
    pub open spec fn div_ok(self, rhs: Decimal) -> bool {
        &&& rhs.scale <= MAX_SCALE
        &&& rhs.value != 0
        &&& self.value * rhs.denom() <= u128::MAX
    }

    /// The quotient at the left operand's scale, truncated towards zero.
    pub open spec fn quotient(self, rhs: Decimal) -> Decimal {
        let v = ((self.value as nat) * rhs.denom()) / (rhs.value as nat);
        Decimal { value: v as u128, scale: self.scale, negative: self.negative != rhs.negative && v != 0 }
    }

    /// `add` has a result: equal scales and a magnitude that fits.
    pub open spec fn add_ok(self, rhs: Decimal) -> bool {
        &&& self.scale == rhs.scale
        &&& abs(self.signed() + rhs.signed()) <= u128::MAX
    }

    /// The exact sum.
    pub open spec fn sum(self, rhs: Decimal) -> Decimal {
        from_signed(self.signed() + rhs.signed(), self.scale)
    }

    /// `sub` has a result: equal scales and a magnitude that fits.
    pub open spec fn sub_ok(self, rhs: Decimal) -> bool {
        &&& self.scale == rhs.scale
        &&& abs(self.signed() - rhs.signed()) <= u128::MAX
    }

    /// The exact difference.
    pub open spec fn difference(self, rhs: Decimal) -> Decimal {
        from_signed(self.signed() - rhs.signed(), self.scale)
    }

    /// `sqrt` has a result.
    pub open spec fn sqrt_ok(self) -> bool {
        &&& !self.negative
        &&& self.scale <= MAX_SCALE
        &&& self.value * self.denom() <= u128::MAX
    }

    /// The square root, truncated: the magnitude is the integer square root of
    /// `value * 10^scale`.
    pub open spec fn root(self) -> Decimal {
        Decimal {
            value: isqrt((self.value as nat) * self.denom()) as u128,
            scale: self.scale,
            negative: false,
        }
    }

    /// `ln` has a result.
    pub open spec fn ln_ok(self) -> bool {
        &&& !self.negative
        &&& self.value > 0
        &&& self.scale <= LN_MAX_SCALE
    }

    /// The natural logarithm at `self`'s scale, truncated towards zero from
    /// its value at 18 places.
    pub open spec fn log(self) -> Decimal {
        let l = ln_wad(self.value as nat, self.scale as nat);
        let mag = abs(l) / (pow10((LN_MAX_SCALE - self.scale) as nat) as int);
        Decimal { value: mag as u128, scale: self.scale, negative: l < 0 && mag != 0 }
    }

    /// `pow` has a result.
    pub open spec fn pow_ok(self, exp: Decimal) -> bool {
        let n = exp.value as nat / exp.denom();
        let f = exp.value as nat % exp.denom();
        &&& exp.scale <= MAX_SCALE
        &&& pow_int_ok(self, n)
        &&& pow_frac_ok(pow_int(self, n), self, f, exp.denom(), POW_FRACTION_BITS as nat)
    }

    /// `self` to the power of `|exp|`: the integer part by squaring, the
    /// fractional part by repeated square roots.
    pub open spec fn power(self, exp: Decimal) -> Decimal {
        let n = exp.value as nat / exp.denom();
        let f = exp.value as nat % exp.denom();
        pow_frac(pow_int(self, n), self, f, exp.denom(), POW_FRACTION_BITS as nat)
    }

    /// A decimal `value / 10^scale` with the given sign.
    pub fn new(value: u128, scale: u8, negative: bool) -> (r: Decimal)
        ensures
            r == (Decimal { value, scale, negative }),
    {
        Decimal { value, scale, negative }
    }

    /// The integer `integer`, at scale 0.
    pub fn from_u64(integer: u64) -> (r: Decimal)
        ensures
            r == (Decimal { value: integer as u128, scale: 0, negative: false }),
    {
        Decimal { value: integer as u128, scale: 0, negative: false }
    }

    /// The integer `integer`, at scale 0.
    pub fn from_u128(integer: u128) -> (r: Decimal)
        ensures
            r == (Decimal { value: integer, scale: 0, negative: false }),
    {
        Decimal { value: integer, scale: 0, negative: false }
    }

    /// A token amount given in units of `10^-AMOUNT_SCALE`.
    pub fn from_amount(amount: u64) -> (r: Decimal)
        ensures
            r == (Decimal { value: amount as u128, scale: AMOUNT_SCALE, negative: false }),
    {
        Decimal { value: amount as u128, scale: AMOUNT_SCALE, negative: false }
    }

    /// The same number at another scale; scaling down truncates.
    pub fn to_scale(self, scale: u8) -> (r: Decimal)
        requires
            self.rescale_ok(scale),
        ensures
            r == self.rescaled(scale),
    {
        if self.scale > scale {
            let f = pow10_u128(self.scale - scale);
            proof {
                lemma_pow10_positive((self.scale - scale) as nat);
            }
            Decimal { value: self.value / f, scale, negative: self.negative }
        } else {
            let f = pow10_u128(scale - self.scale);
            Decimal { value: self.value * f, scale, negative: self.negative }
        }
    }

    /// The same number at the scale of token amounts.
    pub fn to_amount(self) -> (r: Decimal)
        requires
            self.rescale_ok(AMOUNT_SCALE),
        ensures
            r == self.rescaled(AMOUNT_SCALE),
    {
        self.to_scale(AMOUNT_SCALE)
    }

    /// The product, at `self`'s scale, truncated towards zero.
    pub fn mul(self, rhs: Decimal) -> (r: Decimal)
        requires
            self.mul_ok(rhs),
        ensures
            r == self.product(rhs),
    {
        let d = pow10_u128(rhs.scale);
        proof {
            lemma_pow10_positive(rhs.scale as nat);
        }
        let v = self.value * rhs.value / d;
        Decimal { value: v, scale: self.scale, negative: self.negative != rhs.negative && v != 0 }
    }

    /// The quotient, at `self`'s scale, truncated towards zero.
    pub fn div(self, rhs: Decimal) -> (r: Decimal)
        requires
            self.div_ok(rhs),
        ensures
            r == self.quotient(rhs),
    {
        let d = pow10_u128(rhs.scale);
        let v = self.value * d / rhs.value;
        Decimal { value: v, scale: self.scale, negative: self.negative != rhs.negative && v != 0 }
    }

    /// Adds two signed magnitudes; `DifferentScale` or `Overflow` where no sum
    /// exists.
    fn add_signed(self, rhs_value: u128, rhs_negative: bool) -> (r: Result<Decimal, DecimalError>)
        ensures
            ({
                let t = self.signed() + (if rhs_negative { -(rhs_value as int) } else { rhs_value as int });
                &&& abs(t) <= u128::MAX ==> r == Ok::<Decimal, DecimalError>(from_signed(t, self.scale))
                &&& abs(t) > u128::MAX ==> r == Err::<Decimal, DecimalError>(DecimalError::Overflow)
            }),
    {
        if self.negative == rhs_negative {
            match self.value.checked_add(rhs_value) {
                Some(v) => Ok(Decimal { value: v, scale: self.scale, negative: self.negative && v != 0 }),
                None => Err(DecimalError::Overflow),
            }
        } else if self.value >= rhs_value {
            let v = self.value - rhs_value;
            Ok(Decimal { value: v, scale: self.scale, negative: self.negative && v != 0 })
        } else {
            Ok(Decimal { value: rhs_value - self.value, scale: self.scale, negative: rhs_negative })
        }
    }

    /// The exact sum; `DifferentScale` when the scales differ, `Overflow`
    /// when the magnitude does not fit.
    pub fn add(self, rhs: Decimal) -> (r: Result<Decimal, DecimalError>)
        ensures
            self.scale != rhs.scale ==> r == Err::<Decimal, DecimalError>(DecimalError::DifferentScale),
            self.scale == rhs.scale && !self.add_ok(rhs) ==> r == Err::<Decimal, DecimalError>(DecimalError::Overflow),
            self.add_ok(rhs) ==> r == Ok::<Decimal, DecimalError>(self.sum(rhs)),
    {
        if self.scale != rhs.scale {
            return Err(DecimalError::DifferentScale);
        }
        self.add_signed(rhs.value, rhs.negative)
    }

    /// The exact difference; `DifferentScale` when the scales differ,
    /// `Overflow` when the magnitude does not fit.
    pub fn sub(self, rhs: Decimal) -> (r: Result<Decimal, DecimalError>)
        ensures
            self.scale != rhs.scale ==> r == Err::<Decimal, DecimalError>(DecimalError::DifferentScale),
            self.scale == rhs.scale && !self.sub_ok(rhs) ==> r == Err::<Decimal, DecimalError>(DecimalError::Overflow),
            self.sub_ok(rhs) ==> r == Ok::<Decimal, DecimalError>(self.difference(rhs)),
    {
        if self.scale != rhs.scale {
            return Err(DecimalError::DifferentScale);
        }
        self.add_signed(rhs.value, !rhs.negative)
    }

    /// Whether the magnitudes are equal; `DifferentScale` when the scales differ.
    pub fn eq(self, other: Decimal) -> (r: Result<bool, DecimalError>)
        ensures
            self.scale != other.scale ==> r == Err::<bool, DecimalError>(DecimalError::DifferentScale),
            self.scale == other.scale ==> r == Ok::<bool, DecimalError>(self.value == other.value),
    {
        if self.scale != other.scale {
            Err(DecimalError::DifferentScale)
        } else {
            Ok(self.value == other.value)
        }
    }

    /// Whether `self`'s magnitude is less; `DifferentScale` when the scales differ.
    pub fn lt(self, other: Decimal) -> (r: Result<bool, DecimalError>)
        ensures
            self.scale != other.scale ==> r == Err::<bool, DecimalError>(DecimalError::DifferentScale),
            self.scale == other.scale ==> r == Ok::<bool, DecimalError>(self.value < other.value),
    {
        if self.scale != other.scale {
            Err(DecimalError::DifferentScale)
        } else {
            Ok(self.value < other.value)
        }
    }

    /// Whether `self`'s magnitude is greater; `DifferentScale` when the scales differ.
    pub fn gt(self, other: Decimal) -> (r: Result<bool, DecimalError>)
        ensures
            self.scale != other.scale ==> r == Err::<bool, DecimalError>(DecimalError::DifferentScale),
            self.scale == other.scale ==> r == Ok::<bool, DecimalError>(self.value > other.value),
    {
        if self.scale != other.scale {
            Err(DecimalError::DifferentScale)
        } else {
            Ok(self.value > other.value)
        }
    }

    /// Whether `self`'s magnitude is less or equal; `DifferentScale` when the
    /// scales differ.
    pub fn lte(self, other: Decimal) -> (r: Result<bool, DecimalError>)
        ensures
            self.scale != other.scale ==> r == Err::<bool, DecimalError>(DecimalError::DifferentScale),
            self.scale == other.scale ==> r == Ok::<bool, DecimalError>(self.value <= other.value),
    {
        if self.scale != other.scale {
            Err(DecimalError::DifferentScale)
        } else {
            Ok(self.value <= other.value)
        }
    }

    /// Whether `self`'s magnitude is greater or equal; `DifferentScale` when
    /// the scales differ.
    pub fn gte(self, other: Decimal) -> (r: Result<bool, DecimalError>)
        ensures
            self.scale != other.scale ==> r == Err::<bool, DecimalError>(DecimalError::DifferentScale),
            self.scale == other.scale ==> r == Ok::<bool, DecimalError>(self.value >= other.value),
    {
        if self.scale != other.scale {
            Err(DecimalError::DifferentScale)
        } else {
            Ok(self.value >= other.value)
        }
    }

    /// Whether the two decimals agree in magnitude, scale and sign.
    pub fn same_as(&self, other: &Decimal) -> (r: bool)
        ensures
            r == (*self == *other),
    {
        self.value == other.value && self.scale == other.scale && self.negative == other.negative
    }

    /// The square root, truncated; `NegativeRoot` for a negative number,
    /// `Overflow` when `value * 10^scale` does not fit in a `u128`.
    pub fn sqrt(self) -> (r: Result<Decimal, DecimalError>)
        ensures
            self.negative ==> r == Err::<Decimal, DecimalError>(DecimalError::NegativeRoot),
            !self.negative && !self.sqrt_ok() ==> r == Err::<Decimal, DecimalError>(DecimalError::Overflow),
            self.sqrt_ok() ==> r == Ok::<Decimal, DecimalError>(self.root()),
    {
        if self.negative {
            return Err(DecimalError::NegativeRoot);
        }
        if self.scale > MAX_SCALE {
            return Err(DecimalError::Overflow);
        }
        let d = pow10_u128(self.scale);
        match self.value.checked_mul(d) {
            Some(n) => {
                let r = isqrt_u128(n);
                Ok(Decimal { value: r, scale: self.scale, negative: false })
            },
            None => Err(DecimalError::Overflow),
        }
    }
}

/// `v / 2^m` in units of `10^-18` for `m` the floor of `log2 v`.
fn mantissa_wad_u128(v: u128, m: u32) -> (y: u128)
    requires
        v >= 1,
        m == log2_floor(v as nat),
    ensures
        y == mantissa_wad(v as nat),
        WAD <= y < 2 * WAD,
{
    proof {
        lemma_log2_floor_bounds(v as nat);
        crate::arith::lemma_log2_floor_u128(v as nat);
        lemma_two_pow_values();
        lemma_two_pow_positive(m as nat);
    }
    if m <= 60 {
        let p = two_pow_u128(m);
        proof {
            lemma_two_pow_adds(m as nat, 1);
            lemma_two_pow_monotonic((m + 1) as nat, 61);
            assert(v * WAD <= u128::MAX) by (nonlinear_arith)
                requires
                    v < 2_305_843_009_213_693_952u128,
                    WAD == 1_000_000_000_000_000_000u128,
            ;
            assert((WAD as int) * (p as int) <= (v as int) * (WAD as int)) by (nonlinear_arith)
                requires
                    p <= v,
            ;
            assert((v as int) * (WAD as int) < (2 * WAD as int) * (p as int)) by (nonlinear_arith)
                requires
                    v < 2 * p,
            ;
            lemma_div_between((v * WAD) as int, p as int, WAD as int, 2 * WAD as int);
        }
        v * WAD / p
    } else {
        let p = two_pow_u128(m - 60);
        let q = two_pow_u128(60);
        proof {
            lemma_two_pow_positive((m - 60) as nat);
            lemma_two_pow_adds((m - 60) as nat, 60);
            lemma_two_pow_adds((m - 60) as nat, 61);
            assert((m - 60) as nat + 60 == m as nat);
            assert(((m - 60) as nat + 61) == (m + 1) as nat);
            lemma_two_pow_adds(m as nat, 1);
            assert((q as int) * (p as int) <= v as int);
            assert((v as int) < (2 * q as int) * (p as int));
            lemma_div_between(v as int, p as int, q as int, 2 * q as int);
        }
        let w = v / p;
        proof {
            assert(w * WAD <= u128::MAX) by (nonlinear_arith)
                requires
                    w < 2_305_843_009_213_693_952u128,
                    WAD == 1_000_000_000_000_000_000u128,
            ;
            assert((WAD as int) * (q as int) <= (w as int) * (WAD as int)) by (nonlinear_arith)
                requires
                    q <= w,
            ;
            assert((w as int) * (WAD as int) < (2 * WAD as int) * (q as int)) by (nonlinear_arith)
                requires
                    w < 2 * q,
            ;
            lemma_div_between((w * WAD) as int, q as int, WAD as int, 2 * WAD as int);
        }
        w * WAD / q
    }
}

/// `ln y` in units of `10^-18` for `y` in `[1, 2)` given in those units.
fn ln_mantissa_u128(y: u128) -> (r: u128)
    requires
        WAD <= y < 2 * WAD,
    ensures
        r == ln_mantissa_wad(y as nat),
        r < 2 * WAD,
{
    let a = (y - WAD) * WAD;
    let z = a / (y + WAD);
    proof {
        assert(3 * (a as int) < (WAD as int) * ((y + WAD) as int)) by (nonlinear_arith)
            requires
                a == (y - WAD) * WAD,
                y < 2 * WAD,
                WAD > 0,
        ;
        lemma_div_mul_le(a as int, (y + WAD) as int);
        assert(3 * z < WAD) by (nonlinear_arith)
            requires
                (z as int) * ((y + WAD) as int) <= a as int,
                3 * (a as int) < (WAD as int) * ((y + WAD) as int),
                y + WAD > 0,
        ;
    }
    assert(z * z <= u128::MAX) by (nonlinear_arith)
        requires
            3 * z < WAD,
            WAD == 1_000_000_000_000_000_000u128,
    ;
    let zz = z * z;
    let z2 = zz / WAD;
    proof {
        lemma_div_mul_le(zz as int, WAD as int);
        assert(9 * z2 < WAD) by (nonlinear_arith)
            requires
                (z2 as int) * (WAD as int) <= zz as int,
                zz == z * z,
                3 * z < WAD,
        ;
    }
    let mut term: u128 = z;
    let mut sum: u128 = 0;
    let mut k: u128 = 0;
    while term > 0
        invariant
            9 * z2 < WAD,
            3 * z < WAD,
            k + term <= z,
            8 * sum + 9 * term <= 9 * z,
            sum + atanh_series(term as nat, z2 as nat, k as nat) == atanh_series(
                z as nat,
                z2 as nat,
                0,
            ),
        decreases term,
    {
        assert(term * z2 <= u128::MAX) by (nonlinear_arith)
            requires
                term <= z,
                3 * z < WAD,
                9 * z2 < WAD,
                WAD == 1_000_000_000_000_000_000u128,
        ;
        let t2 = term * z2;
        let next = t2 / WAD;
        proof {
            lemma_div_mul_le(t2 as int, WAD as int);
            assert(9 * next <= term) by (nonlinear_arith)
                requires
                    (next as int) * (WAD as int) <= t2 as int,
                    t2 == term * z2,
                    9 * z2 < WAD,
            ;
            lemma_div_mul_le(term as int, (2 * k + 1) as int);
        }
        sum = sum + term / (2 * k + 1);
        term = next;
        k = k + 1;
    }
    2 * sum
}

impl Decimal {
    /// The natural logarithm at `self`'s scale; `NonPositiveLog` for a
    /// number that is not positive, `ScaleTooLarge` beyond 18 places.
    pub fn ln(self) -> (r: Result<Decimal, DecimalError>)
        ensures
            (self.negative || self.value == 0) ==> r == Err::<Decimal, DecimalError>(DecimalError::NonPositiveLog),
            !self.negative && self.value > 0 && self.scale > LN_MAX_SCALE ==> r == Err::<Decimal, DecimalError>(DecimalError::ScaleTooLarge),
            self.ln_ok() ==> r == Ok::<Decimal, DecimalError>(self.log()),
    {
        if self.negative || self.value == 0 {
            return Err(DecimalError::NonPositiveLog);
        }
        if self.scale > LN_MAX_SCALE {
            return Err(DecimalError::ScaleTooLarge);
        }
        let v = self.value;
        let m = log2_floor_u128(v);
        let y = mantissa_wad_u128(v, m);
        let lny = ln_mantissa_u128(y);
        let pos = (m as u128) * LN2_WAD + lny;
        let neg = (self.scale as u128) * LN10_WAD;
        let d = pow10_u128(LN_MAX_SCALE - self.scale);
        proof {
            lemma_pow10_positive((LN_MAX_SCALE - self.scale) as nat);
        }
        if pos >= neg {
            let mag = (pos - neg) / d;
            Ok(Decimal { value: mag, scale: self.scale, negative: false })
        } else {
            let mag = (neg - pos) / d;
            Ok(Decimal { value: mag, scale: self.scale, negative: mag != 0 })
        }
    }
}

/// `x^n` by squaring.
fn pow_int_exec(x: Decimal, n: u128) -> (r: Decimal)
    requires
        pow_int_ok(x, n as nat),
    ensures
        r == pow_int(x, n as nat),
    decreases n,
{
    if n == 0 {
        let v = pow10_u128(x.scale);
        Decimal { value: v, scale: x.scale, negative: false }
    } else if n % 2 == 0 {
        let h = pow_int_exec(x, n / 2);
        h.mul(h)
    } else {
        let p = pow_int_exec(x, n - 1);
        p.mul(x)
    }
}

impl Decimal {
    /// `self` to the power of `|exp|`: the integer part by squaring, the
    /// fractional part by repeated square roots; every step truncates at
    /// `self`'s scale.
    pub fn pow(self, exp: Decimal) -> (r: Decimal)
        requires
            self.pow_ok(exp),
        ensures
            r == self.power(exp),
    {
        let den = pow10_u128(exp.scale);
        proof {
            lemma_pow10_positive(exp.scale as nat);
            lemma_pow10_monotonic(exp.scale as nat, 38);
            lemma_pow10_u128_range();
        }
        let n = exp.value / den;
        let mut f = exp.value % den;
        let mut acc = pow_int_exec(self, n);
        let mut root = self;
        let mut bits: u32 = POW_FRACTION_BITS;
        let ghost target = self.power(exp);
        while f > 0 && bits > 0
            invariant
                0 < den <= 100_000_000_000_000_000_000_000_000_000_000_000_000u128,
                f < den,
                pow_frac_ok(acc, root, f as nat, den as nat, bits as nat),
                pow_frac(acc, root, f as nat, den as nat, bits as nat) == target,
            decreases bits,
        {
            let r2 = root.sqrt().unwrap();
            let f2 = 2 * f;
            if f2 >= den {
                acc = acc.mul(r2);
                f = f2 - den;
            } else {
                f = f2;
            }
            root = r2;
            bits = bits - 1;
        }
        acc
    }
}

} // verus!
