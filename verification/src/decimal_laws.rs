//! Laws of the logarithm and of powers: monotonicity, and the sign of the
//! logarithm below one.
use vstd::prelude::*;
use crate::arith::{
    isqrt, lemma_div_mul_le, lemma_floor_div_bounds, lemma_isqrt_monotone, lemma_le_floor_div,
    lemma_log2_floor_bounds, lemma_log2_floor_unique, lemma_pow10_positive,
    lemma_pow10_u128_range, lemma_two_pow_values, log2_floor, pow10, two_pow,
};
use crate::decimal::{
    Decimal, LN10_WAD, LN2_WAD, LN_MAX_SCALE, WAD, abs, atanh_series, lemma_series_term_decreases, ln_mantissa_wad,
    ln_wad, mantissa_wad, pow_frac, pow_frac_ok, pow_int, pow_int_ok,
};

verus! {

// ----------------------------------------------------------------------
// The atanh series
// ----------------------------------------------------------------------
/// The series is at most `9/8` of its first term when each term is less
/// than a ninth of the one before.
pub proof fn lemma_series_bound(t: nat, z2: nat, k: nat)
    requires
        9 * z2 < WAD,
    ensures
        8 * atanh_series(t, z2, k) <= 9 * t,
    decreases t,
{
    if t > 0 {
        let next = t * z2 / (WAD as nat);
        lemma_series_term_decreases(t, z2);
        lemma_series_bound(next, z2, k + 1);
        lemma_floor_div_bounds(t * z2, WAD as nat);
        assert(9 * next <= t) by (nonlinear_arith)
            requires
                next * (WAD as nat) <= t * z2,
                9 * z2 < WAD,
        ;
        lemma_div_mul_le(t as int, (2 * k + 1) as int);
    }
}

/// The series grows with its first term and its ratio.
pub proof fn lemma_series_monotone(t1: nat, t2: nat, a: nat, b: nat, k: nat)
    requires
        t1 <= t2,
        a <= b,
        b < WAD,
    ensures
        atanh_series(t1, a, k) <= atanh_series(t2, b, k),
    decreases t2,
{
    if t1 > 0 {
        lemma_series_term_decreases(t2, b);
        assert(t1 * a <= t2 * b) by (nonlinear_arith)
            requires
                t1 <= t2,
                a <= b,
        ;
        vstd::arithmetic::div_mod::lemma_div_is_ordered((t1 * a) as int, (t2 * b) as int, WAD as int);
        vstd::arithmetic::div_mod::lemma_div_is_ordered(t1 as int, t2 as int, (2 * k + 1) as int);
        lemma_series_monotone(t1 * a / (WAD as nat), t2 * b / (WAD as nat), a, b, k + 1);
    }
}

/// `z = (y - 1) / (y + 1)` in units of `10^-18`, as the logarithm computes it.
pub open spec fn atanh_argument(y: nat) -> nat {
    ((y - WAD) * (WAD as int) / (y + WAD)) as nat
}

/// For `y` in `[1, 2)`, `z < 1/3` and `z^2 < 1/9`.
pub proof fn lemma_atanh_argument_small(y: nat)
    requires
        WAD <= y < 2 * WAD,
    ensures
        ln_mantissa_wad(y) == 2 * atanh_series(
            atanh_argument(y),
            atanh_argument(y) * atanh_argument(y) / (WAD as nat),
            0,
        ),
        3 * atanh_argument(y) < WAD,
        9 * (atanh_argument(y) * atanh_argument(y) / (WAD as nat)) < WAD,
{
    let a = ((y - WAD) * (WAD as int)) as nat;
    let b = (y + WAD) as nat;
    let z = atanh_argument(y);
    assert(3 * a < (WAD as nat) * b) by (nonlinear_arith)
        requires
            a == (y - WAD) * (WAD as int),
            b == y + WAD,
            y < 2 * WAD,
            WAD > 0,
    ;
    lemma_floor_div_bounds(a, b);
    assert(z == a / b);
    assert(3 * z < WAD) by (nonlinear_arith)
        requires
            z * b <= a,
            3 * a < (WAD as nat) * b,
            b > 0,
    ;
    let zz = z * z;
    lemma_floor_div_bounds(zz, WAD as nat);
    assert(9 * (zz / (WAD as nat)) < WAD) by (nonlinear_arith)
        requires
            (zz / (WAD as nat)) * (WAD as nat) <= zz,
            zz == z * z,
            3 * z < WAD,
    ;
}

/// `z` grows with `y`.
pub proof fn lemma_atanh_argument_monotone(y1: nat, y2: nat)
    requires
        WAD <= y1 <= y2,
    ensures
        atanh_argument(y1) <= atanh_argument(y2),
{
    let a1 = (y1 - WAD) * (WAD as int);
    let b1 = y1 + WAD;
    let a2 = (y2 - WAD) * (WAD as int);
    let b2 = y2 + WAD;
    assert(a1 * b2 <= a2 * b1) by (nonlinear_arith)
        requires
            a1 == (y1 - WAD) * (WAD as int),
            a2 == (y2 - WAD) * (WAD as int),
            b1 == y1 + WAD,
            b2 == y2 + WAD,
            WAD <= y1 <= y2,
    ;
    lemma_floor_div_bounds(a1 as nat, b1 as nat);
    let q1 = a1 / b1;
    assert(q1 * b2 <= a2) by (nonlinear_arith)
        requires
            q1 * b1 <= a1,
            a1 * b2 <= a2 * b1,
            b1 > 0,
            b2 > 0,
            q1 >= 0,
    ;
    lemma_le_floor_div(q1, a2, b2);
}

/// `ln y` for `y` in `[1, 2)` grows with `y`.
pub proof fn lemma_ln_mantissa_monotone(y1: nat, y2: nat)
    requires
        WAD <= y1 <= y2 < 2 * WAD,
    ensures
        ln_mantissa_wad(y1) <= ln_mantissa_wad(y2),
{
    lemma_atanh_argument_small(y1);
    lemma_atanh_argument_small(y2);
    lemma_atanh_argument_monotone(y1, y2);
    let z1 = atanh_argument(y1);
    let z2 = atanh_argument(y2);
    assert(z1 * z1 <= z2 * z2) by (nonlinear_arith)
        requires
            z1 <= z2,
    ;
    vstd::arithmetic::div_mod::lemma_div_is_ordered((z1 * z1) as int, (z2 * z2) as int, WAD as int);
    lemma_series_monotone(z1, z2, z1 * z1 / (WAD as nat), z2 * z2 / (WAD as nat), 0);
}

/// `ln y < 3/4` for `y` in `[1, 2)`.
pub proof fn lemma_ln_mantissa_bound(y: nat)
    requires
        WAD <= y < 2 * WAD,
    ensures
        4 * ln_mantissa_wad(y) < 3 * WAD,
{
    lemma_atanh_argument_small(y);
    let z = atanh_argument(y);
    lemma_series_bound(z, z * z / (WAD as nat), 0);
}

/// For `2^m <= v < 2^(m + 1)` with `m <= 60`, `v / 2^m` lies in `[1, 2)`.
pub proof fn lemma_mantissa_range(v: nat)
    requires
        1 <= v,
        log2_floor(v) <= 60,
    ensures
        WAD <= mantissa_wad(v) < 2 * WAD,
        mantissa_wad(v) == v * (WAD as nat) / two_pow(log2_floor(v)),
{
    let m = log2_floor(v);
    lemma_log2_floor_bounds(v);
    crate::arith::lemma_two_pow_positive(m);
    assert(two_pow(m + 1) == 2 * two_pow(m));
    let p = two_pow(m);
    assert((WAD as int) * (p as int) <= (v as int) * (WAD as int)) by (nonlinear_arith)
        requires
            p <= v,
    ;
    assert((v as int) * (WAD as int) < (2 * WAD as int) * (p as int)) by (nonlinear_arith)
        requires
            v < 2 * p,
    ;
    crate::arith::lemma_div_between((v * (WAD as nat)) as int, p as int, WAD as int, 2 * WAD as int);
}

/// `ln(10^8 / 2^26)` as the logarithm computes it, in units of `10^-18`.
proof fn lemma_ln_mantissa_at_one_scale_8()
    ensures
        ln_mantissa_wad(1_490_116_119_384_765_625) == 398_854_049_393_787_418,
{
    let y = 1_490_116_119_384_765_625nat;
    lemma_atanh_argument_small(y);
    let z = 196_824_604_109_570_154nat;
    let z2 = 38_739_924_782_889_020nat;
    assert(atanh_argument(y) == z);
    assert(z * z / (WAD as nat) == z2);
    assert(atanh_series(0, z2, 13) == 0);
    assert(2 * z2 / (WAD as nat) == 0);
    assert(atanh_series(2, z2, 12) == 2nat / 25nat + atanh_series(2 * z2 / (WAD as nat), z2, 13));
    assert(atanh_series(2, z2, 12) == 0);
    assert(58 * z2 / (WAD as nat) == 2);
    assert(atanh_series(58, z2, 11) == 58nat / 23nat + atanh_series(58 * z2 / (WAD as nat), z2, 12));
    assert(atanh_series(58, z2, 11) == 2);
    assert(1498 * z2 / (WAD as nat) == 58);
    assert(atanh_series(1498, z2, 10) == 1498nat / 21nat + atanh_series(1498 * z2 / (WAD as nat), z2, 11));
    assert(atanh_series(1498, z2, 10) == 73);
    assert(38681 * z2 / (WAD as nat) == 1498);
    assert(atanh_series(38681, z2, 9) == 38681nat / 19nat + atanh_series(38681 * z2 / (WAD as nat), z2, 10));
    assert(atanh_series(38681, z2, 9) == 2108);
    assert(998503 * z2 / (WAD as nat) == 38681);
    assert(atanh_series(998503, z2, 8) == 998503nat / 17nat + atanh_series(998503 * z2 / (WAD as nat), z2, 9));
    assert(atanh_series(998503, z2, 8) == 60843);
    assert(25774532 * z2 / (WAD as nat) == 998503);
    assert(atanh_series(25774532, z2, 7) == 25774532nat / 15nat + atanh_series(25774532 * z2 / (WAD as nat), z2, 8));
    assert(atanh_series(25774532, z2, 7) == 1779145);
    assert(665322216 * z2 / (WAD as nat) == 25774532);
    assert(atanh_series(665322216, z2, 6) == 665322216nat / 13nat + atanh_series(665322216 * z2 / (WAD as nat), z2, 7));
    assert(atanh_series(665322216, z2, 6) == 52957777);
    assert(17174070936 * z2 / (WAD as nat) == 665322216);
    assert(atanh_series(17174070936, z2, 5) == 17174070936nat / 11nat + atanh_series(17174070936 * z2 / (WAD as nat), z2, 6));
    assert(atanh_series(17174070936, z2, 5) == 1614236953);
    assert(443317095541 * z2 / (WAD as nat) == 17174070936);
    assert(atanh_series(443317095541, z2, 4) == 443317095541nat / 9nat + atanh_series(443317095541 * z2 / (WAD as nat), z2, 5));
    assert(atanh_series(443317095541, z2, 4) == 50871692013);
    assert(11443416527669 * z2 / (WAD as nat) == 443317095541);
    assert(atanh_series(11443416527669, z2, 3) == 11443416527669nat / 7nat + atanh_series(11443416527669 * z2 / (WAD as nat), z2, 4));
    assert(atanh_series(11443416527669, z2, 3) == 1685645481680);
    assert(295390778164954 * z2 / (WAD as nat) == 11443416527669);
    assert(atanh_series(295390778164954, z2, 2) == 295390778164954nat / 5nat + atanh_series(295390778164954 * z2 / (WAD as nat), z2, 3));
    assert(atanh_series(295390778164954, z2, 2) == 60763801114670);
    assert(7624970358626656 * z2 / (WAD as nat) == 295390778164954);
    assert(atanh_series(7624970358626656, z2, 1) == 7624970358626656nat / 3nat + atanh_series(7624970358626656 * z2 / (WAD as nat), z2, 2));
    assert(atanh_series(7624970358626656, z2, 1) == 2602420587323555);
    assert(z * z2 / (WAD as nat) == 7624970358626656);
    assert(atanh_series(z, z2, 0) == z / 1nat + atanh_series(z * z2 / (WAD as nat), z2, 1));
    assert(atanh_series(z, z2, 0) == 199427024696893709);
}

/// Below `10^8` the binary logarithm is at most 26, and at 26 the mantissa
/// is at most that of `10^8`.
proof fn lemma_ln_wad_below_one_scale_8(v: nat)
    requires
        1 <= v <= 100_000_000,
    ensures
        ln_wad(v, 8) <= -20,
        v == 100_000_000 ==> ln_wad(v, 8) == -20,
{
    lemma_two_pow_values();
    lemma_log2_floor_bounds(v);
    let m = log2_floor(v);
    if m >= 27 {
        crate::arith::lemma_two_pow_monotonic(27, m);
    }
    lemma_mantissa_range(v);
    let y = mantissa_wad(v);
    if m <= 25 {
        lemma_ln_mantissa_bound(y);
        if v == 100_000_000 {
            crate::arith::lemma_two_pow_monotonic(m + 1, 26);
        }
    } else {
        assert(m == 26);
        assert(v * (WAD as nat) <= 100_000_000 * (WAD as nat));
        vstd::arithmetic::div_mod::lemma_div_is_ordered(
            (v * (WAD as nat)) as int,
            (100_000_000 * (WAD as nat)) as int,
            two_pow(26) as int,
        );
        assert(100_000_000 * (WAD as nat) / two_pow(26) == 1_490_116_119_384_765_625nat);
        lemma_ln_mantissa_monotone(y, 1_490_116_119_384_765_625);
        lemma_ln_mantissa_at_one_scale_8();
        if v == 100_000_000 {
            lemma_log2_floor_unique(v, 26);
            assert(y == 1_490_116_119_384_765_625nat);
            assert(ln_mantissa_wad(y) == 398_854_049_393_787_418nat);
            assert(ln_wad(v, 8) == 26 * (LN2_WAD as int) + 398_854_049_393_787_418int - 8 * (
            LN10_WAD as int));
        }
        assert(log2_floor(v) * (LN2_WAD as nat) == 26 * (LN2_WAD as nat));
    }
}

/// At 8 places, the logarithm of a number in `(0, 1]` is not positive.
pub proof fn lemma_log_not_positive_below_one(a: Decimal)
    requires
        a.ln_ok(),
        a.scale == 8,
        a.value <= 100_000_000,
    ensures
        a.log().signed() <= 0,
        a.log().scale == 8,
{
    lemma_ln_wad_below_one_scale_8(a.value as nat);
    lemma_pow10_u128_range();
}

/// At 8 places, the logarithm of one is zero.
pub proof fn lemma_log_of_one_scale_8()
    ensures
        (Decimal { value: 100_000_000, scale: 8, negative: false }).log() == (Decimal {
            value: 0,
            scale: 8,
            negative: false,
        }),
{
    lemma_ln_wad_below_one_scale_8(100_000_000);
    lemma_pow10_u128_range();
    let one = Decimal { value: 100_000_000, scale: 8, negative: false };
    assert(ln_wad(one.value as nat, one.scale as nat) == -20);
    assert(((crate::decimal::LN_MAX_SCALE - one.scale) as nat) == 10);
    assert(abs(-20) / (pow10(10) as int) == 0);
}

/// Below one, at 8 places, the logarithm is at most `8 ln 10` in magnitude:
/// `|ln(v / 10^8)| <= 20` for `1 <= v <= 10^8`, and the computed value keeps
/// within that bound.
pub proof fn lemma_log_magnitude_below_one(a: Decimal)
    requires
        a.scale == 8,
        1 <= a.value <= 100_000_000,
    ensures
        a.log().value <= 2_000_000_000,
        a.log().scale == 8,
{
    lemma_ln_wad_below_one_scale_8(a.value as nat);
    lemma_pow10_u128_range();
    let l = ln_wad(a.value as nat, 8);
    assert(log2_floor(a.value as nat) * (LN2_WAD as int) >= 0) by (nonlinear_arith);
    assert(l >= -8 * (LN10_WAD as int));
    assert(((LN_MAX_SCALE - a.scale) as nat) == 10);
    let mag = abs(l) / (pow10(10) as int);
    assert(abs(l) <= 8 * (LN10_WAD as int));
    assert(mag <= 2_000_000_000) by (nonlinear_arith)
        requires
            mag == abs(l) / 10_000_000_000int,
            0 <= abs(l) <= 8 * 2_302_585_092_994_045_684int,
    ;
}

// ----------------------------------------------------------------------
// Powers
// ----------------------------------------------------------------------
/// The truncated product is monotone in both operands.
pub proof fn lemma_product_monotone(a1: Decimal, a2: Decimal, b1: Decimal, b2: Decimal)
    requires
        a1.mul_ok(b1),
        a2.mul_ok(b2),
        a1.value <= a2.value,
        b1.value <= b2.value,
        b1.scale == b2.scale,
    ensures
        a1.product(b1).value <= a2.product(b2).value,
{
    assert((a1.value as nat) * (b1.value as nat) <= (a2.value as nat) * (b2.value as nat))
        by (nonlinear_arith)
        requires
            a1.value <= a2.value,
            b1.value <= b2.value,
    ;
    lemma_pow10_positive(b1.scale as nat);
    vstd::arithmetic::div_mod::lemma_div_is_ordered(
        (a1.value * b1.value) as int,
        (a2.value * b2.value) as int,
        b1.denom() as int,
    );
}

/// The truncated square root is monotone.
pub proof fn lemma_root_monotone(a1: Decimal, a2: Decimal)
    requires
        a1.sqrt_ok(),
        a2.sqrt_ok(),
        a1.value <= a2.value,
        a1.scale == a2.scale,
    ensures
        a1.root().value <= a2.root().value,
{
    assert((a1.value as nat) * a1.denom() <= (a2.value as nat) * a2.denom()) by (nonlinear_arith)
        requires
            a1.value <= a2.value,
            a1.denom() == a2.denom(),
    ;
    let n1 = (a1.value as nat) * a1.denom();
    let n2 = (a2.value as nat) * a2.denom();
    lemma_isqrt_monotone(n1, n2);
    crate::arith::lemma_isqrt(n1);
    crate::arith::lemma_isqrt(n2);
    assert(isqrt(n1) <= n1 && isqrt(n2) <= n2) by (nonlinear_arith)
        requires
            isqrt(n1) * isqrt(n1) <= n1,
            isqrt(n2) * isqrt(n2) <= n2,
    ;
}

/// Integer powers of non-negative numbers are non-negative and grow with
/// the base.
pub proof fn lemma_pow_int_monotone(x1: Decimal, x2: Decimal, n: nat)
    requires
        pow_int_ok(x1, n),
        pow_int_ok(x2, n),
        x1.scale == x2.scale,
        !x1.negative,
        !x2.negative,
        x1.value <= x2.value,
    ensures
        pow_int(x1, n).value <= pow_int(x2, n).value,
        !pow_int(x1, n).negative,
        !pow_int(x2, n).negative,
        pow_int(x1, n).scale == x1.scale,
        pow_int(x2, n).scale == x1.scale,
    decreases n,
{
    if n == 0 {
    } else if n % 2 == 0 {
        lemma_pow_int_monotone(x1, x2, n / 2);
        let h1 = pow_int(x1, n / 2);
        let h2 = pow_int(x2, n / 2);
        lemma_product_monotone(h1, h2, h1, h2);
    } else {
        lemma_pow_int_monotone(x1, x2, (n - 1) as nat);
        lemma_product_monotone(pow_int(x1, (n - 1) as nat), pow_int(x2, (n - 1) as nat), x1, x2);
    }
}

/// The fractional part of a power of non-negative numbers is non-negative
/// and grows with the accumulator and the root.
pub proof fn lemma_pow_frac_monotone(
    acc1: Decimal,
    acc2: Decimal,
    r1: Decimal,
    r2: Decimal,
    f: nat,
    den: nat,
    bits: nat,
)
    requires
        pow_frac_ok(acc1, r1, f, den, bits),
        pow_frac_ok(acc2, r2, f, den, bits),
        acc1.scale == acc2.scale,
        r1.scale == r2.scale,
        !acc1.negative,
        !acc2.negative,
        !r1.negative,
        !r2.negative,
        acc1.value <= acc2.value,
        r1.value <= r2.value,
    ensures
        pow_frac(acc1, r1, f, den, bits).value <= pow_frac(acc2, r2, f, den, bits).value,
        !pow_frac(acc1, r1, f, den, bits).negative,
        !pow_frac(acc2, r2, f, den, bits).negative,
        pow_frac(acc1, r1, f, den, bits).scale == acc1.scale,
        pow_frac(acc2, r2, f, den, bits).scale == acc1.scale,
    decreases bits,
{
    if f == 0 || bits == 0 {
    } else {
        let s1 = r1.root();
        let s2 = r2.root();
        lemma_root_monotone(r1, r2);
        if 2 * f >= den {
            lemma_product_monotone(acc1, acc2, s1, s2);
            lemma_pow_frac_monotone(
                acc1.product(s1),
                acc2.product(s2),
                s1,
                s2,
                (2 * f - den) as nat,
                den,
                (bits - 1) as nat,
            );
        } else {
            lemma_pow_frac_monotone(acc1, acc2, s1, s2, 2 * f, den, (bits - 1) as nat);
        }
    }
}

/// Powers of non-negative numbers at one scale are non-negative, keep the
/// base's scale, and grow with the base.
pub proof fn lemma_power_monotone(x1: Decimal, x2: Decimal, e: Decimal)
    requires
        x1.pow_ok(e),
        x2.pow_ok(e),
        x1.scale == x2.scale,
        !x1.negative,
        !x2.negative,
        x1.value <= x2.value,
    ensures
        x1.power(e).value <= x2.power(e).value,
        !x1.power(e).negative,
        !x2.power(e).negative,
        x1.power(e).scale == x1.scale,
        x2.power(e).scale == x1.scale,
{
    let n = e.value as nat / e.denom();
    let f = e.value as nat % e.denom();
    lemma_pow_int_monotone(x1, x2, n);
    lemma_pow_frac_monotone(
        pow_int(x1, n),
        pow_int(x2, n),
        x1,
        x2,
        f,
        e.denom(),
        crate::decimal::POW_FRACTION_BITS as nat,
    );
}

} // verus!
