//! The oracle-guided deltas over the pools on which they are exercised:
//! balances from one token up to (not including) `10^8` tokens, an oracle
//! price from 1 to 100 and a trade from 1 to 100 tokens, all at the scale of
//! token amounts. There, with `c` one of `0`, `1`, `1.25` and `1.5`, no step
//! of `compute_delta_y_hmm` or `compute_delta_x_hmm` fails, and with `c = 0`
//! no step of `swap_x_to_y_hmm` without a fee.
use vstd::prelude::*;
use crate::arith::lemma_pow10_u128_range;
use crate::decimal::{
    AMOUNT_SCALE, Decimal, lemma_power_unit_exponent, lemma_power_zero_exponent,
    lemma_product_bounds, lemma_quotient_bounds, lemma_quotient_by_one, lemma_rescale_same,
    lemma_root_bounds, one_at, pow_frac, pow_frac_ok, pow_int, pow_int_ok,
};
use crate::decimal_laws::lemma_log_magnitude_below_one;
use crate::swap_calculator::SwapCalculator;
use crate::swap_calculator::min_liquidity;
use crate::swap_laws::{lemma_delta_y_hmm_c_zero, lemma_integral_c_zero};

verus! {

/// The pool and the trade lie in the range on which the oracle-guided
/// deltas are exercised: every amount at the scale of token amounts and not
/// negative, balances in `[1, 10^8)` tokens, an oracle price in `[1, 100]`
/// and a trade in `[1, 100]` tokens.
pub open spec fn in_trading_range(calc: SwapCalculator, delta: Decimal) -> bool {
    &&& calc.x0.scale == AMOUNT_SCALE
    &&& calc.y0.scale == AMOUNT_SCALE
    &&& calc.c.scale == AMOUNT_SCALE
    &&& calc.i.scale == AMOUNT_SCALE
    &&& delta.scale == AMOUNT_SCALE
    &&& !calc.x0.negative
    &&& !calc.y0.negative
    &&& !calc.c.negative
    &&& !calc.i.negative
    &&& !delta.negative
    &&& 1_000_000 <= calc.x0.value < 100_000_000_000_000
    &&& 1_000_000 <= calc.y0.value < 100_000_000_000_000
    &&& 1_000_000 <= calc.i.value <= 100_000_000
    &&& 1_000_000 <= delta.value <= 100_000_000
}

/// The invariant of such a pool lies in `[1, 10^16]` tokens² and does not
/// exceed `x0 * y0`.
proof fn lemma_k_in_range(calc: SwapCalculator, delta: Decimal)
    requires
        in_trading_range(calc, delta),
    ensures
        calc.k_ok(),
        calc.k_of().scale == AMOUNT_SCALE,
        !calc.k_of().negative,
        1_000_000 <= calc.k_of().value <= 10_000_000_000_000_000_000_000,
        calc.k_of().value * 1_000_000 <= calc.x0.value * calc.y0.value,
{
    lemma_pow10_u128_range();
    let x = calc.x0.value as int;
    let y = calc.y0.value as int;
    assert(1_000_000_000_000 <= x * y < 10_000_000_000_000_000_000_000_000_000) by (nonlinear_arith)
        requires
            1_000_000 <= x < 100_000_000_000_000,
            1_000_000 <= y < 100_000_000_000_000,
    ;
    lemma_product_bounds(calc.x0, calc.y0);
}

/// Dividing such an invariant by a balance of at least a tenth of a token
/// succeeds and gives at most `10^17` tokens.
proof fn lemma_quotient_of_k(k: Decimal, q: Decimal)
    requires
        k.scale == AMOUNT_SCALE,
        !k.negative,
        k.value <= 10_000_000_000_000_000_000_000,
        q.scale == AMOUNT_SCALE,
        !q.negative,
        q.value >= 100_000,
    ensures
        k.div_ok(q),
        k.quotient(q).scale == AMOUNT_SCALE,
        !k.quotient(q).negative,
        k.quotient(q).value <= 100_000_000_000_000_000_000_000,
{
    lemma_pow10_u128_range();
    lemma_quotient_bounds(k, q);
    let v = k.quotient(q).value as int;
    assert(v <= 100_000_000_000_000_000_000_000) by (nonlinear_arith)
        requires
            v * (q.value as int) <= (k.value as int) * 1_000_000,
            k.value <= 10_000_000_000_000_000_000_000,
            q.value >= 100_000,
            v >= 0,
    ;
}

/// `Xᵢ` of such a pool lies in `[0.1, 10^8]` tokens.
proof fn lemma_xi_in_range(calc: SwapCalculator, delta: Decimal)
    requires
        in_trading_range(calc, delta),
    ensures
        calc.xi_ok(),
        calc.xi_of().scale == AMOUNT_SCALE,
        !calc.xi_of().negative,
        100_000 <= calc.xi_of().value <= 100_000_000_000_000,
{
    lemma_pow10_u128_range();
    lemma_k_in_range(calc, delta);
    let k = calc.k_of();
    assert(k.div_ok(calc.i));
    lemma_quotient_bounds(k, calc.i);
    let kdi = k.quotient(calc.i);
    let q = kdi.value as int;
    let i = calc.i.value as int;
    assert(10_000 <= q <= 10_000_000_000_000_000_000_000) by (nonlinear_arith)
        requires
            q * i <= (k.value as int) * 1_000_000,
            (k.value as int) * 1_000_000 < (q + 1) * i,
            1_000_000 <= k.value <= 10_000_000_000_000_000_000_000,
            1_000_000 <= i <= 100_000_000,
            q >= 0,
    ;
    assert(kdi.sqrt_ok());
    lemma_root_bounds(kdi);
    let r = calc.xi_of().value as int;
    assert(100_000 <= r <= 100_000_000_000_000) by (nonlinear_arith)
        requires
            r * r <= q * 1_000_000,
            q * 1_000_000 < (r + 1) * (r + 1),
            10_000 <= q <= 10_000_000_000_000_000_000_000,
            r >= 0,
    ;
}

/// `Yᵢ` of such a pool lies in `[1, 10^9]` tokens and is at most `10^8`
/// times `y0`.
proof fn lemma_yi_in_range(calc: SwapCalculator, delta: Decimal)
    requires
        in_trading_range(calc, delta),
    ensures
        calc.yi_ok(),
        calc.yi_of().scale == AMOUNT_SCALE,
        !calc.yi_of().negative,
        1_000_000 <= calc.yi_of().value <= 1_000_000_000_000_000,
        calc.yi_of().value <= calc.y0.value * 100_000_000,
{
    lemma_pow10_u128_range();
    lemma_k_in_range(calc, delta);
    let k = calc.k_of();
    let kv = k.value as int;
    let i = calc.i.value as int;
    let x = calc.x0.value as int;
    let y = calc.y0.value as int;
    assert(kv * i <= 1_000_000_000_000_000_000_000_000_000_000) by (nonlinear_arith)
        requires
            0 <= kv <= 10_000_000_000_000_000_000_000,
            0 <= i <= 100_000_000,
    ;
    assert(k.mul_ok(calc.i));
    lemma_product_bounds(k, calc.i);
    let kmi = k.product(calc.i);
    let p = kmi.value as int;
    assert(1_000_000 <= p <= 1_000_000_000_000_000_000_000_000) by (nonlinear_arith)
        requires
            p * 1_000_000 <= kv * i,
            kv * i < (p + 1) * 1_000_000,
            kv * i <= 1_000_000_000_000_000_000_000_000_000_000,
            1_000_000 <= kv,
            1_000_000 <= i,
            p >= 0,
    ;
    assert(kmi.sqrt_ok());
    lemma_root_bounds(kmi);
    let r = calc.yi_of().value as int;
    assert(1_000_000 <= r <= 1_000_000_000_000_000) by (nonlinear_arith)
        requires
            r * r <= p * 1_000_000,
            p * 1_000_000 < (r + 1) * (r + 1),
            1_000_000 <= p <= 1_000_000_000_000_000_000_000_000,
            r >= 0,
    ;
    assert(p * 1_000_000 <= x * y * 100) by (nonlinear_arith)
        requires
            p * 1_000_000 <= kv * i,
            kv * 1_000_000 <= x * y,
            0 <= kv,
            0 <= i <= 100_000_000,
            0 <= x,
            0 <= y,
    ;
    assert(r <= y * 100_000_000) by (nonlinear_arith)
        requires
            r * r <= p * 1_000_000,
            p * 1_000_000 <= x * y * 100,
            0 <= x < 100_000_000_000_000,
            1 <= y,
            r >= 0,
    ;
}

/// With `c = 0`, the integral between two balances of at least a tenth of a
/// token and at most `2 * 10^9` tokens is computed without failure, and is
/// at most `10^21` tokens in magnitude.
proof fn lemma_integral_ok_c_zero(
    calc: SwapCalculator,
    k: Decimal,
    q0: Decimal,
    q_new: Decimal,
    qi: Decimal,
)
    requires
        calc.x0.scale == AMOUNT_SCALE,
        calc.c.scale == AMOUNT_SCALE,
        calc.c.value == 0,
        k.scale == AMOUNT_SCALE,
        !k.negative,
        k.value <= 10_000_000_000_000_000_000_000,
        q0.scale == AMOUNT_SCALE,
        q_new.scale == AMOUNT_SCALE,
        qi.scale == AMOUNT_SCALE,
        !q0.negative,
        !q_new.negative,
        !qi.negative,
        100_000 <= q0.value <= 2_000_000_000_000_000,
        100_000 <= q_new.value <= 2_000_000_000_000_000,
        100_000 <= qi.value <= 2_000_000_000_000_000,
    ensures
        calc.integral_ok(k, q0, q_new, qi, calc.c),
        calc.integral_of(k, q0, q_new, qi, calc.c).scale == AMOUNT_SCALE,
        calc.integral_of(k, q0, q_new, qi, calc.c).value <= 1_000_000_000_000_000_000_000_000_000,
{
    lemma_pow10_u128_range();
    let c = calc.c;
    let one = one_at(AMOUNT_SCALE);
    assert(one.value == 1_000_000);
    assert(c != one);
    let c_sub_one = c.difference(one);
    assert(c_sub_one == (Decimal { value: 1_000_000, scale: AMOUNT_SCALE, negative: true }));
    lemma_integral_c_zero(calc, k, q0, q_new, qi, c);
    lemma_quotient_of_k(k, q0);
    lemma_quotient_of_k(k, q_new);
    let a = k.quotient(q0);
    let b = k.quotient(q_new);
    // the powers: q^|c| is one, q^|c - 1| is q
    assert(0nat / c.denom() == 0);
    assert(0nat % c.denom() == 0);
    assert(qi.pow_ok(c));
    lemma_power_zero_exponent(qi, c);
    assert(c_sub_one.denom() == 1_000_000);
    assert(1_000_000nat / 1_000_000nat == 1);
    assert(1_000_000nat % 1_000_000nat == 0);
    assert(c_sub_one.value as nat / c_sub_one.denom() == 1);
    assert(c_sub_one.value as nat % c_sub_one.denom() == 0);
    assert(pow_int_ok(q0, 0) && pow_int_ok(q_new, 0));
    assert(pow_int(q0, 0).mul_ok(q0) && pow_int(q_new, 0).mul_ok(q_new));
    assert(pow_int_ok(q0, 1) && pow_int_ok(q_new, 1));
    assert(q0.pow_ok(c_sub_one));
    assert(q_new.pow_ok(c_sub_one));
    lemma_power_unit_exponent(q0, c_sub_one);
    lemma_power_unit_exponent(q_new, c_sub_one);
    assert(q0.power(c_sub_one) == q0);
    assert(q_new.power(c_sub_one) == q_new);
    assert(a.sub_ok(b));
    let d = a.difference(b);
    assert(d.value <= 100_000_000_000_000_000_000_000);
    lemma_quotient_by_one(d, AMOUNT_SCALE);
    assert(d.div_ok(qi.power(c)));
    assert(d.quotient(qi.power(c)).div_ok(c_sub_one));
}

/// With `c = 1`, the integral from `q0` to `q_new` for `q0 <= q_new <= qi`,
/// `q_new` at most `10^8` times `q0` and `qi` in `[0.1, 2 * 10^9]` tokens, is
/// computed without failure, and is at most `10^21` tokens in magnitude.
proof fn lemma_integral_ok_c_one(
    calc: SwapCalculator,
    k: Decimal,
    q0: Decimal,
    q_new: Decimal,
    qi: Decimal,
)
    requires
        calc.x0.scale == AMOUNT_SCALE,
        calc.c.scale == AMOUNT_SCALE,
        calc.c.value == 1_000_000,
        !calc.c.negative,
        k.scale == AMOUNT_SCALE,
        !k.negative,
        k.value <= 10_000_000_000_000_000_000_000,
        q0.scale == AMOUNT_SCALE,
        q_new.scale == AMOUNT_SCALE,
        qi.scale == AMOUNT_SCALE,
        !q0.negative,
        !q_new.negative,
        !qi.negative,
        1 <= q0.value <= q_new.value <= qi.value <= 2_000_000_000_000_000,
        100_000 <= qi.value,
        q_new.value <= q0.value * 100_000_000,
    ensures
        calc.integral_ok(k, q0, q_new, qi, calc.c),
        calc.integral_of(k, q0, q_new, qi, calc.c).scale == AMOUNT_SCALE,
        calc.integral_of(k, q0, q_new, qi, calc.c).value <= 1_000_000_000_000_000_000_000_000_000,
{
    lemma_pow10_u128_range();
    assert(calc.c == one_at(AMOUNT_SCALE));
    assert(((8 - k.scale) as nat) == 2);
    let k8 = k.rescaled(8);
    assert(k8.value == k.value * 100);
    lemma_rescale_same(qi);
    lemma_rescale_same(q_new);
    assert(k.rescale_ok(8));
    assert(k8.div_ok(qi));
    let kdq = k8.quotient(qi);
    lemma_quotient_bounds(k8, qi);
    let kq = kdq.value as int;
    assert(kq <= 10_000_000_000_000_000_000_000_000) by (nonlinear_arith)
        requires
            kq * (qi.value as int) <= (k8.value as int) * 1_000_000,
            k8.value <= 1_000_000_000_000_000_000_000_000,
            qi.value >= 100_000,
            kq >= 0,
    ;
    let q8 = q0.rescaled(8);
    assert(q0.rescale_ok(8));
    assert(q8.value == q0.value * 100);
    assert(q_new.denom() == 1_000_000);
    assert((q8.value as int) * 1_000_000 == (q0.value as int) * 100_000_000);
    assert((q8.value as int) * 1_000_000 <= 200_000_000_000_000_000_000_000);
    assert(q8.div_ok(q_new));
    let ratio = q8.quotient(q_new);
    lemma_quotient_bounds(q8, q_new);
    let rv = ratio.value as int;
    assert(1 <= rv <= 100_000_000) by (nonlinear_arith)
        requires
            rv * (q_new.value as int) <= (q0.value as int) * 100_000_000,
            (q0.value as int) * 100_000_000 < (rv + 1) * (q_new.value as int),
            1 <= q0.value <= q_new.value,
            q_new.value <= q0.value * 100_000_000,
            rv >= 0,
    ;
    assert(ratio.scale == 8);
    assert(!ratio.negative);
    assert(ratio.ln_ok());
    lemma_log_magnitude_below_one(ratio);
    let log = ratio.log();
    let lv = log.value as int;
    assert(kq * lv <= 20_000_000_000_000_000_000_000_000_000_000_000) by (nonlinear_arith)
        requires
            0 <= kq <= 10_000_000_000_000_000_000_000_000,
            0 <= lv <= 2_000_000_000,
    ;
    assert(kdq.mul_ok(log));
    lemma_product_bounds(kdq, log);
    let prod = kdq.product(log);
    assert(prod.value <= 200_000_000_000_000_000_000_000_000);
    assert(prod.rescale_ok(calc.x0.scale));
    let integral = prod.rescaled(calc.x0.scale);
    assert(integral == calc.integral_of(k, q0, q_new, qi, calc.c));
    assert(integral.value <= prod.value) by {
        crate::arith::lemma_div_mul_le(prod.value as int, 100);
    }
}

/// The root that a fractional exponent of `1/2` (`f = 500000` millionths) or
/// `1/4` (`f = 250000`) takes of `q`: one square root, or two.
spec fn fractional_root(q: Decimal, f: nat) -> Decimal {
    if f == 500_000 {
        q.root()
    } else {
        q.root().root()
    }
}

/// The fractional part `1/2` or `1/4` of an exponent multiplies the
/// accumulator by one square root, or by the square root of a square root;
/// for a base in `[0.1, 2 * 10^9]` tokens that root lies in `[0.3, 5 * 10^4]`
/// tokens.
proof fn lemma_fractional_power(acc: Decimal, q: Decimal, f: nat)
    requires
        f == 250_000 || f == 500_000,
        q.scale == AMOUNT_SCALE,
        !q.negative,
        100_000 <= q.value <= 2_000_000_000_000_000,
        acc.value <= 2_000_000_000_000_000,
    ensures
        fractional_root(q, f).scale == AMOUNT_SCALE,
        !fractional_root(q, f).negative,
        300_000 <= fractional_root(q, f).value <= 50_000_000_000,
        pow_frac_ok(acc, q, f, 1_000_000, 64),
        pow_frac(acc, q, f, 1_000_000, 64) == acc.product(fractional_root(q, f)),
{
    lemma_pow10_u128_range();
    assert(q.sqrt_ok());
    lemma_root_bounds(q);
    let r2 = q.root();
    let a = r2.value as int;
    assert(300_000 <= a <= 50_000_000_000) by (nonlinear_arith)
        requires
            a * a <= (q.value as int) * 1_000_000,
            (q.value as int) * 1_000_000 < (a + 1) * (a + 1),
            100_000 <= q.value <= 2_000_000_000_000_000,
            a >= 0,
    ;
    assert(r2.sqrt_ok());
    lemma_root_bounds(r2);
    let r4 = r2.root();
    let b = r4.value as int;
    assert(300_000 <= b <= 50_000_000_000) by (nonlinear_arith)
        requires
            b * b <= a * 1_000_000,
            a * 1_000_000 < (b + 1) * (b + 1),
            300_000 <= a <= 50_000_000_000,
            b >= 0,
    ;
    let r = fractional_root(q, f);
    assert((acc.value as int) * (r.value as int) <= 100_000_000_000_000_000_000_000_000)
        by (nonlinear_arith)
        requires
            0 <= acc.value <= 2_000_000_000_000_000,
            0 <= r.value <= 50_000_000_000,
    ;
    assert(acc.mul_ok(r));
    if f == 500_000 {
        assert(pow_frac(acc.product(r2), r2, 0, 1_000_000, 63) == acc.product(r2));
        assert(pow_frac_ok(acc.product(r2), r2, 0, 1_000_000, 63));
    } else {
        assert(pow_frac(acc.product(r4), r4, 0, 1_000_000, 62) == acc.product(r4));
        assert(pow_frac_ok(acc.product(r4), r4, 0, 1_000_000, 62));
        assert(pow_frac(acc, r2, 500_000, 1_000_000, 63) == acc.product(r4));
        assert(pow_frac_ok(acc, r2, 500_000, 1_000_000, 63));
    }
}

/// With `c` `1.25` or `1.5`, the integral between two balances in
/// `[0.1, 2 * 10^9]` tokens is computed without failure, and is at most
/// `10^24` tokens in magnitude.
proof fn lemma_integral_ok_c_fractional(
    calc: SwapCalculator,
    k: Decimal,
    q0: Decimal,
    q_new: Decimal,
    qi: Decimal,
)
    requires
        calc.x0.scale == AMOUNT_SCALE,
        calc.c.scale == AMOUNT_SCALE,
        !calc.c.negative,
        calc.c.value == 1_250_000 || calc.c.value == 1_500_000,
        k.scale == AMOUNT_SCALE,
        !k.negative,
        k.value <= 10_000_000_000_000_000_000_000,
        q0.scale == AMOUNT_SCALE,
        q_new.scale == AMOUNT_SCALE,
        qi.scale == AMOUNT_SCALE,
        !q0.negative,
        !q_new.negative,
        !qi.negative,
        100_000 <= q0.value <= 2_000_000_000_000_000,
        100_000 <= q_new.value <= 2_000_000_000_000_000,
        100_000 <= qi.value <= 2_000_000_000_000_000,
    ensures
        calc.integral_ok(k, q0, q_new, qi, calc.c),
        calc.integral_of(k, q0, q_new, qi, calc.c).scale == AMOUNT_SCALE,
        calc.integral_of(k, q0, q_new, qi, calc.c).value
            <= 1_000_000_000_000_000_000_000_000_000_000,
{
    lemma_pow10_u128_range();
    let c = calc.c;
    let one = one_at(AMOUNT_SCALE);
    assert(one.value == 1_000_000);
    assert(c != one);
    let c_sub_one = c.difference(one);
    let f: nat = (c.value - 1_000_000) as nat;
    assert(c.sub_ok(one));
    assert(c_sub_one == (Decimal { value: f as u128, scale: AMOUNT_SCALE, negative: false }));
    assert(c.denom() == 1_000_000);
    assert(c_sub_one.denom() == 1_000_000);
    assert(c.value as nat / c.denom() == 1);
    assert(c.value as nat % c.denom() == f);
    assert(c_sub_one.value as nat / c_sub_one.denom() == 0);
    assert(c_sub_one.value as nat % c_sub_one.denom() == f);
    // qi^c = qi * (the root of qi)
    assert(pow_int_ok(qi, 0));
    assert(pow_int(qi, 0).mul_ok(qi));
    assert(pow_int_ok(qi, 1));
    let acc = pow_int(qi, 1);
    assert(acc == qi) by {
        vstd::arithmetic::div_mod::lemma_div_multiples_vanish(qi.value as int, 1_000_000);
    }
    lemma_fractional_power(acc, qi, f);
    assert(qi.pow_ok(c));
    let qi_pow_c = qi.power(c);
    let ri = fractional_root(qi, f);
    assert(qi_pow_c == qi.product(ri));
    // q^(c - 1) = the root of q
    assert(pow_int_ok(q0, 0) && pow_int_ok(q_new, 0));
    lemma_fractional_power(one, q0, f);
    lemma_fractional_power(one, q_new, f);
    assert(q0.pow_ok(c_sub_one));
    assert(q_new.pow_ok(c_sub_one));
    let r0 = fractional_root(q0, f);
    let rn = fractional_root(q_new, f);
    assert(one.product(r0) == r0) by {
        vstd::arithmetic::div_mod::lemma_div_multiples_vanish(r0.value as int, 1_000_000);
    }
    assert(one.product(rn) == rn) by {
        vstd::arithmetic::div_mod::lemma_div_multiples_vanish(rn.value as int, 1_000_000);
    }
    assert(q0.power(c_sub_one) == r0);
    assert(q_new.power(c_sub_one) == rn);
    // the left factor k / (qi^c (c - 1))
    assert((qi.value as int) * (ri.value as int) <= 100_000_000_000_000_000_000_000_000)
        by (nonlinear_arith)
        requires
            0 <= qi.value <= 2_000_000_000_000_000,
            0 <= ri.value <= 50_000_000_000,
    ;
    assert(qi.mul_ok(ri));
    lemma_product_bounds(qi, ri);
    let p = qi_pow_c.value as int;
    assert(30_000 <= p <= 100_000_000_000_000_000_000) by (nonlinear_arith)
        requires
            p * 1_000_000 <= (qi.value as int) * (ri.value as int),
            (qi.value as int) * (ri.value as int) < (p + 1) * 1_000_000,
            100_000 <= qi.value <= 2_000_000_000_000_000,
            300_000 <= ri.value <= 50_000_000_000,
            p >= 0,
    ;
    assert(qi_pow_c.mul_ok(c_sub_one));
    lemma_product_bounds(qi_pow_c, c_sub_one);
    let lhs_den = qi_pow_c.product(c_sub_one);
    let l = lhs_den.value as int;
    assert(7_500 <= l) by (nonlinear_arith)
        requires
            p * (f as int) < (l + 1) * 1_000_000,
            30_000 <= p,
            250_000 <= f,
            l >= 0,
    ;
    assert(k.div_ok(lhs_den));
    lemma_quotient_bounds(k, lhs_den);
    let lhs = k.quotient(lhs_den);
    let lv = lhs.value as int;
    assert(lv <= 2_000_000_000_000_000_000_000_000) by (nonlinear_arith)
        requires
            lv * l <= (k.value as int) * 1_000_000,
            k.value <= 10_000_000_000_000_000_000_000,
            7_500 <= l,
            lv >= 0,
    ;
    assert(r0.sub_ok(rn));
    let rhs = r0.difference(rn);
    assert(rhs.value <= 50_000_000_000);
    assert(lv * (rhs.value as int) <= 100_000_000_000_000_000_000_000_000_000_000_000)
        by (nonlinear_arith)
        requires
            0 <= lv <= 2_000_000_000_000_000_000_000_000,
            0 <= rhs.value <= 50_000_000_000,
    ;
    assert(lhs.mul_ok(rhs));
    lemma_product_bounds(lhs, rhs);
    assert(lhs.product(rhs) == calc.integral_of(k, q0, q_new, qi, c));
}

/// Over the pools and trades of `in_trading_range`, with `c` one of `0`,
/// `1`, `1.25` and `1.5`, `compute_delta_y_hmm` does not fail.
pub proof fn lemma_delta_y_hmm_ok_in_range(calc: SwapCalculator, delta_x: Decimal)
    requires
        in_trading_range(calc, delta_x),
        calc.c.value == 0 || calc.c.value == 1_000_000 || calc.c.value == 1_250_000
            || calc.c.value == 1_500_000,
    ensures
        calc.delta_y_hmm_ok(delta_x),
{
    lemma_pow10_u128_range();
    lemma_k_in_range(calc, delta_x);
    lemma_xi_in_range(calc, delta_x);
    let k = calc.k_of();
    let xi = calc.xi_of();
    let x_new = calc.x0.sum(delta_x);
    assert(x_new == (Decimal {
        value: (calc.x0.value + delta_x.value) as u128,
        scale: AMOUNT_SCALE,
        negative: false,
    }));
    assert(calc.x0.add_ok(delta_x));
    lemma_quotient_of_k(k, calc.x0);
    lemma_quotient_of_k(k, x_new);
    lemma_quotient_of_k(k, xi);
    if calc.x0.value >= xi.value {
        assert(calc.delta_y_amm_ok(delta_x));
    } else if x_new.value <= xi.value {
        if calc.c.value == 0 {
            lemma_integral_ok_c_zero(calc, k, calc.x0, x_new, xi);
        } else if calc.c.value == 1_000_000 {
            lemma_integral_ok_c_one(calc, k, calc.x0, x_new, xi);
        } else {
            lemma_integral_ok_c_fractional(calc, k, calc.x0, x_new, xi);
        }
    } else {
        if calc.c.value == 0 {
            lemma_integral_ok_c_zero(calc, k, calc.x0, xi, xi);
        } else if calc.c.value == 1_000_000 {
            lemma_integral_ok_c_one(calc, k, calc.x0, xi, xi);
        } else {
            lemma_integral_ok_c_fractional(calc, k, calc.x0, xi, xi);
        }
        let integral = calc.integral_of(k, calc.x0, xi, xi, calc.c);
        let rhs = k.quotient(x_new).difference(k.quotient(xi));
        assert(k.quotient(x_new).sub_ok(k.quotient(xi)));
        assert(integral.add_ok(rhs));
    }
}

/// Over the pools and trades of `in_trading_range`, with `c` one of `0`,
/// `1`, `1.25` and `1.5`, `compute_delta_x_hmm` does not fail.
pub proof fn lemma_delta_x_hmm_ok_in_range(calc: SwapCalculator, delta_y: Decimal)
    requires
        in_trading_range(calc, delta_y),
        calc.c.value == 0 || calc.c.value == 1_000_000 || calc.c.value == 1_250_000
            || calc.c.value == 1_500_000,
    ensures
        calc.delta_x_hmm_ok(delta_y),
{
    lemma_pow10_u128_range();
    lemma_k_in_range(calc, delta_y);
    lemma_yi_in_range(calc, delta_y);
    let k = calc.k_of();
    let yi = calc.yi_of();
    let y_new = calc.y0.sum(delta_y);
    assert(y_new == (Decimal {
        value: (calc.y0.value + delta_y.value) as u128,
        scale: AMOUNT_SCALE,
        negative: false,
    }));
    assert(calc.y0.add_ok(delta_y));
    lemma_quotient_of_k(k, calc.y0);
    lemma_quotient_of_k(k, y_new);
    lemma_quotient_of_k(k, yi);
    if calc.y0.value >= yi.value {
        assert(calc.delta_x_amm_ok(delta_y));
    } else if y_new.value <= yi.value {
        if calc.c.value == 0 {
            lemma_integral_ok_c_zero(calc, k, calc.y0, y_new, yi);
        } else if calc.c.value == 1_000_000 {
            lemma_integral_ok_c_one(calc, k, calc.y0, y_new, yi);
        } else {
            lemma_integral_ok_c_fractional(calc, k, calc.y0, y_new, yi);
        }
    } else {
        if calc.c.value == 0 {
            lemma_integral_ok_c_zero(calc, k, calc.y0, yi, yi);
        } else if calc.c.value == 1_000_000 {
            lemma_integral_ok_c_one(calc, k, calc.y0, yi, yi);
        } else {
            lemma_integral_ok_c_fractional(calc, k, calc.y0, yi, yi);
        }
        let integral = calc.integral_of(k, calc.y0, yi, yi, calc.c);
        let rhs = k.quotient(y_new).difference(k.quotient(yi));
        assert(k.quotient(y_new).sub_ok(k.quotient(yi)));
        assert(integral.add_ok(rhs));
    }
}

/// Over the pools and trades of `in_trading_range`, with `c = 0` and no
/// fee, `swap_x_to_y_hmm` does not fail: the pool pays out at most what it
/// holds of y, so the new balance of y is not negative.
pub proof fn lemma_swap_x_to_y_hmm_ok_in_range(calc: SwapCalculator, delta_x: Decimal)
    requires
        in_trading_range(calc, delta_x),
        calc.c.value == 0,
        calc.fee_numer.value == 0,
        calc.fee_numer.scale == AMOUNT_SCALE,
    ensures
        calc.swap_x_to_y_hmm_ok(delta_x),
{
    lemma_pow10_u128_range();
    lemma_k_in_range(calc, delta_x);
    lemma_delta_y_hmm_ok_in_range(calc, delta_x);
    lemma_delta_y_hmm_c_zero(calc, delta_x);
    lemma_rescale_same(delta_x);
    let (fees, ex) = calc.fees_of(delta_x);
    assert(calc.fee_free());
    assert(ex == delta_x);
    assert(calc.fees_ok(delta_x));
    let k = calc.k_of();
    let x_new = calc.x0.sum(ex);
    assert(x_new == (Decimal {
        value: (calc.x0.value + delta_x.value) as u128,
        scale: AMOUNT_SCALE,
        negative: false,
    }));
    lemma_quotient_of_k(k, calc.x0);
    lemma_quotient_of_k(k, x_new);
    let a = k.quotient(calc.x0);
    let b = k.quotient(x_new);
    lemma_quotient_bounds(k, calc.x0);
    let av = a.value as int;
    assert(av <= calc.y0.value) by (nonlinear_arith)
        requires
            av * (calc.x0.value as int) <= (k.value as int) * 1_000_000,
            (k.value as int) * 1_000_000 <= (calc.x0.value as int) * (calc.y0.value as int),
            calc.x0.value >= 1,
            av >= 0,
    ;
    lemma_quotient_bounds(k, x_new);
    let bv = b.value as int;
    assert(bv <= av) by (nonlinear_arith)
        requires
            bv * (x_new.value as int) <= (k.value as int) * 1_000_000,
            (k.value as int) * 1_000_000 < (av + 1) * (calc.x0.value as int),
            calc.x0.value <= x_new.value,
            calc.x0.value >= 1,
            bv >= 0,
    ;
    let dy = calc.delta_y_hmm_of(ex);
    assert(dy == b.difference(a));
    assert(dy.signed() == b.signed() - a.signed()) by {
        crate::decimal::lemma_from_signed(b.signed() - a.signed(), AMOUNT_SCALE);
    }
    let y_new = calc.y0.sum(dy);
    assert(calc.y0.add_ok(dy));
    assert(y_new == (Decimal {
        value: (calc.y0.value - a.value + b.value) as u128,
        scale: AMOUNT_SCALE,
        negative: false,
    }));
    assert(x_new.sub_ok(calc.x0));
    assert(fees == (Decimal { value: 0, scale: AMOUNT_SCALE, negative: false }));
    assert(x_new.sum(fees) == x_new);
    let xv = x_new.value as int;
    let yv = y_new.value as int;
    assert(xv * yv <= 100_000_000_000_000_000_000_000_000_000) by (nonlinear_arith)
        requires
            0 <= xv <= 100_000_100_000_000,
            0 <= yv <= 100_000_000_000_000,
    ;
    assert(x_new.mul_ok(y_new));
    lemma_product_bounds(x_new, y_new);
    let p = x_new.product(y_new);
    assert(p.value <= 100_000_000_000_000_000_000_000);
    assert(p.sqrt_ok());
    lemma_root_bounds(p);
    let r = p.root().value as int;
    assert(r <= 100_000_000_000_000_000) by (nonlinear_arith)
        requires
            r * r <= (p.value as int) * 1_000_000,
            p.value <= 100_000_000_000_000_000_000_000,
            r >= 0,
    ;
    assert(p.root().sub_ok(min_liquidity()));
    assert(calc.squared_k_ok(x_new.sum(fees), y_new));
}

} // verus!
