//! Laws of the swap calculator: what swaps keep, how the two curves relate,
//! and the signs and monotonicity of the deltas.
use vstd::prelude::*;
use crate::arith::{lemma_pow10_positive, pow10};
use crate::decimal::{
    AMOUNT_SCALE, Decimal, MAX_SCALE, lemma_from_signed, lemma_power_unit_exponent, lemma_power_zero_exponent,
    lemma_product_commutes, lemma_quotient_bounds, lemma_quotient_by_one, lemma_root_bounds, one_at,
};
use crate::decimal_laws::{lemma_log_not_positive_below_one, lemma_power_monotone};
use crate::swap_calculator::{SwapCalculator, min_liquidity};
use crate::swap_result::SwapResult;

verus! {

/// The fee and the amount net of fees add up to the input amount (at the
/// scale of token amounts), and the fee is zero when the fee rate is.
pub proof fn lemma_fees_partition(calc: SwapCalculator, input: Decimal)
    requires
        calc.fees_ok(input),
    ensures
        calc.fees_of(input).0.signed() + calc.fees_of(input).1.signed() == input.rescaled(
            AMOUNT_SCALE,
        ).signed(),
        calc.fees_of(input).0.scale == AMOUNT_SCALE,
        calc.fees_of(input).1.scale == AMOUNT_SCALE,
        calc.fee_free() ==> calc.fees_of(input).0.value == 0,
{
    let amt = input.rescaled(AMOUNT_SCALE);
    if !calc.fee_free() {
        let fees = calc.fees_of(input).0;
        lemma_from_signed(amt.signed() - fees.signed(), AMOUNT_SCALE);
    }
}

/// Swapping x for y on the constant-product curve: the pool gains the whole
/// input in x, fees included; `delta_x` is the input net of fees; what the
/// pool pays out in y is `delta_y`; and the new balance of y is `k` divided by
/// the new balance of x net of fees, truncated, so that the product of the
/// balances never exceeds `k`.
pub proof fn lemma_swap_x_to_y_amm_balances(calc: SwapCalculator, delta_x: Decimal)
    requires
        calc.swap_x_to_y_amm_ok(delta_x),
    ensures
        ({
            let r = calc.swap_x_to_y_amm_of(delta_x);
            let (fees, ex) = calc.fees_of(delta_x);
            let x_pool = calc.x0.sum(ex);
            &&& r.k == calc.k_of()
            &&& r.fees == fees
            &&& r.x_new.signed() == calc.x0.signed() + delta_x.rescaled(AMOUNT_SCALE).signed()
            &&& r.delta_x.signed() == ex.signed()
            &&& r.y_new.signed() + r.delta_y.signed() == calc.y0.signed()
            &&& r.y_new.value * x_pool.value <= r.k.value * x_pool.denom()
            &&& r.k.value * x_pool.denom() < (r.y_new.value + 1) * x_pool.value
        }),
{
    let (fees, ex) = calc.fees_of(delta_x);
    let k = calc.k_of();
    let x_pool = calc.x0.sum(ex);
    let y_new = k.quotient(x_pool);
    lemma_fees_partition(calc, delta_x);
    lemma_from_signed(calc.x0.signed() + ex.signed(), calc.x0.scale);
    lemma_from_signed(x_pool.signed() + fees.signed(), x_pool.scale);
    lemma_from_signed(x_pool.signed() - calc.x0.signed(), x_pool.scale);
    lemma_from_signed(calc.y0.signed() - y_new.signed(), calc.y0.scale);
    lemma_quotient_bounds(k, x_pool);
}

/// Swapping y for x on the constant-product curve: the mirror image of
/// `lemma_swap_x_to_y_amm_balances`.
pub proof fn lemma_swap_y_to_x_amm_balances(calc: SwapCalculator, delta_y: Decimal)
    requires
        calc.swap_y_to_x_amm_ok(delta_y),
    ensures
        ({
            let r = calc.swap_y_to_x_amm_of(delta_y);
            let (fees, ex) = calc.fees_of(delta_y);
            let y_pool = calc.y0.sum(ex);
            &&& r.k == calc.k_of()
            &&& r.fees == fees
            &&& r.y_new.signed() == calc.y0.signed() + delta_y.rescaled(AMOUNT_SCALE).signed()
            &&& r.delta_y.signed() == ex.signed()
            &&& r.x_new.signed() + r.delta_x.signed() == calc.x0.signed()
            &&& r.x_new.value * y_pool.value <= r.k.value * y_pool.denom()
            &&& r.k.value * y_pool.denom() < (r.x_new.value + 1) * y_pool.value
        }),
{
    let (fees, ex) = calc.fees_of(delta_y);
    let k = calc.k_of();
    let y_pool = calc.y0.sum(ex);
    let x_new = k.quotient(y_pool);
    lemma_fees_partition(calc, delta_y);
    lemma_from_signed(calc.y0.signed() + ex.signed(), calc.y0.scale);
    lemma_from_signed(y_pool.signed() + fees.signed(), y_pool.scale);
    lemma_from_signed(y_pool.signed() - calc.y0.signed(), y_pool.scale);
    lemma_from_signed(calc.x0.signed() - x_new.signed(), calc.x0.scale);
    lemma_quotient_bounds(k, y_pool);
}

/// Swapping x for y on the oracle-guided curve: the pool gains the whole
/// input in x, fees included; `delta_x` is the input net of fees; and the new
/// balance of y is the old one plus `delta_y`, the oracle-guided delta for
/// the input net of fees.
pub proof fn lemma_swap_x_to_y_hmm_balances(calc: SwapCalculator, delta_x: Decimal)
    requires
        calc.swap_x_to_y_hmm_ok(delta_x),
    ensures
        ({
            let r = calc.swap_x_to_y_hmm_of(delta_x);
            let (fees, ex) = calc.fees_of(delta_x);
            &&& r.k == calc.k_of()
            &&& r.fees == fees
            &&& r.x_new.signed() == calc.x0.signed() + delta_x.rescaled(AMOUNT_SCALE).signed()
            &&& r.delta_x.signed() == ex.signed()
            &&& r.delta_y == calc.delta_y_hmm_of(ex)
            &&& r.y_new.signed() == calc.y0.signed() + r.delta_y.signed()
        }),
{
    let (fees, ex) = calc.fees_of(delta_x);
    let x_pool = calc.x0.sum(ex);
    let delta_y = calc.delta_y_hmm_of(ex);
    lemma_fees_partition(calc, delta_x);
    lemma_from_signed(calc.x0.signed() + ex.signed(), calc.x0.scale);
    lemma_from_signed(x_pool.signed() + fees.signed(), x_pool.scale);
    lemma_from_signed(x_pool.signed() - calc.x0.signed(), x_pool.scale);
    lemma_from_signed(calc.y0.signed() + delta_y.signed(), calc.y0.scale);
}

/// What a swap reports as `squared_k` is the geometric mean of the balances
/// it reports, less the minimum liquidity: `squared_k + MIN_LIQUIDITY` is the
/// truncated square root of `x_new * y_new` (the product truncated at 6
/// places, like every product), with `x_new` and `y_new` the new balances in
/// the result, fees included.
pub open spec fn reports_root_of_balances(r: SwapResult) -> bool {
    let d = r.x_new.denom();
    let p = (r.x_new.value * r.y_new.value) / (r.y_new.denom() as int);
    let s = r.squared_k.signed() + 100_000_000;
    &&& r.x_new.scale == AMOUNT_SCALE
    &&& r.squared_k.scale == AMOUNT_SCALE
    &&& 0 <= s
    &&& s * s <= p * d
    &&& p * d < (s + 1) * (s + 1)
}

/// A swap on the oracle-guided curve reports as `squared_k` the truncated square root of
/// the product of the balances it reports (the fee included in the balance
/// that receives it), less the minimum liquidity.
pub proof fn lemma_swap_x_to_y_hmm_squared_k(calc: SwapCalculator, delta: Decimal)
    requires
        calc.swap_x_to_y_hmm_ok(delta),
    ensures
        reports_root_of_balances(calc.swap_x_to_y_hmm_of(delta)),
{
    let r = calc.swap_x_to_y_hmm_of(delta);
    lemma_squared_k_of(calc, r.x_new, r.y_new);
}

/// A swap of x for y on the constant-product curve reports as `squared_k` the truncated square root of
/// the product of the balances it reports (the fee included in the balance
/// that receives it), less the minimum liquidity.
pub proof fn lemma_swap_x_to_y_amm_squared_k(calc: SwapCalculator, delta: Decimal)
    requires
        calc.swap_x_to_y_amm_ok(delta),
    ensures
        reports_root_of_balances(calc.swap_x_to_y_amm_of(delta)),
{
    let r = calc.swap_x_to_y_amm_of(delta);
    lemma_squared_k_of(calc, r.x_new, r.y_new);
}

/// A swap of y for x on the constant-product curve reports as `squared_k` the truncated square root of
/// the product of the balances it reports (the fee included in the balance
/// that receives it), less the minimum liquidity.
pub proof fn lemma_swap_y_to_x_amm_squared_k(calc: SwapCalculator, delta: Decimal)
    requires
        calc.swap_y_to_x_amm_ok(delta),
    ensures
        reports_root_of_balances(calc.swap_y_to_x_amm_of(delta)),
{
    let r = calc.swap_y_to_x_amm_of(delta);
    lemma_squared_k_of(calc, r.x_new, r.y_new);
}

/// `squared_k_of` is the truncated root of the truncated product, less the
/// minimum liquidity, wherever it is computed.
proof fn lemma_squared_k_of(calc: SwapCalculator, x_new: Decimal, y_new: Decimal)
    requires
        calc.squared_k_ok(x_new, y_new),
    ensures
        ({
            let r = calc.squared_k_of(x_new, y_new);
            let p = (x_new.value * y_new.value) / (y_new.denom() as int);
            let s = r.signed() + 100_000_000;
            &&& x_new.scale == AMOUNT_SCALE
            &&& r.scale == AMOUNT_SCALE
            &&& 0 <= s
            &&& s * s <= p * x_new.denom()
            &&& p * x_new.denom() < (s + 1) * (s + 1)
        }),
{
    let prod = x_new.product(y_new);
    let root = prod.root();
    lemma_pow10_positive(y_new.scale as nat);
    lemma_root_bounds(prod);
    lemma_from_signed(root.signed() - min_liquidity().signed(), root.scale);
    assert(prod.value == (x_new.value * y_new.value) / (y_new.denom() as int));
}

/// Adding y to a pool with non-negative balances never takes x in:
/// `K/(Y₀ + Δy) - K/Y₀ <= 0` for `Δy >= 0`.
pub proof fn lemma_delta_x_amm_not_positive(calc: SwapCalculator, delta_y: Decimal)
    requires
        calc.delta_x_amm_ok(delta_y),
        !calc.x0.negative,
        !calc.y0.negative,
        !delta_y.negative,
    ensures
        calc.delta_x_amm_of(delta_y).signed() <= 0,
{
    let k = calc.k_of();
    let y_new = calc.y0.sum(delta_y);
    lemma_from_signed(calc.y0.signed() + delta_y.signed(), calc.y0.scale);
    vstd::arithmetic::div_mod::lemma_div_is_ordered_by_denominator(
        (k.value as nat * y_new.denom()) as int,
        calc.y0.value as int,
        y_new.value as int,
    );
    lemma_from_signed(
        k.quotient(y_new).signed() - k.quotient(calc.y0).signed(),
        k.scale,
    );
}

/// Adding x to a pool with non-negative balances never takes y in:
/// `K/(X₀ + Δx) - K/X₀ <= 0` for `Δx >= 0`.
pub proof fn lemma_delta_y_amm_not_positive(calc: SwapCalculator, delta_x: Decimal)
    requires
        calc.delta_y_amm_ok(delta_x),
        !calc.x0.negative,
        !calc.y0.negative,
        !delta_x.negative,
    ensures
        calc.delta_y_amm_of(delta_x).signed() <= 0,
{
    let k = calc.k_of();
    let x_new = calc.x0.sum(delta_x);
    lemma_from_signed(calc.x0.signed() + delta_x.signed(), calc.x0.scale);
    vstd::arithmetic::div_mod::lemma_div_is_ordered_by_denominator(
        (k.value as nat * x_new.denom()) as int,
        calc.x0.value as int,
        x_new.value as int,
    );
    lemma_from_signed(
        k.quotient(x_new).signed() - k.quotient(calc.x0).signed(),
        k.scale,
    );
}

/// The three regimes of the oracle-guided curve for a trade that adds x:
/// when the oracle price is better from the start (`X₀ >= Xᵢ`) it is the
/// constant-product delta; when the constant-product price stays better for
/// the whole trade (`X_new <= Xᵢ`) it is the integral from `X₀` to `X_new`;
/// otherwise it is the integral up to `Xᵢ` plus the constant-product delta
/// from `Xᵢ` to `X_new`. Where `compute_delta_y_hmm` succeeds, so does the
/// computation of the regime it takes.
pub proof fn lemma_delta_y_hmm_regimes(calc: SwapCalculator, delta_x: Decimal)
    requires
        calc.x0.sum(delta_x).value > calc.x0.value,
    ensures
        ({
            let x_new = calc.x0.sum(delta_x);
            let xi = calc.xi_of();
            let k = calc.k_of();
            &&& calc.x0.value >= xi.value ==> calc.delta_y_hmm_of(delta_x)
                == calc.delta_y_amm_of(delta_x)
            &&& calc.x0.value < xi.value && x_new.value <= xi.value ==> calc.delta_y_hmm_of(delta_x)
                == calc.integral_of(k, calc.x0, x_new, xi, calc.c)
            &&& calc.x0.value < xi.value && xi.value < x_new.value ==> calc.delta_y_hmm_of(delta_x)
                == calc.integral_of(k, calc.x0, xi, xi, calc.c).sum(
                k.quotient(x_new).difference(k.quotient(xi)),
            )
            &&& calc.delta_y_hmm_ok(delta_x) && calc.x0.value >= xi.value ==> calc.delta_y_amm_ok(
                delta_x,
            )
            &&& calc.delta_y_hmm_ok(delta_x) && calc.x0.value < xi.value && x_new.value <= xi.value
                ==> calc.integral_ok(k, calc.x0, x_new, xi, calc.c)
        }),
{
}

/// The three regimes of the oracle-guided curve for a trade that adds y,
/// the mirror image of `lemma_delta_y_hmm_regimes`.
pub proof fn lemma_delta_x_hmm_regimes(calc: SwapCalculator, delta_y: Decimal)
    requires
        calc.y0.sum(delta_y).value > calc.y0.value,
    ensures
        ({
            let y_new = calc.y0.sum(delta_y);
            let yi = calc.yi_of();
            let k = calc.k_of();
            &&& calc.y0.value >= yi.value ==> calc.delta_x_hmm_of(delta_y)
                == calc.delta_x_amm_of(delta_y)
            &&& calc.y0.value < yi.value && y_new.value <= yi.value ==> calc.delta_x_hmm_of(delta_y)
                == calc.integral_of(k, calc.y0, y_new, yi, calc.c)
            &&& calc.y0.value < yi.value && yi.value < y_new.value ==> calc.delta_x_hmm_of(delta_y)
                == calc.integral_of(k, calc.y0, yi, yi, calc.c).sum(
                k.quotient(y_new).difference(k.quotient(yi)),
            )
            &&& calc.delta_x_hmm_ok(delta_y) && calc.y0.value >= yi.value ==> calc.delta_x_amm_ok(
                delta_y,
            )
            &&& calc.delta_x_hmm_ok(delta_y) && calc.y0.value < yi.value && y_new.value <= yi.value
                ==> calc.integral_ok(k, calc.y0, y_new, yi, calc.c)
        }),
{
}

/// The oracle-guided and the constant-product deltas for a trade that adds
/// x differ only in how they price the stretch below `Xᵢ`: they are equal
/// when `X₀ >= Xᵢ`, and when the trade crosses `Xᵢ` the difference is the
/// integral from `X₀` to `Xᵢ` less the constant-product delta `k/Xᵢ - k/X₀`
/// over that stretch.
pub proof fn lemma_delta_y_hmm_against_amm(calc: SwapCalculator, delta_x: Decimal)
    requires
        calc.delta_y_hmm_ok(delta_x),
        !calc.x0.negative,
        !calc.y0.negative,
        !delta_x.negative,
        calc.x0.sum(delta_x).value > calc.x0.value,
    ensures
        ({
            let x_new = calc.x0.sum(delta_x);
            let xi = calc.xi_of();
            let k = calc.k_of();
            let hmm = calc.delta_y_hmm_of(delta_x).signed();
            let amm = calc.delta_y_amm_of(delta_x).signed();
            &&& amm == k.quotient(x_new).signed() - k.quotient(calc.x0).signed()
            &&& calc.x0.value >= xi.value ==> hmm == amm
            &&& calc.x0.value < xi.value && xi.value < x_new.value ==> hmm - amm
                == calc.integral_of(k, calc.x0, xi, xi, calc.c).signed() - (k.quotient(xi).signed()
                - k.quotient(calc.x0).signed())
        }),
{
    let x_new = calc.x0.sum(delta_x);
    let xi = calc.xi_of();
    let k = calc.k_of();
    let i0 = k.quotient(calc.x0);
    let inew = k.quotient(x_new);
    assert(!x_new.negative);
    lemma_from_signed(inew.signed() - i0.signed(), k.scale);
    if calc.x0.value < xi.value && xi.value < x_new.value {
        let ii = k.quotient(xi);
        let integral = calc.integral_of(k, calc.x0, xi, xi, calc.c);
        let rhs = inew.difference(ii);
        lemma_from_signed(inew.signed() - ii.signed(), k.scale);
        lemma_from_signed(integral.signed() + rhs.signed(), integral.scale);
    }
}

/// The mirror image of `lemma_delta_y_hmm_against_amm` for a trade that
/// adds y: the two deltas differ only over the stretch below `Yᵢ`.
pub proof fn lemma_delta_x_hmm_against_amm(calc: SwapCalculator, delta_y: Decimal)
    requires
        calc.delta_x_hmm_ok(delta_y),
        !calc.x0.negative,
        !calc.y0.negative,
        !delta_y.negative,
        calc.y0.sum(delta_y).value > calc.y0.value,
    ensures
        ({
            let y_new = calc.y0.sum(delta_y);
            let yi = calc.yi_of();
            let k = calc.k_of();
            let hmm = calc.delta_x_hmm_of(delta_y).signed();
            let amm = calc.delta_x_amm_of(delta_y).signed();
            &&& amm == k.quotient(y_new).signed() - k.quotient(calc.y0).signed()
            &&& calc.y0.value >= yi.value ==> hmm == amm
            &&& calc.y0.value < yi.value && yi.value < y_new.value ==> hmm - amm
                == calc.integral_of(k, calc.y0, yi, yi, calc.c).signed() - (k.quotient(yi).signed()
                - k.quotient(calc.y0).signed())
        }),
{
    let y_new = calc.y0.sum(delta_y);
    let yi = calc.yi_of();
    let k = calc.k_of();
    let i0 = k.quotient(calc.y0);
    let inew = k.quotient(y_new);
    assert(!y_new.negative);
    lemma_from_signed(inew.signed() - i0.signed(), k.scale);
    if calc.y0.value < yi.value && yi.value < y_new.value {
        let ii = k.quotient(yi);
        let integral = calc.integral_of(k, calc.y0, yi, yi, calc.c);
        let rhs = inew.difference(ii);
        lemma_from_signed(inew.signed() - ii.signed(), k.scale);
        lemma_from_signed(integral.signed() + rhs.signed(), integral.scale);
    }
}

/// `Xᵢ` is the balance of x at which the constant-product price `K/X²` is the
/// oracle price: `Xᵢ² <= K/i < (Xᵢ + 10^-scale)²`, at `K`'s scale.
pub proof fn lemma_xi_is_oracle_balance(calc: SwapCalculator)
    requires
        calc.xi_ok(),
    ensures
        ({
            let k_div_i = calc.k_of().quotient(calc.i);
            let xi = calc.xi_of();
            &&& xi.value * xi.value <= k_div_i.value * k_div_i.denom()
            &&& k_div_i.value * k_div_i.denom() < (xi.value + 1) * (xi.value + 1)
            &&& xi.scale == calc.x0.scale
        }),
{
    lemma_root_bounds(calc.k_of().quotient(calc.i));
}

/// `Yᵢ` is the balance of y at which the constant-product price `K/Y²` is the
/// reciprocal of the oracle price: `Yᵢ² <= K i < (Yᵢ + 10^-scale)²`, at `K`'s
/// scale.
pub proof fn lemma_yi_is_oracle_balance(calc: SwapCalculator)
    requires
        calc.yi_ok(),
    ensures
        ({
            let k_mul_i = calc.k_of().product(calc.i);
            let yi = calc.yi_of();
            &&& yi.value * yi.value <= k_mul_i.value * k_mul_i.denom()
            &&& k_mul_i.value * k_mul_i.denom() < (yi.value + 1) * (yi.value + 1)
            &&& yi.scale == calc.x0.scale
        }),
{
    lemma_root_bounds(calc.k_of().product(calc.i));
}

/// With `c = 0` the integral of the price curve from `q0` to `q_new` is the
/// constant-product delta `k/q_new - k/q0`, exactly, for an invariant and
/// balances that are not negative, and wherever the integral is computed.
pub proof fn lemma_integral_c_zero(
    calc: SwapCalculator,
    k: Decimal,
    q0: Decimal,
    q_new: Decimal,
    qi: Decimal,
    c: Decimal,
)
    requires
        c.value == 0,
        c.scale == calc.x0.scale,
        calc.x0.scale <= MAX_SCALE,
        q0.scale <= MAX_SCALE,
        q_new.scale <= MAX_SCALE,
        qi.scale <= MAX_SCALE,
        (!k.negative && !q0.negative && !q_new.negative) || calc.integral_ok(k, q0, q_new, qi, c),
    ensures
        calc.integral_of(k, q0, q_new, qi, c) == k.quotient(q_new).difference(k.quotient(q0)),
        calc.integral_ok(k, q0, q_new, qi, c) ==> {
            &&& k.div_ok(q0)
            &&& k.div_ok(q_new)
            &&& k.quotient(q_new).sub_ok(k.quotient(q0))
        },
{
    let s = calc.x0.scale;
    let one = one_at(s);
    lemma_pow10_positive(s as nat);
    crate::arith::lemma_pow10_monotonic(s as nat, 38);
    crate::arith::lemma_pow10_u128_range();
    assert(one.value >= 1);
    assert(c != one);
    let c_sub_one = c.difference(one);
    assert(c_sub_one == (Decimal { value: one.value, scale: s, negative: true }));
    assert(c_sub_one.value as nat == c_sub_one.denom());
    lemma_power_unit_exponent(q0, c_sub_one);
    lemma_power_unit_exponent(q_new, c_sub_one);
    lemma_power_zero_exponent(qi, c);
    let a = k.quotient(q0);
    let b = k.quotient(q_new);
    assert(a == k.quotient(q0.power(c_sub_one)));
    assert(b == k.quotient(q_new.power(c_sub_one)));
    let d = a.difference(b);
    lemma_from_signed(a.signed() - b.signed(), a.scale);
    lemma_quotient_by_one(d, qi.scale);
    assert(d.quotient(qi.power(c)) == d);
    lemma_pow10_positive(c_sub_one.scale as nat);
    vstd::arithmetic::div_mod::lemma_div_by_multiple(d.value as int, pow10(s as nat) as int);
    assert(d.quotient(c_sub_one).value == d.value);
    lemma_from_signed(b.signed() - a.signed(), b.scale);
}

/// With `c = 0` the oracle-guided curve is the constant-product curve: in
/// every branch the quotients telescope to `k/(x0 + Δx) - k/x0`, with no
/// rounding between the two. This holds for balances and a trade that are
/// not negative, and wherever `compute_delta_y_hmm` succeeds.
pub proof fn lemma_delta_y_hmm_c_zero(calc: SwapCalculator, delta_x: Decimal)
    requires
        calc.c.value == 0,
        calc.c.scale == calc.x0.scale,
        calc.x0.scale <= MAX_SCALE,
        (!calc.x0.negative && !calc.y0.negative && !delta_x.negative) || calc.delta_y_hmm_ok(
            delta_x,
        ),
    ensures
        calc.delta_y_hmm_of(delta_x) == calc.delta_y_amm_of(delta_x),
        calc.delta_y_hmm_ok(delta_x) ==> calc.delta_y_amm_ok(delta_x),
{
    let x_new = calc.x0.sum(delta_x);
    let xi = calc.xi_of();
    let k = calc.k_of();
    if x_new.value > calc.x0.value && calc.x0.value >= xi.value {
    } else if x_new.value > calc.x0.value && x_new.value <= xi.value {
        lemma_integral_c_zero(calc, k, calc.x0, x_new, xi, calc.c);
        lemma_from_signed(k.quotient(x_new).signed() - k.quotient(calc.x0).signed(), k.scale);
    } else {
        lemma_integral_c_zero(calc, k, calc.x0, xi, xi, calc.c);
        let i0 = k.quotient(calc.x0);
        let ii = k.quotient(xi);
        let inew = k.quotient(x_new);
        lemma_from_signed(ii.signed() - i0.signed(), k.scale);
        lemma_from_signed(inew.signed() - ii.signed(), k.scale);
        lemma_from_signed(
            (ii.signed() - i0.signed()) + (inew.signed() - ii.signed()),
            k.scale,
        );
        lemma_from_signed(inew.signed() - i0.signed(), k.scale);
    }
}

/// With `c = 0` the oracle-guided curve is the constant-product curve on the
/// y side too: `Δx = k/(y0 + Δy) - k/y0`, with no rounding between the two,
/// for balances and a trade that are not negative, and wherever
/// `compute_delta_x_hmm` succeeds.
pub proof fn lemma_delta_x_hmm_c_zero(calc: SwapCalculator, delta_y: Decimal)
    requires
        calc.c.value == 0,
        calc.c.scale == calc.x0.scale,
        calc.x0.scale <= MAX_SCALE,
        calc.y0.scale <= MAX_SCALE,
        (!calc.x0.negative && !calc.y0.negative && !delta_y.negative) || calc.delta_x_hmm_ok(
            delta_y,
        ),
    ensures
        calc.delta_x_hmm_of(delta_y) == calc.delta_x_amm_of(delta_y),
        calc.delta_x_hmm_ok(delta_y) ==> calc.delta_x_amm_ok(delta_y),
{
    let y_new = calc.y0.sum(delta_y);
    let yi = calc.yi_of();
    let k = calc.k_of();
    if y_new.value > calc.y0.value && calc.y0.value >= yi.value {
    } else if y_new.value > calc.y0.value && y_new.value <= yi.value {
        lemma_integral_c_zero(calc, k, calc.y0, y_new, yi, calc.c);
        lemma_from_signed(k.quotient(y_new).signed() - k.quotient(calc.y0).signed(), k.scale);
    } else {
        lemma_integral_c_zero(calc, k, calc.y0, yi, yi, calc.c);
        let i0 = k.quotient(calc.y0);
        let ii = k.quotient(yi);
        let inew = k.quotient(y_new);
        lemma_from_signed(ii.signed() - i0.signed(), k.scale);
        lemma_from_signed(inew.signed() - ii.signed(), k.scale);
        lemma_from_signed(
            (ii.signed() - i0.signed()) + (inew.signed() - ii.signed()),
            k.scale,
        );
        lemma_from_signed(inew.signed() - i0.signed(), k.scale);
    }
}

/// Exchanging the two tokens of a pool whose balances share a scale
/// exchanges the constant-product deltas: `Δx` for `Δy` on this pool is `Δy`
/// for `Δx` on the mirrored pool.
pub proof fn lemma_delta_amm_mirror(calc: SwapCalculator, delta: Decimal)
    requires
        calc.x0.scale == calc.y0.scale,
    ensures
        calc.mirrored().k_of() == calc.k_of(),
        calc.delta_x_amm_ok(delta) == calc.mirrored().delta_y_amm_ok(delta),
        calc.delta_x_amm_of(delta) == calc.mirrored().delta_y_amm_of(delta),
        calc.delta_y_amm_ok(delta) == calc.mirrored().delta_x_amm_ok(delta),
        calc.delta_y_amm_of(delta) == calc.mirrored().delta_x_amm_of(delta),
{
    lemma_product_commutes(calc.x0, calc.y0);
}

/// Exchanging the two tokens of a pool whose balances share a scale turns a
/// swap of y for x into the swap of x for y on the mirrored pool, field by
/// field.
pub proof fn lemma_swap_amm_mirror(calc: SwapCalculator, delta: Decimal)
    requires
        calc.x0.scale == calc.y0.scale,
    ensures
        calc.swap_y_to_x_amm_ok(delta) == calc.mirrored().swap_x_to_y_amm_ok(delta),
        ({
            let r = calc.swap_y_to_x_amm_of(delta);
            let m = calc.mirrored().swap_x_to_y_amm_of(delta);
            &&& r.k == m.k
            &&& r.x_new == m.y_new
            &&& r.y_new == m.x_new
            &&& r.delta_x == m.delta_y
            &&& r.delta_y == m.delta_x
            &&& r.fees == m.fees
            &&& r.squared_k == m.squared_k
        }),
{
    let m = calc.mirrored();
    lemma_product_commutes(calc.x0, calc.y0);
    let (fees, ex) = calc.fees_of(delta);
    assert(m.fees_of(delta) == calc.fees_of(delta));
    assert(m.fees_ok(delta) == calc.fees_ok(delta));
    let k = calc.k_of();
    let y_pool = calc.y0.sum(ex);
    let x_new = k.quotient(y_pool);
    let y_total = y_pool.sum(fees);
    lemma_product_commutes(x_new, y_total);
}

/// For a fee rate in `[0, 1]` whose numerator is a whole number of tokens,
/// a larger input never takes a smaller fee and never leaves less after
/// fees; fee and net amount are never negative.
pub proof fn lemma_fees_net_monotone(calc: SwapCalculator, in1: Decimal, in2: Decimal)
    requires
        calc.fees_ok(in1),
        calc.fees_ok(in2),
        !in1.negative,
        !in2.negative,
        in1.rescaled(AMOUNT_SCALE).value <= in2.rescaled(AMOUNT_SCALE).value,
        !calc.fee_numer.negative,
        !calc.fee_denom.negative,
        calc.fee_numer.value % 1_000_000 == 0,
        calc.fee_numer.value <= calc.fee_denom.value,
    ensures
        0 <= calc.fees_of(in1).0.signed(),
        calc.fees_of(in1).0.signed() <= calc.fees_of(in2).0.signed(),
        0 <= calc.fees_of(in1).1.signed(),
        calc.fees_of(in1).1.signed() <= calc.fees_of(in2).1.signed(),
{
    let a1 = in1.rescaled(AMOUNT_SCALE);
    let a2 = in2.rescaled(AMOUNT_SCALE);
    if !calc.fee_free() {
        crate::arith::lemma_pow10_u128_range();
        crate::decimal::lemma_rescale_same(calc.fee_numer);
        crate::decimal::lemma_rescale_same(calc.fee_denom);
        let n = calc.fee_numer.value as nat;
        let d = calc.fee_denom.value as nat;
        let big_n = n / 1_000_000;
        vstd::arithmetic::div_mod::lemma_fundamental_div_mod(n as int, 1_000_000);
        assert(n == big_n * 1_000_000);
        assert forall|a: nat| #[trigger] ((a * n) / 1_000_000) * 1_000_000 == a * n by {
            assert(a * n == (a * big_n) * 1_000_000) by (nonlinear_arith)
                requires
                    n == big_n * 1_000_000,
            ;
            vstd::arithmetic::div_mod::lemma_div_by_multiple((a * big_n) as int, 1_000_000);
        }
        let p1 = a1.product(calc.fee_numer);
        let p2 = a2.product(calc.fee_numer);
        assert((p1.value as nat) * 1_000_000 == (a1.value as nat) * n);
        assert((p2.value as nat) * 1_000_000 == (a2.value as nat) * n);
        crate::arith::lemma_truncated_rate_step(a1.value as nat, a2.value as nat, n, d);
        let f1 = p1.quotient(calc.fee_denom);
        let f2 = p2.quotient(calc.fee_denom);
        assert(f1.value == ((a1.value as nat) * n) / d);
        assert(f2.value == ((a2.value as nat) * n) / d);
        lemma_from_signed(a1.signed() - f1.signed(), AMOUNT_SCALE);
        lemma_from_signed(a2.signed() - f2.signed(), AMOUNT_SCALE);
    }
}

/// Swapping x for y on the constant-product curve, with a fee rate in
/// `[0, 1]` whose numerator is a whole number of tokens: a larger input
/// never pays out less y, never leaves more y in the pool, never takes a
/// smaller fee and never leaves less x in the pool.
pub proof fn lemma_swap_x_to_y_amm_monotone(calc: SwapCalculator, d1: Decimal, d2: Decimal)
    requires
        calc.swap_x_to_y_amm_ok(d1),
        calc.swap_x_to_y_amm_ok(d2),
        !calc.x0.negative,
        !calc.y0.negative,
        !d1.negative,
        !d2.negative,
        d1.rescaled(AMOUNT_SCALE).value <= d2.rescaled(AMOUNT_SCALE).value,
        !calc.fee_numer.negative,
        !calc.fee_denom.negative,
        calc.fee_numer.value % 1_000_000 == 0,
        calc.fee_numer.value <= calc.fee_denom.value,
    ensures
        ({
            let r1 = calc.swap_x_to_y_amm_of(d1);
            let r2 = calc.swap_x_to_y_amm_of(d2);
            &&& r1.delta_y.signed() <= r2.delta_y.signed()
            &&& r2.y_new.signed() <= r1.y_new.signed()
            &&& r1.fees.signed() <= r2.fees.signed()
            &&& r1.x_new.signed() <= r2.x_new.signed()
        }),
{
    lemma_fees_net_monotone(calc, d1, d2);
    lemma_swap_x_to_y_amm_balances(calc, d1);
    lemma_swap_x_to_y_amm_balances(calc, d2);
    let e1 = calc.fees_of(d1).1;
    let e2 = calc.fees_of(d2).1;
    let k = calc.k_of();
    let x1 = calc.x0.sum(e1);
    let x2 = calc.x0.sum(e2);
    lemma_from_signed(calc.x0.signed() + e1.signed(), calc.x0.scale);
    lemma_from_signed(calc.x0.signed() + e2.signed(), calc.x0.scale);
    vstd::arithmetic::div_mod::lemma_div_is_ordered_by_denominator(
        (k.value as nat * x1.denom()) as int,
        x1.value as int,
        x2.value as int,
    );
    let y1 = k.quotient(x1);
    let y2 = k.quotient(x2);
    lemma_from_signed(calc.y0.signed() - y1.signed(), calc.y0.scale);
    lemma_from_signed(calc.y0.signed() - y2.signed(), calc.y0.scale);
}

/// On the constant-product curve, adding more y to a pool with non-negative
/// balances never gives out less x: `Δx` is non-increasing in `Δy >= 0`.
pub proof fn lemma_delta_x_amm_monotone(calc: SwapCalculator, d1: Decimal, d2: Decimal)
    requires
        calc.delta_x_amm_ok(d1),
        calc.delta_x_amm_ok(d2),
        !calc.x0.negative,
        !calc.y0.negative,
        !d1.negative,
        !d2.negative,
        d1.value <= d2.value,
    ensures
        calc.delta_x_amm_of(d2).signed() <= calc.delta_x_amm_of(d1).signed(),
{
    let k = calc.k_of();
    let y1 = calc.y0.sum(d1);
    let y2 = calc.y0.sum(d2);
    lemma_from_signed(calc.y0.signed() + d1.signed(), calc.y0.scale);
    lemma_from_signed(calc.y0.signed() + d2.signed(), calc.y0.scale);
    vstd::arithmetic::div_mod::lemma_div_is_ordered_by_denominator(
        (k.value as nat * y1.denom()) as int,
        y1.value as int,
        y2.value as int,
    );
    lemma_from_signed(k.quotient(y1).signed() - k.quotient(calc.y0).signed(), k.scale);
    lemma_from_signed(k.quotient(y2).signed() - k.quotient(calc.y0).signed(), k.scale);
}

/// On the constant-product curve, adding more x to a pool with non-negative
/// balances never gives out less y: `Δy` is non-increasing in `Δx >= 0`.
pub proof fn lemma_delta_y_amm_monotone(calc: SwapCalculator, d1: Decimal, d2: Decimal)
    requires
        calc.delta_y_amm_ok(d1),
        calc.delta_y_amm_ok(d2),
        !calc.x0.negative,
        !calc.y0.negative,
        !d1.negative,
        !d2.negative,
        d1.value <= d2.value,
    ensures
        calc.delta_y_amm_of(d2).signed() <= calc.delta_y_amm_of(d1).signed(),
{
    let k = calc.k_of();
    let x1 = calc.x0.sum(d1);
    let x2 = calc.x0.sum(d2);
    lemma_from_signed(calc.x0.signed() + d1.signed(), calc.x0.scale);
    lemma_from_signed(calc.x0.signed() + d2.signed(), calc.x0.scale);
    vstd::arithmetic::div_mod::lemma_div_is_ordered_by_denominator(
        (k.value as nat * x1.denom()) as int,
        x1.value as int,
        x2.value as int,
    );
    lemma_from_signed(k.quotient(x1).signed() - k.quotient(calc.x0).signed(), k.scale);
    lemma_from_signed(k.quotient(x2).signed() - k.quotient(calc.x0).signed(), k.scale);
}

/// With non-negative `k`, `qi` and balances at one scale, the integral of the
/// price curve from `q0` up to `q_new >= q0` is not positive: moving up the
/// curve never takes the other token in. For `c = 1` (the logarithm) this
/// needs a scale of at most 6 places: beyond it `q_new` is truncated to 6
/// places before the division, and the ratio can exceed one.
pub proof fn lemma_integral_not_positive(
    calc: SwapCalculator,
    k: Decimal,
    q0: Decimal,
    q_new: Decimal,
    qi: Decimal,
    c: Decimal,
)
    requires
        calc.integral_ok(k, q0, q_new, qi, c),
        q0.scale == calc.x0.scale,
        q_new.scale == calc.x0.scale,
        c == one_at(calc.x0.scale) ==> calc.x0.scale <= AMOUNT_SCALE,
        !k.negative,
        !q0.negative,
        !q_new.negative,
        !qi.negative,
        q0.value <= q_new.value,
    ensures
        calc.integral_of(k, q0, q_new, qi, c).signed() <= 0,
{
    crate::arith::lemma_pow10_u128_range();
    let one = one_at(calc.x0.scale);
    if c == one {
        let s = calc.x0.scale as nat;
        let k_div_qi = k.rescaled(8).quotient(qi.rescaled(AMOUNT_SCALE));
        let q08 = q0.rescaled(8);
        let qn6 = q_new.rescaled(AMOUNT_SCALE);
        let f = pow10((6 - s) as nat);
        crate::arith::lemma_pow10_adds(2, (6 - s) as nat);
        crate::arith::lemma_pow10_positive((6 - s) as nat);
        assert((2 + (6 - s)) as nat == (8 - s) as nat);
        assert(q08.value == q0.value * (100 * f));
        assert(qn6.value == q_new.value * f);
        let qq = q08.quotient(qn6);
        assert((q08.value as nat) * 1_000_000 <= 100_000_000 * (qn6.value as nat)) by (
        nonlinear_arith)
            requires
                q08.value == q0.value * (100 * f),
                qn6.value == q_new.value * f,
                q0.value <= q_new.value,
        ;
        crate::arith::lemma_floor_div_bounds((q08.value as nat) * 1_000_000, qn6.value as nat);
        assert(qq.value <= 100_000_000) by (nonlinear_arith)
            requires
                (qq.value as nat) * (qn6.value as nat) <= (q08.value as nat) * 1_000_000,
                (q08.value as nat) * 1_000_000 <= 100_000_000 * (qn6.value as nat),
                qn6.value > 0,
        ;
        lemma_log_not_positive_below_one(qq);
        let l = qq.log();
        let p = k_div_qi.product(l);
        if !l.negative {
            assert(l.value == 0);
            assert(p.value == 0);
        }
        let r = p.rescaled(calc.x0.scale);
        assert(p.scale == 8);
        crate::arith::lemma_pow10_positive((8 - s) as nat);
        assert(r.negative == p.negative);
        if !p.negative {
            assert(p.value == 0);
            assert(r.value == 0);
        }
        assert(calc.integral_of(k, q0, q_new, qi, c) == r);
        assert(r.signed() <= 0);
    } else {
        let c_sub_one = c.difference(one);
        lemma_power_monotone(q0, q_new, c_sub_one);
        lemma_power_monotone(qi, qi, c);
        let p0 = q0.power(c_sub_one);
        let pn = q_new.power(c_sub_one);
        if c_sub_one.negative {
            let a = k.quotient(p0);
            let b = k.quotient(pn);
            vstd::arithmetic::div_mod::lemma_div_is_ordered_by_denominator(
                (k.value as nat * p0.denom()) as int,
                p0.value as int,
                pn.value as int,
            );
            lemma_from_signed(a.signed() - b.signed(), a.scale);
            let d = a.difference(b);
            assert(!d.negative);
            let qi_pow_c = qi.power(c);
            assert(!d.quotient(qi_pow_c).negative);
            assert(c_sub_one.negative);
            let r = d.quotient(qi_pow_c).quotient(c_sub_one);
            assert(calc.integral_of(k, q0, q_new, qi, c) == r);
            assert(r.signed() <= 0);
        } else {
            let rhs = p0.difference(pn);
            lemma_from_signed(p0.signed() - pn.signed(), p0.scale);
            let lhs = k.quotient(qi.power(c).product(c_sub_one));
            assert(!lhs.negative);
            let r = lhs.product(rhs);
            if !rhs.negative {
                assert(rhs.value == 0);
                assert((lhs.value as nat) * (rhs.value as nat) == 0) by (nonlinear_arith)
                    requires
                        rhs.value == 0,
                ;
                lemma_pow10_positive(rhs.scale as nat);
                assert(r.value == 0);
            }
            assert(calc.integral_of(k, q0, q_new, qi, c) == r);
            assert(r.signed() <= 0);
        }
    }
}

/// Adding x to a pool with non-negative balances never takes y in on the
/// oracle-guided curve: `Δy <= 0` for `Δx > 0`, in each of its three
/// branches, at any scale (at most 6 places for `c = 1`, see
/// `lemma_integral_not_positive`).
pub proof fn lemma_delta_y_hmm_not_positive(calc: SwapCalculator, delta_x: Decimal)
    requires
        calc.delta_y_hmm_ok(delta_x),
        calc.c == one_at(calc.x0.scale) ==> calc.x0.scale <= AMOUNT_SCALE,
        !calc.x0.negative,
        !calc.y0.negative,
        !delta_x.negative,
        delta_x.value > 0,
    ensures
        calc.delta_y_hmm_of(delta_x).signed() <= 0,
{
    let x_new = calc.x0.sum(delta_x);
    let xi = calc.xi_of();
    let k = calc.k_of();
    lemma_from_signed(calc.x0.signed() + delta_x.signed(), calc.x0.scale);
    if x_new.value > calc.x0.value && calc.x0.value >= xi.value {
        lemma_delta_y_amm_not_positive(calc, delta_x);
    } else if x_new.value > calc.x0.value && x_new.value <= xi.value {
        lemma_integral_not_positive(calc, k, calc.x0, x_new, xi, calc.c);
    } else {
        lemma_integral_not_positive(calc, k, calc.x0, xi, xi, calc.c);
        let a = k.quotient(x_new);
        let b = k.quotient(xi);
        vstd::arithmetic::div_mod::lemma_div_is_ordered_by_denominator(
            (k.value as nat * xi.denom()) as int,
            xi.value as int,
            x_new.value as int,
        );
        lemma_from_signed(a.signed() - b.signed(), k.scale);
        let integral = calc.integral_of(k, calc.x0, xi, xi, calc.c);
        lemma_from_signed(integral.signed() + (a.signed() - b.signed()), integral.scale);
    }
}

/// Adding y to a pool with non-negative balances at one scale never takes x
/// in on the oracle-guided curve: `Δx <= 0` for `Δy > 0`, in each of its
/// three branches (at most 6 places for `c = 1`).
pub proof fn lemma_delta_x_hmm_not_positive(calc: SwapCalculator, delta_y: Decimal)
    requires
        calc.delta_x_hmm_ok(delta_y),
        calc.y0.scale == calc.x0.scale,
        calc.c == one_at(calc.x0.scale) ==> calc.x0.scale <= AMOUNT_SCALE,
        !calc.x0.negative,
        !calc.y0.negative,
        !delta_y.negative,
        delta_y.value > 0,
    ensures
        calc.delta_x_hmm_of(delta_y).signed() <= 0,
{
    let y_new = calc.y0.sum(delta_y);
    let yi = calc.yi_of();
    let k = calc.k_of();
    lemma_from_signed(calc.y0.signed() + delta_y.signed(), calc.y0.scale);
    if y_new.value > calc.y0.value && calc.y0.value >= yi.value {
        lemma_delta_x_amm_not_positive(calc, delta_y);
    } else if y_new.value > calc.y0.value && y_new.value <= yi.value {
        lemma_integral_not_positive(calc, k, calc.y0, y_new, yi, calc.c);
    } else {
        lemma_integral_not_positive(calc, k, calc.y0, yi, yi, calc.c);
        let a = k.quotient(y_new);
        let b = k.quotient(yi);
        vstd::arithmetic::div_mod::lemma_div_is_ordered_by_denominator(
            (k.value as nat * yi.denom()) as int,
            yi.value as int,
            y_new.value as int,
        );
        lemma_from_signed(a.signed() - b.signed(), k.scale);
        let integral = calc.integral_of(k, calc.y0, yi, yi, calc.c);
        lemma_from_signed(integral.signed() + (a.signed() - b.signed()), integral.scale);
    }
}

/// With `c = 0` the oracle-guided swap of x for y is the constant-product
/// swap: it takes the same fee, moves x the same way and has the same `k`;
/// on the y side it differs only by `y0 - k/x0`, the rounding of `k` against
/// `y0`, which is 0 or one unit when the balances share a scale, are not
/// negative and `x0` holds at least one whole token.
pub proof fn lemma_swap_x_to_y_hmm_c_zero(calc: SwapCalculator, delta_x: Decimal)
    requires
        calc.swap_x_to_y_hmm_ok(delta_x),
        calc.swap_x_to_y_amm_ok(delta_x),
        calc.c.value == 0,
        calc.c.scale == calc.x0.scale,
        calc.x0.scale <= MAX_SCALE,
    ensures
        ({
            let h = calc.swap_x_to_y_hmm_of(delta_x);
            let a = calc.swap_x_to_y_amm_of(delta_x);
            let rounding = calc.y0.signed() - calc.k_of().quotient(calc.x0).signed();
            &&& h.k == a.k
            &&& h.fees == a.fees
            &&& h.x_new == a.x_new
            &&& h.delta_x == a.delta_x
            &&& h.delta_y.signed() == rounding - a.delta_y.signed()
            &&& h.y_new.signed() == a.y_new.signed() + rounding
            &&& (calc.x0.scale == calc.y0.scale && !calc.x0.negative && !calc.y0.negative
                && calc.x0.value >= calc.x0.denom()) ==> 0 <= rounding <= 1
        }),
{
    let (fees, ex) = calc.fees_of(delta_x);
    let k = calc.k_of();
    let x_pool = calc.x0.sum(ex);
    let y_amm = k.quotient(x_pool);
    let q0 = k.quotient(calc.x0);
    lemma_delta_y_hmm_c_zero(calc, ex);
    lemma_from_signed(y_amm.signed() - q0.signed(), k.scale);
    lemma_from_signed(calc.y0.signed() - y_amm.signed(), calc.y0.scale);
    let dy = calc.delta_y_hmm_of(ex);
    lemma_from_signed(calc.y0.signed() + dy.signed(), calc.y0.scale);
    if calc.x0.scale == calc.y0.scale && !calc.x0.negative && !calc.y0.negative
        && calc.x0.value >= calc.x0.denom() {
        let x = calc.x0.value as nat;
        let y = calc.y0.value as nat;
        let d = calc.x0.denom();
        crate::decimal::lemma_product_bounds(calc.x0, calc.y0);
        lemma_quotient_bounds(k, calc.x0);
        let kv = k.value as nat;
        let qv = q0.value as nat;
        assert(qv <= y) by (nonlinear_arith)
            requires
                qv * x <= kv * d,
                kv * d <= x * y,
                x >= d,
                d > 0,
        ;
        assert(y <= qv + 1) by (nonlinear_arith)
            requires
                kv * d < (qv + 1) * x,
                x * y < (kv + 1) * d,
                x >= d,
                d > 0,
        ;
    }
}

/// The two oracle balances bracket the real roots `√(k/i)` and `√(k·i)`.
/// With `K`, `I` the magnitudes of `k` and `i`, `D = 10^i.scale` and
/// `E = 10^k.scale`: `I·Xᵢ² <= K·D·E < I·(Xᵢ + 1)² + I·E` and
/// `D·Yᵢ² <= K·I·E < D·(Yᵢ + 1)² + D·E`. So `Yᵢ·D` and `i·Xᵢ·D` both
/// approximate `√(K·I·D·E)`, and `Xᵢ·Yᵢ` never exceeds `k`: `Xᵢ·Yᵢ <= K·E`.
pub proof fn lemma_oracle_balances_bracket(calc: SwapCalculator)
    requires
        calc.xi_ok(),
        calc.yi_ok(),
    ensures
        ({
            let kk = calc.k_of().value as nat;
            let ii = calc.i.value as nat;
            let d = calc.i.denom();
            let e = calc.k_of().denom();
            let xi = calc.xi_of().value as nat;
            let yi = calc.yi_of().value as nat;
            &&& ii * (xi * xi) <= kk * d * e
            &&& kk * d * e < ii * ((xi + 1) * (xi + 1)) + ii * e
            &&& d * (yi * yi) <= kk * ii * e
            &&& kk * ii * e < d * ((yi + 1) * (yi + 1)) + d * e
            &&& xi * yi <= kk * e
        }),
{
    let k = calc.k_of();
    let kk = k.value as nat;
    let ii = calc.i.value as nat;
    let d = calc.i.denom();
    let e = k.denom();
    let kdi = k.quotient(calc.i);
    let kmi = k.product(calc.i);
    lemma_root_bounds(kdi);
    lemma_root_bounds(kmi);
    lemma_quotient_bounds(k, calc.i);
    crate::decimal::lemma_product_bounds(k, calc.i);
    lemma_pow10_positive(calc.i.scale as nat);
    lemma_pow10_positive(k.scale as nat);
    let xi = calc.xi_of().value as nat;
    let yi = calc.yi_of().value as nat;
    let q = kdi.value as nat;
    let p = kmi.value as nat;
    assert(kdi.denom() == e);
    assert(kmi.denom() == e);
    assert(ii * (xi * xi) <= kk * d * e) by (nonlinear_arith)
        requires
            xi * xi <= q * e,
            q * ii <= kk * d,
    ;
    assert(kk * d * e < ii * ((xi + 1) * (xi + 1)) + ii * e) by (nonlinear_arith)
        requires
            q * e < (xi + 1) * (xi + 1),
            kk * d < (q + 1) * ii,
            e > 0,
    ;
    assert(d * (yi * yi) <= kk * ii * e) by (nonlinear_arith)
        requires
            yi * yi <= p * e,
            p * d <= kk * ii,
    ;
    assert(kk * ii * e < d * ((yi + 1) * (yi + 1)) + d * e) by (nonlinear_arith)
        requires
            p * e < (yi + 1) * (yi + 1),
            kk * ii < (p + 1) * d,
            e > 0,
    ;
    assert((xi * yi) * (xi * yi) <= (kk * e) * (kk * e)) by (nonlinear_arith)
        requires
            ii * (xi * xi) <= kk * d * e,
            d * (yi * yi) <= kk * ii * e,
            ii > 0,
            d > 0,
    ;
    assert(xi * yi <= kk * e) by (nonlinear_arith)
        requires
            (xi * yi) * (xi * yi) <= (kk * e) * (kk * e),
    ;
}

/// The rounding that splitting an integral in two can cost: one unit when
/// `c > 1`, and `2 + 1/|c - 1|` units when `c < 1` (two truncated
/// divisions, the second by `c - 1`).
pub open spec fn integral_split_tolerance(calc: SwapCalculator, c: Decimal) -> int {
    let e = c.difference(one_at(calc.x0.scale));
    if e.negative {
        2 + (e.denom() / (e.value as nat)) as int
    } else {
        1
    }
}

/// For `c != 1`, integrals over adjacent intervals add up, within the
/// rounding of the last divisions: with non-negative `k`, `qi` and points
/// `q0 <= q1 <= q2` at one scale,
/// `I(q0, q1) + I(q1, q2) - tolerance <= I(q0, q2) <= I(q0, q1) + I(q1, q2)`.
pub proof fn lemma_integral_additive(
    calc: SwapCalculator,
    k: Decimal,
    q0: Decimal,
    q1: Decimal,
    q2: Decimal,
    qi: Decimal,
    c: Decimal,
)
    requires
        calc.integral_ok(k, q0, q1, qi, c),
        calc.integral_ok(k, q1, q2, qi, c),
        calc.integral_ok(k, q0, q2, qi, c),
        c != one_at(calc.x0.scale),
        q0.scale == q1.scale,
        q1.scale == q2.scale,
        !k.negative,
        !q0.negative,
        !q1.negative,
        !q2.negative,
        !qi.negative,
        q0.value <= q1.value,
        q1.value <= q2.value,
    ensures
        ({
            let r01 = calc.integral_of(k, q0, q1, qi, c);
            let r12 = calc.integral_of(k, q1, q2, qi, c);
            let r02 = calc.integral_of(k, q0, q2, qi, c);
            &&& r01.signed() + r12.signed() - integral_split_tolerance(calc, c) <= r02.signed()
            &&& r02.signed() <= r01.signed() + r12.signed()
        }),
{
    let one = one_at(calc.x0.scale);
    let e = c.difference(one);
    lemma_power_monotone(q0, q1, e);
    lemma_power_monotone(q1, q2, e);
    lemma_power_monotone(qi, qi, c);
    let p0 = q0.power(e);
    let p1 = q1.power(e);
    let p2 = q2.power(e);
    lemma_pow10_positive(q0.scale as nat);
    if e.negative {
        let a0 = k.quotient(p0);
        let a1 = k.quotient(p1);
        let a2 = k.quotient(p2);
        let kd = (k.value as nat * p0.denom()) as int;
        vstd::arithmetic::div_mod::lemma_div_is_ordered_by_denominator(kd, p0.value as int, p1.value as int);
        vstd::arithmetic::div_mod::lemma_div_is_ordered_by_denominator(kd, p1.value as int, p2.value as int);
        lemma_from_signed(a0.signed() - a1.signed(), k.scale);
        lemma_from_signed(a1.signed() - a2.signed(), k.scale);
        lemma_from_signed(a0.signed() - a2.signed(), k.scale);
        let d01 = a0.difference(a1);
        let d12 = a1.difference(a2);
        let d02 = a0.difference(a2);
        assert(d02.value as nat == d01.value as nat + d12.value as nat);
        let qpc = qi.power(c);
        let pd = qpc.denom();
        let qv = qpc.value as nat;
        crate::arith::lemma_floor_scale_add(d01.value as nat, d12.value as nat, pd, qv);
        let u01 = d01.quotient(qpc);
        let u12 = d12.quotient(qpc);
        let u02 = d02.quotient(qpc);
        let cd = e.denom();
        let cv = e.value as nat;
        let x = u01.value as nat;
        let y = u12.value as nat;
        let z = u02.value as nat;
        assert(x + y <= z && z <= x + y + 1);
        crate::arith::lemma_floor_scale_add(x, y, cd, cv);
        crate::arith::lemma_floor_scale_step(x + y, cd, cv);
        assert((x + y) * cd <= z * cd) by (nonlinear_arith)
            requires
                x + y <= z,
        ;
        assert(z * cd <= (x + y + 1) * cd) by (nonlinear_arith)
            requires
                z <= x + y + 1,
        ;
        vstd::arithmetic::div_mod::lemma_div_is_ordered(((x + y) * cd) as int, (z * cd) as int, cv as int);
        vstd::arithmetic::div_mod::lemma_div_is_ordered((z * cd) as int, ((x + y + 1) * cd) as int, cv as int);
        let r01 = u01.quotient(e);
        let r12 = u12.quotient(e);
        let r02 = u02.quotient(e);
        assert(r01.signed() == -(r01.value as int));
        assert(r12.signed() == -(r12.value as int));
        assert(r02.signed() == -(r02.value as int));
        assert(calc.integral_of(k, q0, q1, qi, c) == r01);
        assert(calc.integral_of(k, q1, q2, qi, c) == r12);
        assert(calc.integral_of(k, q0, q2, qi, c) == r02);
    } else {
        let lhs = k.quotient(qi.power(c).product(e));
        let l = lhs.value as nat;
        lemma_from_signed(p0.signed() - p1.signed(), p0.scale);
        lemma_from_signed(p1.signed() - p2.signed(), p1.scale);
        lemma_from_signed(p0.signed() - p2.signed(), p0.scale);
        let m01 = p0.difference(p1);
        let m12 = p1.difference(p2);
        let m02 = p0.difference(p2);
        let x = m01.value as nat;
        let y = m12.value as nat;
        assert(m02.value as nat == x + y);
        let dr = m01.denom();
        crate::arith::lemma_floor_scale_add(x, y, l, dr);
        assert(l * x == x * l && l * y == y * l && l * (x + y) == (x + y) * l) by (nonlinear_arith);
        let r01 = lhs.product(m01);
        let r12 = lhs.product(m12);
        let r02 = lhs.product(m02);
        assert(r01.signed() == -(r01.value as int));
        assert(r12.signed() == -(r12.value as int));
        assert(r02.signed() == -(r02.value as int));
        assert(calc.integral_of(k, q0, q1, qi, c) == r01);
        assert(calc.integral_of(k, q1, q2, qi, c) == r12);
        assert(calc.integral_of(k, q0, q2, qi, c) == r02);
    }
}

} // verus!
