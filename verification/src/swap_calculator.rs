//! Swap calculator: the constant-product curve (AMM) and the oracle-guided
//! curve (HMM) of a two-token pool.
//!
//! Every step is a fixed-point operation of `Decimal`. Each computation has a
//! predicate (`*_ok`) that says that no step of it fails, and a spec function
//! (`*_of`) that says what it returns.
use vstd::prelude::*;
use crate::decimal::{AMOUNT_SCALE, Decimal, MAX_SCALE, lemma_rescale_same, one_at};
use crate::swap_laws::lemma_fees_partition;
use crate::swap_result::SwapResult;
use crate::arith::pow10;

verus! {

/// The liquidity that is never withdrawn, in whole tokens.
pub const MIN_LIQUIDITY: u64 = 100;

/// Swap calculator input parameters.
#[derive(Clone, Copy, Debug)]
pub struct SwapCalculator {
    /// Number of tokens x currently in the liquidity pool.
    pub x0: Decimal,
    /// Number of tokens y currently in the liquidity pool.
    pub y0: Decimal,
    /// Compensation parameter c.
    pub c: Decimal,
    /// Oracle price relative to x.
    pub i: Decimal,
    /// Fee rate numerator.
    pub fee_numer: Decimal,
    /// Fee rate denominator.
    pub fee_denom: Decimal,
}

/// Zero at the scale of token amounts.
pub open spec fn amount_zero() -> Decimal {
    Decimal { value: 0, scale: AMOUNT_SCALE, negative: false }
}

/// `MIN_LIQUIDITY` at the scale of token amounts.
pub open spec fn min_liquidity() -> Decimal {
    Decimal { value: 100_000_000, scale: AMOUNT_SCALE, negative: false }
}

/// The token amount `amount` (whole tokens) at the scale of token amounts.
pub open spec fn whole_amount(amount: u64) -> Decimal {
    Decimal { value: (amount * 1_000_000) as u128, scale: AMOUNT_SCALE, negative: false }
}

impl SwapCalculator {
    /// The same pool with the roles of the two tokens exchanged.
    pub open spec fn mirrored(self) -> SwapCalculator {
        SwapCalculator {
            x0: self.y0,
            y0: self.x0,
            c: self.c,
            i: self.i,
            fee_numer: self.fee_numer,
            fee_denom: self.fee_denom,
        }
    }

    // ------------------------------------------------------------------
    // Fees
    // ------------------------------------------------------------------
    /// The fee rate is zero: its numerator or its denominator is zero.
    pub open spec fn fee_free(self) -> bool {
        self.fee_numer.value == 0 || self.fee_denom.value == 0
    }

    /// `compute_fees` does not fail on `input`.
    pub open spec fn fees_ok(self, input: Decimal) -> bool {
        let amt = input.rescaled(AMOUNT_SCALE);
        let numer = self.fee_numer.rescaled(AMOUNT_SCALE);
        let denom = self.fee_denom.rescaled(AMOUNT_SCALE);
        let fees = amt.product(numer).quotient(denom);
        &&& self.fee_numer.scale == AMOUNT_SCALE
        &&& self.fee_numer.value != 0 ==> self.fee_denom.scale == AMOUNT_SCALE
        &&& input.rescale_ok(AMOUNT_SCALE)
        &&& !self.fee_free() ==> {
            &&& amt.mul_ok(numer)
            &&& amt.product(numer).div_ok(denom)
            &&& amt.sub_ok(fees)
        }
    }

    /// `(fees, amount_ex_fees)` for `input`: the fees are the input amount
    /// times the fee rate, truncated; zero when the rate is zero.
    pub open spec fn fees_of(self, input: Decimal) -> (Decimal, Decimal) {
        let amt = input.rescaled(AMOUNT_SCALE);
        if self.fee_free() {
            (amount_zero(), amt)
        } else {
            let numer = self.fee_numer.rescaled(AMOUNT_SCALE);
            let denom = self.fee_denom.rescaled(AMOUNT_SCALE);
            let fees = amt.product(numer).quotient(denom);
            (fees, amt.difference(fees))
        }
    }

    // ------------------------------------------------------------------
    // Invariant, balances, oracle balances
    // ------------------------------------------------------------------
    /// `compute_k` does not fail.
    pub open spec fn k_ok(self) -> bool {
        self.x0.mul_ok(self.y0)
    }

    /// `k = x0 * y0`.
    pub open spec fn k_of(self) -> Decimal {
        self.x0.product(self.y0)
    }

    /// `Xᵢ = √(K / i)`: does not fail.
    pub open spec fn xi_ok(self) -> bool {
        &&& self.k_ok()
        &&& self.k_of().div_ok(self.i)
        &&& self.k_of().quotient(self.i).sqrt_ok()
    }

    /// `Xᵢ = √(K / i)`: the balance of x at which the constant-product price
    /// equals the oracle price.
    pub open spec fn xi_of(self) -> Decimal {
        self.k_of().quotient(self.i).root()
    }

    /// `Yᵢ = √(K * i)`: does not fail.
    pub open spec fn yi_ok(self) -> bool {
        &&& self.k_ok()
        &&& self.k_of().mul_ok(self.i)
        &&& self.k_of().product(self.i).sqrt_ok()
    }

    /// `Yᵢ = √(K * i)`: the balance of y at which the constant-product price
    /// equals the oracle price.
    pub open spec fn yi_of(self) -> Decimal {
        self.k_of().product(self.i).root()
    }

    /// `sqrt(x_new * y_new) - MIN_LIQUIDITY`: does not fail.
    pub open spec fn squared_k_ok(self, x_new: Decimal, y_new: Decimal) -> bool {
        &&& x_new.mul_ok(y_new)
        &&& x_new.product(y_new).sqrt_ok()
        &&& x_new.product(y_new).root().sub_ok(min_liquidity())
    }

    /// `sqrt(x_new * y_new) - MIN_LIQUIDITY`.
    pub open spec fn squared_k_of(self, x_new: Decimal, y_new: Decimal) -> Decimal {
        x_new.product(y_new).root().difference(min_liquidity())
    }

    // ------------------------------------------------------------------
    // Constant-product deltas
    // ------------------------------------------------------------------
    /// `Δy = K/(X₀ + Δx) - K/X₀`: does not fail.
    pub open spec fn delta_y_amm_ok(self, delta_x: Decimal) -> bool {
        let k = self.k_of();
        let x_new = self.x0.sum(delta_x);
        &&& self.k_ok()
        &&& self.x0.add_ok(delta_x)
        &&& k.div_ok(x_new)
        &&& k.div_ok(self.x0)
        &&& k.quotient(x_new).sub_ok(k.quotient(self.x0))
    }

    /// `Δy = K/(X₀ + Δx) - K/X₀`.
    pub open spec fn delta_y_amm_of(self, delta_x: Decimal) -> Decimal {
        let k = self.k_of();
        k.quotient(self.x0.sum(delta_x)).difference(k.quotient(self.x0))
    }

    /// `Δx = K/(Y₀ + Δy) - K/Y₀`: does not fail.
    pub open spec fn delta_x_amm_ok(self, delta_y: Decimal) -> bool {
        let k = self.k_of();
        let y_new = self.y0.sum(delta_y);
        &&& self.k_ok()
        &&& self.y0.add_ok(delta_y)
        &&& k.div_ok(y_new)
        &&& k.div_ok(self.y0)
        &&& k.quotient(y_new).sub_ok(k.quotient(self.y0))
    }

    /// `Δx = K/(Y₀ + Δy) - K/Y₀`.
    pub open spec fn delta_x_amm_of(self, delta_y: Decimal) -> Decimal {
        let k = self.k_of();
        k.quotient(self.y0.sum(delta_y)).difference(k.quotient(self.y0))
    }

    // ------------------------------------------------------------------
    // The integral of the oracle-guided curve
    // ------------------------------------------------------------------
    /// `compute_integral` does not fail.
    pub open spec fn integral_ok(
        self,
        k: Decimal,
        q0: Decimal,
        q_new: Decimal,
        qi: Decimal,
        c: Decimal,
    ) -> bool {
        let one = one_at(self.x0.scale);
        &&& self.x0.scale <= MAX_SCALE
        &&& if c == one {
            let k_div_qi = k.rescaled(8).quotient(qi.rescaled(AMOUNT_SCALE));
            let q0_div_q_new = q0.rescaled(8).quotient(q_new.rescaled(AMOUNT_SCALE));
            let log = q0_div_q_new.log();
            &&& k.rescale_ok(8)
            &&& qi.rescale_ok(AMOUNT_SCALE)
            &&& k.rescaled(8).div_ok(qi.rescaled(AMOUNT_SCALE))
            &&& q0.rescale_ok(8)
            &&& q_new.rescale_ok(AMOUNT_SCALE)
            &&& q0.rescaled(8).div_ok(q_new.rescaled(AMOUNT_SCALE))
            &&& q0_div_q_new.ln_ok()
            &&& k_div_qi.mul_ok(log)
            &&& k_div_qi.product(log).rescale_ok(self.x0.scale)
        } else {
            let c_sub_one = c.difference(one);
            let qi_pow_c = qi.power(c);
            &&& c.sub_ok(one)
            &&& qi.pow_ok(c)
            &&& q0.pow_ok(c_sub_one)
            &&& q_new.pow_ok(c_sub_one)
            &&& if c_sub_one.negative {
                let a = k.quotient(q0.power(c_sub_one));
                let b = k.quotient(q_new.power(c_sub_one));
                &&& k.div_ok(q0.power(c_sub_one))
                &&& k.div_ok(q_new.power(c_sub_one))
                &&& a.sub_ok(b)
                &&& a.difference(b).div_ok(qi_pow_c)
                &&& a.difference(b).quotient(qi_pow_c).div_ok(c_sub_one)
            } else {
                let lhs_den = qi_pow_c.product(c_sub_one);
                let lhs = k.quotient(lhs_den);
                let rhs = q0.power(c_sub_one).difference(q_new.power(c_sub_one));
                &&& qi_pow_c.mul_ok(c_sub_one)
                &&& k.div_ok(lhs_den)
                &&& q0.power(c_sub_one).sub_ok(q_new.power(c_sub_one))
                &&& lhs.mul_ok(rhs)
            }
        }
    }

    /// The integral of the price curve from `q0` to `q_new`:
    /// `k/qi * ln(q0/q_new)` when `c` is one, and otherwise
    /// `(k/q0^(1-c) - k/q_new^(1-c)) / qi^c / (c-1)` for `c < 1` and
    /// `k/(qi^c (c-1)) * (q0^(c-1) - q_new^(c-1))` for `c > 1`.
    pub open spec fn integral_of(
        self,
        k: Decimal,
        q0: Decimal,
        q_new: Decimal,
        qi: Decimal,
        c: Decimal,
    ) -> Decimal {
        let one = one_at(self.x0.scale);
        if c == one {
            let k_div_qi = k.rescaled(8).quotient(qi.rescaled(AMOUNT_SCALE));
            let q0_div_q_new = q0.rescaled(8).quotient(q_new.rescaled(AMOUNT_SCALE));
            k_div_qi.product(q0_div_q_new.log()).rescaled(self.x0.scale)
        } else {
            let c_sub_one = c.difference(one);
            let qi_pow_c = qi.power(c);
            if c_sub_one.negative {
                let a = k.quotient(q0.power(c_sub_one));
                let b = k.quotient(q_new.power(c_sub_one));
                a.difference(b).quotient(qi_pow_c).quotient(c_sub_one)
            } else {
                let lhs = k.quotient(qi_pow_c.product(c_sub_one));
                lhs.product(q0.power(c_sub_one).difference(q_new.power(c_sub_one)))
            }
        }
    }

    // ------------------------------------------------------------------
    // Oracle-guided deltas
    // ------------------------------------------------------------------
    /// `compute_delta_y_hmm` does not fail.
    pub open spec fn delta_y_hmm_ok(self, delta_x: Decimal) -> bool {
        let x_new = self.x0.sum(delta_x);
        let xi = self.xi_of();
        let k = self.k_of();
        &&& self.x0.add_ok(delta_x)
        &&& self.xi_ok()
        &&& if x_new.value > self.x0.value && self.x0.value >= xi.value {
            self.delta_y_amm_ok(delta_x)
        } else if x_new.value > self.x0.value && x_new.value <= xi.value {
            self.integral_ok(k, self.x0, x_new, xi, self.c)
        } else {
            let integral = self.integral_of(k, self.x0, xi, xi, self.c);
            let rhs = k.quotient(x_new).difference(k.quotient(xi));
            &&& self.integral_ok(k, self.x0, xi, xi, self.c)
            &&& k.div_ok(x_new)
            &&& k.div_ok(xi)
            &&& k.quotient(x_new).sub_ok(k.quotient(xi))
            &&& integral.add_ok(rhs)
        }
    }

    /// `Δy` on the oracle-guided curve: the constant-product delta when the
    /// oracle price is better from the start (`X₀ >= Xᵢ`), the integral when
    /// the constant-product price stays better (`X_new <= Xᵢ`), and otherwise
    /// the integral up to `Xᵢ` plus the constant-product delta from `Xᵢ`.
    pub open spec fn delta_y_hmm_of(self, delta_x: Decimal) -> Decimal {
        let x_new = self.x0.sum(delta_x);
        let xi = self.xi_of();
        let k = self.k_of();
        if x_new.value > self.x0.value && self.x0.value >= xi.value {
            self.delta_y_amm_of(delta_x)
        } else if x_new.value > self.x0.value && x_new.value <= xi.value {
            self.integral_of(k, self.x0, x_new, xi, self.c)
        } else {
            self.integral_of(k, self.x0, xi, xi, self.c).sum(
                k.quotient(x_new).difference(k.quotient(xi)),
            )
        }
    }

    /// `compute_delta_x_hmm` does not fail.
    pub open spec fn delta_x_hmm_ok(self, delta_y: Decimal) -> bool {
        let y_new = self.y0.sum(delta_y);
        let yi = self.yi_of();
        let k = self.k_of();
        &&& self.y0.add_ok(delta_y)
        &&& self.yi_ok()
        &&& y_new.value > self.y0.value ==> self.y0.scale == yi.scale
        &&& if y_new.value > self.y0.value && self.y0.value >= yi.value {
            self.delta_x_amm_ok(delta_y)
        } else if y_new.value > self.y0.value && y_new.value <= yi.value {
            self.integral_ok(k, self.y0, y_new, yi, self.c)
        } else {
            let integral = self.integral_of(k, self.y0, yi, yi, self.c);
            let rhs = k.quotient(y_new).difference(k.quotient(yi));
            &&& self.integral_ok(k, self.y0, yi, yi, self.c)
            &&& k.div_ok(y_new)
            &&& k.div_ok(yi)
            &&& k.quotient(y_new).sub_ok(k.quotient(yi))
            &&& integral.add_ok(rhs)
        }
    }

    /// `Δx` on the oracle-guided curve, the mirror image of `delta_y_hmm_of`.
    pub open spec fn delta_x_hmm_of(self, delta_y: Decimal) -> Decimal {
        let y_new = self.y0.sum(delta_y);
        let yi = self.yi_of();
        let k = self.k_of();
        if y_new.value > self.y0.value && self.y0.value >= yi.value {
            self.delta_x_amm_of(delta_y)
        } else if y_new.value > self.y0.value && y_new.value <= yi.value {
            self.integral_of(k, self.y0, y_new, yi, self.c)
        } else {
            self.integral_of(k, self.y0, yi, yi, self.c).sum(
                k.quotient(y_new).difference(k.quotient(yi)),
            )
        }
    }

    // ------------------------------------------------------------------
    // Swaps
    // ------------------------------------------------------------------
    /// `swap_y_to_x_amm` does not fail.
    pub open spec fn swap_y_to_x_amm_ok(self, delta_y: Decimal) -> bool {
        let (fees, ex) = self.fees_of(delta_y);
        let k = self.k_of();
        let y_new = self.y0.sum(ex);
        let x_new = k.quotient(y_new);
        &&& self.fees_ok(delta_y)
        &&& self.k_ok()
        &&& self.y0.add_ok(ex)
        &&& k.div_ok(y_new)
        &&& y_new.sub_ok(self.y0)
        &&& self.x0.sub_ok(x_new)
        &&& y_new.add_ok(fees)
        &&& self.squared_k_ok(x_new, y_new.sum(fees))
    }

    /// Swap y for x on the constant-product curve.
    pub open spec fn swap_y_to_x_amm_of(self, delta_y: Decimal) -> SwapResult {
        let (fees, ex) = self.fees_of(delta_y);
        let k = self.k_of();
        let y_new = self.y0.sum(ex);
        let x_new = k.quotient(y_new);
        SwapResult {
            k,
            x_new,
            y_new: y_new.sum(fees),
            delta_x: self.x0.difference(x_new),
            delta_y: y_new.difference(self.y0),
            fees,
            squared_k: self.squared_k_of(x_new, y_new.sum(fees)),
        }
    }

    /// `swap_x_to_y_amm` does not fail.
    pub open spec fn swap_x_to_y_amm_ok(self, delta_x: Decimal) -> bool {
        let (fees, ex) = self.fees_of(delta_x);
        let k = self.k_of();
        let x_new = self.x0.sum(ex);
        let y_new = k.quotient(x_new);
        &&& self.fees_ok(delta_x)
        &&& self.k_ok()
        &&& self.x0.add_ok(ex)
        &&& k.div_ok(x_new)
        &&& x_new.sub_ok(self.x0)
        &&& self.y0.sub_ok(y_new)
        &&& x_new.add_ok(fees)
        &&& self.squared_k_ok(x_new.sum(fees), y_new)
    }

    /// Swap x for y on the constant-product curve.
    pub open spec fn swap_x_to_y_amm_of(self, delta_x: Decimal) -> SwapResult {
        let (fees, ex) = self.fees_of(delta_x);
        let k = self.k_of();
        let x_new = self.x0.sum(ex);
        let y_new = k.quotient(x_new);
        SwapResult {
            k,
            x_new: x_new.sum(fees),
            y_new,
            delta_x: x_new.difference(self.x0),
            delta_y: self.y0.difference(y_new),
            fees,
            squared_k: self.squared_k_of(x_new.sum(fees), y_new),
        }
    }

    /// `swap_x_to_y_hmm` does not fail.
    pub open spec fn swap_x_to_y_hmm_ok(self, delta_x: Decimal) -> bool {
        let (fees, ex) = self.fees_of(delta_x);
        let x_new = self.x0.sum(ex);
        let delta_y = self.delta_y_hmm_of(ex);
        let y_new = self.y0.sum(delta_y);
        &&& self.fees_ok(delta_x)
        &&& self.k_ok()
        &&& self.x0.add_ok(ex)
        &&& x_new.sub_ok(self.x0)
        &&& self.delta_y_hmm_ok(ex)
        &&& self.y0.add_ok(delta_y)
        &&& x_new.add_ok(fees)
        &&& self.squared_k_ok(x_new.sum(fees), y_new)
    }

    /// Swap x for y on the oracle-guided curve.
    pub open spec fn swap_x_to_y_hmm_of(self, delta_x: Decimal) -> SwapResult {
        let (fees, ex) = self.fees_of(delta_x);
        let x_new = self.x0.sum(ex);
        let delta_y = self.delta_y_hmm_of(ex);
        let y_new = self.y0.sum(delta_y);
        SwapResult {
            k: self.k_of(),
            x_new: x_new.sum(fees),
            y_new,
            delta_x: x_new.difference(self.x0),
            delta_y,
            fees,
            squared_k: self.squared_k_of(x_new.sum(fees), y_new),
        }
    }
}


impl SwapCalculator {
    /// Create a new token swap calculator; every parameter is a whole number
    /// of tokens, held at the scale of token amounts.
    pub fn new(x0: u64, y0: u64, c: u64, i: u64, fee_numer: u64, fee_denom: u64) -> (r: Self)
        ensures
            r.x0 == whole_amount(x0),
            r.y0 == whole_amount(y0),
            r.c == whole_amount(c),
            r.i == whole_amount(i),
            r.fee_numer == whole_amount(fee_numer),
            r.fee_denom == whole_amount(fee_denom),
    {
        proof {
            crate::arith::lemma_pow10_u128_range();
            assert forall|v: u64| #[trigger] (v * 1_000_000) <= u128::MAX by {
                assert(v * 1_000_000 <= u128::MAX) by (nonlinear_arith)
                    requires
                        v <= u64::MAX,
                ;
            }
        }
        Self {
            x0: Decimal::from_u64(x0).to_amount(),
            y0: Decimal::from_u64(y0).to_amount(),
            c: Decimal::from_u64(c).to_amount(),
            i: Decimal::from_u64(i).to_amount(),
            fee_numer: Decimal::from_u64(fee_numer).to_amount(),
            fee_denom: Decimal::from_u64(fee_denom).to_amount(),
        }
    }

    /// A swap calculator with the given parameters, at whatever scales they
    /// have.
    pub fn from_decimals(
        x0: Decimal,
        y0: Decimal,
        c: Decimal,
        i: Decimal,
        fee_numer: Decimal,
        fee_denom: Decimal,
    ) -> (r: Self)
        ensures
            r == (SwapCalculator { x0, y0, c, i, fee_numer, fee_denom }),
    {
        SwapCalculator { x0, y0, c, i, fee_numer, fee_denom }
    }

    /// Swap y for x on the constant-product curve: fees are deducted first,
    /// then `x_new = k / (y0 + Δy)`.
    pub fn swap_y_to_x_amm(&self, delta_y: &Decimal) -> (r: SwapResult)
        requires
            self.swap_y_to_x_amm_ok(*delta_y),
        ensures
            r == self.swap_y_to_x_amm_of(*delta_y),
    {
        // fees deducted first
        let (fees, amount_ex_fees) = self.compute_fees(delta_y);
        // k = x0 * y0
        let k = self.compute_k();
        // y_new = y0 + deltaY
        let y_new = self.compute_y_new(&amount_ex_fees);
        // x_new = k/y_new
        let x_new = k.div(y_new);
        // delta_y = y_new - y0
        let delta_y = y_new.sub(self.y0).unwrap();
        // delta_x = x0 - x_new
        let delta_x = self.x0.sub(x_new).unwrap();
        let squared_k = self.compute_squared_k(x_new, y_new.add(fees).unwrap());
        SwapResult { k, x_new, y_new: y_new.add(fees).unwrap(), delta_x, delta_y, fees, squared_k }
    }

    /// Swap x for y on the constant-product curve: fees are deducted first,
    /// then `y_new = k / (x0 + Δx)`.
    pub fn swap_x_to_y_amm(&self, delta_x: &Decimal) -> (r: SwapResult)
        requires
            self.swap_x_to_y_amm_ok(*delta_x),
        ensures
            r == self.swap_x_to_y_amm_of(*delta_x),
    {
        // fees deducted first
        let (fees, amount_ex_fees) = self.compute_fees(delta_x);
        // k = x0 * y0
        let k = self.compute_k();
        // x_new = x0 + deltaX
        let x_new = self.compute_x_new(&amount_ex_fees);
        // y_new = k/x_new
        let y_new = k.div(x_new);
        // delta_x = x_new - x0
        let delta_x = x_new.sub(self.x0).unwrap();
        // delta_y = y0 - y_new
        let delta_y = self.y0.sub(y_new).unwrap();
        let squared_k = self.compute_squared_k(x_new.add(fees).unwrap(), y_new);
        SwapResult { k, x_new: x_new.add(fees).unwrap(), y_new, delta_x, delta_y, fees, squared_k }
    }

    /// Swap x for y on the oracle-guided curve: fees are deducted first, then
    /// `Δy` comes from `compute_delta_y_hmm`.
    pub fn swap_x_to_y_hmm(&self, delta_x: &Decimal) -> (r: SwapResult)
        requires
            self.swap_x_to_y_hmm_ok(*delta_x),
        ensures
            r == self.swap_x_to_y_hmm_of(*delta_x),
    {
        // fees deducted first
        let (fees, amount_ex_fees) = self.compute_fees(delta_x);
        let k = self.compute_k();
        let x_new = self.compute_x_new(&amount_ex_fees);
        let delta_x = x_new.sub(self.x0).unwrap();
        let delta_y = self.compute_delta_y_hmm(&amount_ex_fees);
        let y_new = self.y0.add(delta_y).unwrap();
        let squared_k = self.compute_squared_k(x_new.add(fees).unwrap(), y_new);
        SwapResult { k, x_new: x_new.add(fees).unwrap(), y_new, delta_x, delta_y, fees, squared_k }
    }

    /// Fees and the amount net of fees for `input_amount`, at the scale of
    /// token amounts; the fee is zero when the rate's numerator or
    /// denominator is zero.
    pub fn compute_fees(&self, input_amount: &Decimal) -> (r: (Decimal, Decimal))
        requires
            self.fees_ok(*input_amount),
        ensures
            r == self.fees_of(*input_amount),
            r.0.signed() + r.1.signed() == input_amount.rescaled(AMOUNT_SCALE).signed(),
            self.fee_free() ==> r.0.value == 0,
    {
        proof {
            lemma_fees_partition(*self, *input_amount);
            crate::arith::lemma_pow10_u128_range();
            lemma_rescale_same(self.fee_numer);
            lemma_rescale_same(self.fee_denom);
        }
        // default to zero if fee_rate numerator or denominator are 0
        let zero = Decimal::from_u64(0).to_amount();
        assert(0 * pow10(6) == 0);
        if self.fee_numer.eq(zero).unwrap() || self.fee_denom.eq(zero).unwrap() {
            return (zero, input_amount.to_amount());
        }
        let fees = input_amount.to_amount().mul(self.fee_numer.to_amount()).div(
            self.fee_denom.to_amount(),
        );
        let amount_ex_fees = input_amount.to_amount().sub(fees).unwrap();
        (fees, amount_ex_fees)
    }

    /// Compute delta y using a constant product curve given delta x:
    /// `Δy = K/(X₀ + Δx) - K/X₀`.
    pub fn compute_delta_y_amm(&self, delta_x: &Decimal) -> (r: Decimal)
        requires
            self.delta_y_amm_ok(*delta_x),
        ensures
            r == self.delta_y_amm_of(*delta_x),
    {
        let k = self.compute_k();
        let x_new = self.compute_x_new(delta_x);
        k.div(x_new).sub(k.div(self.x0)).unwrap()
    }

    /// Compute delta x using a constant product curve given delta y:
    /// `Δx = K/(Y₀ + Δy) - K/Y₀`.
    pub fn compute_delta_x_amm(&self, delta_y: &Decimal) -> (r: Decimal)
        requires
            self.delta_x_amm_ok(*delta_y),
        ensures
            r == self.delta_x_amm_of(*delta_y),
    {
        let k = self.compute_k();
        let y_new = self.compute_y_new(delta_y);
        k.div(y_new).sub(k.div(self.y0)).unwrap()
    }

    /// Compute delta y using the oracle-guided curve given delta x.
    pub fn compute_delta_y_hmm(&self, delta_x: &Decimal) -> (r: Decimal)
        requires
            self.delta_y_hmm_ok(*delta_x),
        ensures
            r == self.delta_y_hmm_of(*delta_x),
    {
        let x_new = self.compute_x_new(delta_x);
        let xi = self.compute_xi();
        let k = self.compute_k();
        if x_new.gt(self.x0).unwrap() && self.x0.gte(xi).unwrap() {
            // Oracle price is better than the constant product price.
            self.compute_delta_y_amm(delta_x)
        } else if x_new.gt(self.x0).unwrap() && x_new.lte(xi).unwrap() {
            // Constant product price is better than the oracle price even
            // after the full trade.
            self.compute_integral(&k, &self.x0, &x_new, &xi, &self.c)
        } else {
            // Constant product price is better than the oracle price at the
            // start of the trade: integral up to Xᵢ, then (k/x_new - k/xi).
            let integral = self.compute_integral(&k, &self.x0, &xi, &xi, &self.c);
            let k_div_x_new = k.div(x_new);
            let k_div_xi = k.div(xi);
            let rhs = k_div_x_new.sub(k_div_xi).unwrap();
            integral.add(rhs).unwrap()
        }
    }

    /// Compute delta x using the oracle-guided curve given delta y.
    pub fn compute_delta_x_hmm(&self, delta_y: &Decimal) -> (r: Decimal)
        requires
            self.delta_x_hmm_ok(*delta_y),
        ensures
            r == self.delta_x_hmm_of(*delta_y),
    {
        let y_new = self.compute_y_new(delta_y);
        let yi = self.compute_yi();
        let k = self.compute_k();
        if y_new.gt(self.y0).unwrap() && self.y0.gte(yi).unwrap() {
            // Oracle price is better than the constant product price.
            self.compute_delta_x_amm(delta_y)
        } else if y_new.gt(self.y0).unwrap() && y_new.lte(yi).unwrap() {
            // Constant product price is better than the oracle price even
            // after the full trade.
            self.compute_integral(&k, &self.y0, &y_new, &yi, &self.c)
        } else {
            // Constant product price is better than the oracle price at the
            // start of the trade: integral up to Yᵢ, then (k/y_new - k/yi).
            let integral = self.compute_integral(&k, &self.y0, &yi, &yi, &self.c);
            let k_div_y_new = k.div(y_new);
            let k_div_yi = k.div(yi);
            let rhs = k_div_y_new.sub(k_div_yi).unwrap();
            integral.add(rhs).unwrap()
        }
    }

    /// Compute the integral of the price curve with coefficient `c`.
    pub fn compute_integral(
        &self,
        k: &Decimal,
        q0: &Decimal,
        q_new: &Decimal,
        qi: &Decimal,
        c: &Decimal,
    ) -> (r: Decimal)
        requires
            self.integral_ok(*k, *q0, *q_new, *qi, *c),
        ensures
            r == self.integral_of(*k, *q0, *q_new, *qi, *c),
    {
        proof {
            crate::arith::lemma_pow10_positive(self.x0.scale as nat);
            crate::arith::lemma_pow10_monotonic(self.x0.scale as nat, 38);
            crate::arith::lemma_pow10_u128_range();
        }
        assert(1 * pow10(self.x0.scale as nat) == pow10(self.x0.scale as nat));
        let one = Decimal::from_u64(1).to_scale(self.x0.scale);
        assert(one == one_at(self.x0.scale));
        if c.same_as(&one) {
            // k/qi * (q0/q_new).ln()
            let k_div_qi = k.to_scale(8).div(qi.to_amount());
            let q0_div_q_new = q0.to_scale(8).div(q_new.to_amount());
            let log_q0_div_q_new = q0_div_q_new.ln().unwrap();
            k_div_qi.mul(log_q0_div_q_new).to_scale(self.x0.scale)
        } else {
            // (k/q0^(1-c) - k/q_new^(1-c)) / (qi^c) / (c-1) for c < 1,
            // k/((qi^c)*(c-1)) * (q0^(c-1) - q_new^(c-1)) otherwise.
            let c_sub_one = c.sub(one).unwrap();
            let qi_pow_c = qi.pow(*c);
            if c_sub_one.negative {
                let a = k.div(q0.pow(c_sub_one));
                let b = k.div(q_new.pow(c_sub_one));
                let a_sub_b = a.sub(b).unwrap();
                a_sub_b.div(qi_pow_c).div(c_sub_one)
            } else {
                let lhs_den = qi_pow_c.mul(c_sub_one);
                let lhs = k.div(lhs_den);
                let q0_pow_c_sub_one = q0.pow(c_sub_one);
                let q_new_pow_c_sub_one = q_new.pow(c_sub_one);
                let rhs = q0_pow_c_sub_one.sub(q_new_pow_c_sub_one).unwrap();
                lhs.mul(rhs)
            }
        }
    }

    /// Compute the constant product curve invariant `k = x0 * y0`.
    pub fn compute_k(&self) -> (r: Decimal)
        requires
            self.k_ok(),
        ensures
            r == self.k_of(),
    {
        self.x0.mul(self.y0)
    }

    /// The balance of x at which the constant-product price is the oracle
    /// price: `i = K/Xᵢ²`, so `Xᵢ = √(K/i)`.
    pub fn compute_xi(&self) -> (r: Decimal)
        requires
            self.xi_ok(),
        ensures
            r == self.xi_of(),
    {
        let k = self.compute_k();
        let k_div_i = k.div(self.i);
        k_div_i.sqrt().unwrap()
    }

    /// The balance of y at which the constant-product price is the oracle
    /// price: `Yᵢ = √(K * i)`.
    pub fn compute_yi(&self) -> (r: Decimal)
        requires
            self.yi_ok(),
        ensures
            r == self.yi_of(),
    {
        let k = self.compute_k();
        let k_mul_i = k.mul(self.i);
        k_mul_i.sqrt().unwrap()
    }

    /// `x_new = x0 + delta_x`.
    pub fn compute_x_new(&self, delta_x: &Decimal) -> (r: Decimal)
        requires
            self.x0.add_ok(*delta_x),
        ensures
            r == self.x0.sum(*delta_x),
    {
        self.x0.add(*delta_x).unwrap()
    }

    /// `y_new = y0 + delta_y`.
    pub fn compute_y_new(&self, delta_y: &Decimal) -> (r: Decimal)
        requires
            self.y0.add_ok(*delta_y),
        ensures
            r == self.y0.sum(*delta_y),
    {
        self.y0.add(*delta_y).unwrap()
    }

    /// `sqrt(x_new * y_new) - MIN_LIQUIDITY`.
    pub fn compute_squared_k(&self, x_new: Decimal, y_new: Decimal) -> (r: Decimal)
        requires
            self.squared_k_ok(x_new, y_new),
        ensures
            r == self.squared_k_of(x_new, y_new),
    {
        proof {
            crate::arith::lemma_pow10_u128_range();
        }
        let min_liquidity = Decimal::from_u64(MIN_LIQUIDITY).to_amount();
        x_new.mul(y_new).sqrt().unwrap().sub(min_liquidity).unwrap()
    }
}

} // verus!
