//! The outcome of a swap against a pool.
use vstd::prelude::*;
use crate::decimal::Decimal;

verus! {

/// The state of the pool after a swap, and what moved.
#[derive(Clone, Copy, Debug)]
pub struct SwapResult {
    /// The constant-product invariant `x0 * y0` before the swap.
    pub k: Decimal,
    /// Token x in the pool after the swap, fees included.
    pub x_new: Decimal,
    /// Token y in the pool after the swap, fees included.
    pub y_new: Decimal,
    /// Change of token x in the pool, fees excluded.
    pub delta_x: Decimal,
    /// Change of token y in the pool, fees excluded.
    pub delta_y: Decimal,
    /// Fees taken from the input amount.
    pub fees: Decimal,
    /// `sqrt(x_new * y_new)` less the minimum liquidity.
    pub squared_k: Decimal,
}

} // verus!
