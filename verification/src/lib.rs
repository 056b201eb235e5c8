//! Fixed-point decimal arithmetic and the swap curves of a liquidity pool.
pub mod arith;
pub mod decimal;
pub mod decimal_laws;
pub mod hmm_range;
pub mod pool;
pub mod swap_calculator;
pub mod swap_result;
pub mod swap_laws;
