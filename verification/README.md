# hydra_math

Verified fixed-point arithmetic and swap curves for a two-token liquidity pool.

- `src/decimal.rs`: `Decimal`, a signed fixed-point number `±value / 10^scale`
  with truncating multiplication and division, exact addition and subtraction,
  magnitude comparisons, the square root, the natural logarithm and powers with
  fractional exponents. Each operation has a spec function that says what it
  returns and a predicate that says when it has a result.
- `src/swap_calculator.rs`: `SwapCalculator`, the constant-product curve (AMM)
  and the oracle-guided curve (HMM), with fees, and the laws that relate the
  balances before and after a swap.
- `src/decimal_laws.rs`: monotonicity of powers and of the logarithm's
  series, and the sign of the logarithm below one.
- `src/swap_laws.rs`: what swaps keep, the mirror symmetry of the two tokens,
  monotonicity in the input, the three regimes of the oracle-guided curve,
  its reduction to the constant-product curve at `c = 0`, the signs of the
  deltas, how the oracle balances bracket `k`, how integrals over adjacent
  intervals add up, and where the two curves' deltas differ.
- `src/hmm_range.rs`: over balances of 1 to 10^8 tokens, oracle prices of 1
  to 100 and trades of 1 to 100 tokens, the oracle-guided deltas with `c`
  one of 0, 1, 1.25 and 1.5, and the oracle-guided swap with `c = 0`, never
  fail.
- `src/arith.rs`: powers of ten and two, the binary logarithm and the integer
  square root, with the lemmas the proofs use.
- `src/pool.rs`, `src/swap_result.rs`: the pool state and the result of a swap.
- `app/`: the on-chain instruction (Anchor) that creates and initialises a pool.

`src/` is checked by Verus; `tests/` runs the library on concrete values.
