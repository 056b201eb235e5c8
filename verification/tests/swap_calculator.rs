use hydra_math::decimal::{Decimal, AMOUNT_SCALE};
use hydra_math::swap_calculator::SwapCalculator;

#[test]
fn test_specific_curve_math() {
    // compute_delta_y_hmm when c == 1
    {
        let swap = SwapCalculator::from_decimals(
            Decimal::from_amount(37_000000),
            Decimal::from_amount(126_000000),
            Decimal::from_amount(1_000000),
            Decimal::from_amount(3_000000),
            Decimal::from_u64(0).to_amount(),
            Decimal::from_u64(0).to_amount(),
        );
        let delta_x = Decimal::from_amount(3_000000);
        let result = swap.compute_delta_y_hmm(&delta_x);
        // exact value: -9.207_401_794_786
        let expected = Decimal::new(9_207_401, AMOUNT_SCALE, false);
        assert!(
            result.eq(expected).unwrap(),
            "compute_delta_y_hmm\n{}\n{}",
            result.value,
            expected.value
        );
        assert_eq!(result.negative, true);
    }

    // compute_delta_y_hmm when c == 0
    {
        let swap = SwapCalculator::from_decimals(
            Decimal::from_u128(32).to_scale(12),
            Decimal::from_u128(33).to_scale(12),
            Decimal::from_u128(0).to_scale(12),
            Decimal::from_u128(1).to_scale(12),
            Decimal::from_u64(0).to_amount(),
            Decimal::from_u64(0).to_amount(),
        );
        let delta_x = Decimal::from_u128(1).to_scale(12);
        let result = swap.compute_delta_y_hmm(&delta_x).to_scale(8);
        // exact value: -1.000_000_000_000
        let expected = Decimal::new(1_000_000_00, 8, false);
        assert!(
            result.eq(expected).unwrap(),
            "compute_delta_y_hmm {}, {}",
            result.value,
            expected.value
        );
        assert_eq!(result.negative, true);
    }

    // compute_delta_x_hmm when c == 0
    {
        let swap = SwapCalculator::from_decimals(
            Decimal::from_u128(216).to_scale(12),
            Decimal::from_u128(193).to_scale(12),
            Decimal::from_u128(0).to_scale(12),
            Decimal::from_u128(1).to_scale(12),
            Decimal::from_u64(0).to_amount(),
            Decimal::from_u64(0).to_amount(),
        );
        let delta_y = Decimal::from_u128(4).to_scale(12);
        let result = swap.compute_delta_x_hmm(&delta_y).to_scale(8);
        // exact value: -4.385_786_802_030
        let expected = Decimal::new(4_385_786_80, 8, false);
        assert!(
            result.eq(expected).unwrap(),
            "compute_delta_x_hmm {}, {}",
            result.value,
            expected.value
        );
        assert_eq!(result.negative, true);
    }

    // xi specific
    {
        let swap = SwapCalculator::from_decimals(
            Decimal::from_u128(1000).to_scale(12),
            Decimal::from_u128(1000).to_scale(12),
            Decimal::from_u128(0).to_scale(12),
            Decimal::from_u128(200).to_scale(12),
            Decimal::from_u64(0).to_amount(),
            Decimal::from_u64(0).to_amount(),
        );
        // ((1000*1000)/200)**0.5 = 70.710678118654752
        let result = swap.compute_xi().to_scale(12);
        let expected = Decimal::new(70_710_678_118_654u128, 12, false);
        assert!(
            result.eq(expected).unwrap(),
            "compute_xi {}, {}",
            result.value,
            expected.value
        );
        assert_eq!(result.negative, false);
    }
}

fn amount(value: u128) -> Decimal {
    Decimal::new(value, AMOUNT_SCALE, false)
}

fn fee_free_pool(x0: u64, y0: u64, c: u64, i: u64) -> SwapCalculator {
    SwapCalculator::new(x0, y0, c, i, 0, 0)
}

#[test]
fn new_holds_whole_tokens_at_amount_scale() {
    let swap = SwapCalculator::new(1000, 2000, 1, 3, 3, 1000);
    assert_eq!((swap.x0.value, swap.x0.scale), (1_000_000_000, AMOUNT_SCALE));
    assert_eq!(swap.y0.value, 2_000_000_000);
    assert_eq!(swap.c.value, 1_000_000);
    assert_eq!(swap.i.value, 3_000_000);
    assert_eq!(swap.fee_numer.value, 3_000_000);
    assert_eq!(swap.fee_denom.value, 1_000_000_000);
}

#[test]
fn compute_k_is_the_product_of_the_balances() {
    let k = fee_free_pool(1000, 1000, 0, 1).compute_k();
    assert_eq!((k.value, k.scale), (1_000_000_000_000, AMOUNT_SCALE));
}

#[test]
fn compute_fees_splits_the_input() {
    let swap = SwapCalculator::new(1000, 1000, 0, 1, 3, 1000);
    let input = amount(100_000_000);
    let (fees, ex) = swap.compute_fees(&input);
    assert_eq!(fees.value, 300_000);
    assert_eq!(ex.value, 99_700_000);
    assert_eq!(fees.value + ex.value, input.value);
}

#[test]
fn compute_fees_is_zero_for_a_zero_rate() {
    let input = amount(100_000_000);
    let (fees, ex) = SwapCalculator::new(1000, 1000, 0, 1, 0, 1000).compute_fees(&input);
    assert_eq!((fees.value, ex.value), (0, 100_000_000));
    let (fees, ex) = SwapCalculator::new(1000, 1000, 0, 1, 3, 0).compute_fees(&input);
    assert_eq!((fees.value, ex.value), (0, 100_000_000));
}

#[test]
fn swap_x_to_y_amm_without_fees() {
    let swap = fee_free_pool(1000, 1000, 0, 1);
    let r = swap.swap_x_to_y_amm(&amount(100_000_000));
    assert_eq!(r.k.value, 1_000_000_000_000);
    assert_eq!(r.x_new.value, 1_100_000_000);
    assert_eq!(r.y_new.value, 909_090_909);
    assert_eq!((r.delta_x.value, r.delta_x.negative), (100_000_000, false));
    assert_eq!((r.delta_y.value, r.delta_y.negative), (90_909_091, false));
    assert_eq!(r.fees.value, 0);
    assert_eq!(r.squared_k.value, 899_999_999);
    // the product of the new balances does not exceed k
    assert!(r.y_new.value * r.x_new.value <= r.k.value * 1_000_000);
    assert_eq!(r.y_new.value + r.delta_y.value, swap.y0.value);
}

#[test]
fn swap_x_to_y_amm_with_fees() {
    let swap = SwapCalculator::new(1000, 1000, 0, 1, 3, 1000);
    let r = swap.swap_x_to_y_amm(&amount(100_000_000));
    assert_eq!(r.fees.value, 300_000);
    assert_eq!(r.x_new.value, 1_100_000_000);
    assert_eq!(r.delta_x.value, 99_700_000);
    assert_eq!(r.y_new.value, 909_338_910);
    assert_eq!(r.delta_y.value, 90_661_090);
    assert_eq!(r.squared_k.value, 900_136_391);
}

#[test]
fn swap_y_to_x_amm_with_fees() {
    let swap = SwapCalculator::new(1000, 1000, 0, 1, 3, 1000);
    let r = swap.swap_y_to_x_amm(&amount(100_000_000));
    assert_eq!(r.fees.value, 300_000);
    assert_eq!(r.y_new.value, 1_100_000_000);
    assert_eq!(r.delta_y.value, 99_700_000);
    assert_eq!(r.x_new.value, 909_338_910);
    assert_eq!(r.delta_x.value, 90_661_090);
    assert_eq!(r.squared_k.value, 900_136_391);
    assert_eq!(r.x_new.value + r.delta_x.value, swap.x0.value);
}

#[test]
fn swap_x_to_y_hmm_follows_the_oracle_curve() {
    let swap = SwapCalculator::from_decimals(
        amount(37_000_000),
        amount(126_000_000),
        amount(1_000_000),
        amount(3_000_000),
        Decimal::from_u64(0).to_amount(),
        Decimal::from_u64(0).to_amount(),
    );
    let r = swap.swap_x_to_y_hmm(&amount(3_000_000));
    assert_eq!(r.k.value, 4_662_000_000);
    assert_eq!(r.x_new.value, 40_000_000);
    assert_eq!(r.delta_x.value, 3_000_000);
    assert_eq!((r.delta_y.value, r.delta_y.negative), (9_207_401, true));
    assert_eq!(r.y_new.value, 116_792_599);
    assert_eq!((r.squared_k.value, r.squared_k.negative), (31_650_136, true));
}

#[test]
fn compute_delta_amm_gives_the_constant_product_deltas() {
    let swap = fee_free_pool(1000, 1000, 0, 1);
    let dx = swap.compute_delta_x_amm(&amount(100_000_000));
    assert_eq!((dx.value, dx.negative), (90_909_091, true));
    let dy = swap.compute_delta_y_amm(&amount(100_000_000));
    assert_eq!((dy.value, dy.negative), (90_909_091, true));
}

#[test]
fn compute_delta_hmm_matches_amm_when_the_oracle_is_better() {
    // x0 = 100 >= xi = sqrt(100 * 100 / 2) = 70.71
    let swap = fee_free_pool(100, 100, 0, 2);
    assert_eq!(swap.compute_xi().value, 70_710_678);
    let hmm = swap.compute_delta_y_hmm(&amount(10_000_000));
    let amm = swap.compute_delta_y_amm(&amount(10_000_000));
    assert_eq!((hmm.value, hmm.negative), (amm.value, amm.negative));
    assert_eq!((hmm.value, hmm.negative), (9_090_910, true));
}

#[test]
fn compute_delta_x_hmm_matches_amm_when_the_oracle_is_better() {
    // y0 = 126 >= yi = sqrt(37 * 126 * 3) = 118.26
    let swap = fee_free_pool(37, 126, 1, 3);
    assert_eq!(swap.compute_yi().value, 118_262_420);
    let hmm = swap.compute_delta_x_hmm(&amount(3_000_000));
    let amm = swap.compute_delta_x_amm(&amount(3_000_000));
    assert_eq!((hmm.value, hmm.negative), (amm.value, amm.negative));
    assert_eq!((hmm.value, hmm.negative), (860_466, true));
}

#[test]
fn compute_delta_y_hmm_with_fractional_and_zero_coefficients() {
    let with_c = |c: u128| {
        SwapCalculator::from_decimals(
            amount(37_000_000),
            amount(126_000_000),
            amount(c),
            amount(3_000_000),
            Decimal::from_u64(0).to_amount(),
            Decimal::from_u64(0).to_amount(),
        )
    };
    let r = with_c(1_500_000).compute_delta_y_hmm(&amount(3_000_000));
    assert_eq!((r.value, r.negative), (9_089_914, true));
    let r = with_c(1_250_000).compute_delta_y_hmm(&amount(3_000_000));
    assert_eq!((r.value, r.negative), (9_148_421, true));
    let r = with_c(0).compute_delta_y_hmm(&amount(3_000_000));
    assert_eq!((r.value, r.negative), (9_450_000, true));
}

#[test]
fn compute_xi_squared_brackets_k_over_i() {
    let swap = fee_free_pool(37, 126, 1, 3);
    let xi = swap.compute_xi();
    assert_eq!(xi.value, 39_420_806);
    // k / i = 1554.000000; xi^2 <= 1554 * 10^12 < (xi + 1)^2
    let n: u128 = 1_554_000_000 * 1_000_000;
    assert!(xi.value * xi.value <= n);
    assert!(n < (xi.value + 1) * (xi.value + 1));
}

#[test]
fn compute_x_new_and_y_new_add_the_delta() {
    let swap = fee_free_pool(10, 20, 0, 1);
    assert_eq!(swap.compute_x_new(&amount(1_500_000)).value, 11_500_000);
    assert_eq!(swap.compute_y_new(&amount(2_500_000)).value, 22_500_000);
}

#[test]
fn compute_squared_k_subtracts_the_minimum_liquidity() {
    let swap = fee_free_pool(10, 20, 0, 1);
    let r = swap.compute_squared_k(amount(400_000_000), amount(900_000_000));
    // sqrt(400 * 900) - 100 = 500
    assert_eq!((r.value, r.negative), (500_000_000, false));
}

#[test]
fn compute_integral_with_c_equal_to_one_is_k_over_qi_times_ln() {
    let swap = fee_free_pool(37, 126, 1, 3);
    let k = swap.compute_k();
    // k / qi * ln(q0 / q_new) with q0 = q_new: ln 1 = 0
    let r = swap.compute_integral(&k, &amount(40_000_000), &amount(40_000_000), &amount(39_000_000), &swap.c);
    assert_eq!(r.value, 0);
}

#[test]
fn mirrored_pool_mirrors_the_swap() {
    let swap = SwapCalculator::new(1000, 2000, 0, 1, 3, 1000);
    let mirror = SwapCalculator::new(2000, 1000, 0, 1, 3, 1000);
    let r = swap.swap_y_to_x_amm(&amount(100_000_000));
    let m = mirror.swap_x_to_y_amm(&amount(100_000_000));
    assert_eq!((r.k.value, m.k.value), (2_000_000_000_000, 2_000_000_000_000));
    assert_eq!((r.x_new.value, r.x_new.negative), (m.y_new.value, m.y_new.negative));
    assert_eq!((r.y_new.value, r.y_new.negative), (m.x_new.value, m.x_new.negative));
    assert_eq!((r.delta_x.value, r.delta_x.negative), (m.delta_y.value, m.delta_y.negative));
    assert_eq!((r.delta_y.value, r.delta_y.negative), (m.delta_x.value, m.delta_x.negative));
    assert_eq!(r.fees.value, m.fees.value);
    assert_eq!(r.squared_k.value, m.squared_k.value);
    let dx = swap.compute_delta_x_amm(&amount(5_000_000));
    let dy = mirror.compute_delta_y_amm(&amount(5_000_000));
    assert_eq!((dx.value, dx.negative), (dy.value, dy.negative));
}

#[test]
fn zero_coefficient_makes_the_oracle_curve_constant_product() {
    // x0 = 37 < xi = 39.42 < x_new = 40: the third regime
    let swap = fee_free_pool(37, 126, 0, 3);
    let hmm = swap.compute_delta_y_hmm(&amount(3_000_000));
    let amm = swap.compute_delta_y_amm(&amount(3_000_000));
    assert_eq!((hmm.value, hmm.negative), (amm.value, amm.negative));
    assert_eq!((hmm.value, hmm.negative), (9_450_000, true));
}

#[test]
fn larger_input_pays_out_no_less() {
    let swap = SwapCalculator::new(1000, 1000, 0, 1, 3, 1000);
    let small = swap.swap_x_to_y_amm(&amount(10_000_000));
    let large = swap.swap_x_to_y_amm(&amount(11_000_000));
    assert!(small.delta_y.value <= large.delta_y.value);
    let less = swap.compute_delta_x_amm(&amount(10_000_000));
    let more = swap.compute_delta_x_amm(&amount(11_000_000));
    // more y in gives no less x out
    assert!(less.value <= more.value && less.negative && more.negative);
}

#[test]
fn fractional_fee_numerator_can_shrink_the_net_amount() {
    // rate 1.4 / 1.5: the truncated fee grows faster than the input here
    let swap = SwapCalculator::from_decimals(
        amount(1_000_000_000),
        amount(1_000_000_000),
        amount(0),
        amount(1_000_000),
        amount(1_400_000),
        amount(1_500_000),
    );
    let (_, ex12) = swap.compute_fees(&amount(12));
    let (_, ex13) = swap.compute_fees(&amount(13));
    assert_eq!((ex12.value, ex13.value), (2, 1));
}

#[test]
fn oracle_curve_deltas_are_not_positive() {
    for c in [0u128, 1_000_000, 1_250_000, 1_500_000] {
        let swap = SwapCalculator::from_decimals(
            amount(37_000_000),
            amount(126_000_000),
            amount(c),
            amount(3_000_000),
            Decimal::from_u64(0).to_amount(),
            Decimal::from_u64(0).to_amount(),
        );
        let dy = swap.compute_delta_y_hmm(&amount(3_000_000));
        assert!(dy.negative || dy.value == 0);
        let dx = swap.compute_delta_x_hmm(&amount(3_000_000));
        assert!(dx.negative || dx.value == 0);
    }
}

#[test]
fn zero_coefficient_swap_matches_the_constant_product_swap() {
    let swap = fee_free_pool(37, 126, 0, 3);
    let h = swap.swap_x_to_y_hmm(&amount(3_000_000));
    let a = swap.swap_x_to_y_amm(&amount(3_000_000));
    assert_eq!((h.k.value, h.x_new.value, h.delta_x.value), (a.k.value, a.x_new.value, a.delta_x.value));
    // k / x0 = 126 exactly, so the rounding term is zero
    assert_eq!((h.delta_y.value, h.delta_y.negative), (a.delta_y.value, true));
    assert_eq!(h.y_new.value, a.y_new.value);
}

#[test]
fn oracle_balances_bracket_k() {
    let swap = fee_free_pool(37, 126, 1, 3);
    let k = swap.compute_k();
    let xi = swap.compute_xi();
    let yi = swap.compute_yi();
    // xi * yi <= k (both at 6 places)
    assert!(xi.value * yi.value <= k.value * 1_000_000);
    // i * xi^2 <= k * 10^12 < i * (xi + 1)^2 + i * 10^6
    let i = swap.i.value;
    assert!(i * xi.value * xi.value <= k.value * 1_000_000_000_000);
    assert!(k.value * 1_000_000_000_000 < i * (xi.value + 1) * (xi.value + 1) + i * 1_000_000);
}

#[test]
fn integral_halves_add_up_within_rounding() {
    let with_c = |c: u128| {
        SwapCalculator::from_decimals(
            amount(37_000_000),
            amount(126_000_000),
            amount(c),
            amount(3_000_000),
            Decimal::from_u64(0).to_amount(),
            Decimal::from_u64(0).to_amount(),
        )
    };
    for (c, tolerance) in [(0u128, 3i128), (1_250_000, 1), (1_500_000, 1)] {
        let swap = with_c(c);
        let k = swap.compute_k();
        let qi = amount(39_000_000);
        let (q0, q1, q2) = (amount(37_000_000), amount(38_000_000), amount(40_000_000));
        let signed = |d: Decimal| if d.negative { -(d.value as i128) } else { d.value as i128 };
        let r01 = signed(swap.compute_integral(&k, &q0, &q1, &qi, &swap.c));
        let r12 = signed(swap.compute_integral(&k, &q1, &q2, &qi, &swap.c));
        let r02 = signed(swap.compute_integral(&k, &q0, &q2, &qi, &swap.c));
        assert!(r01 + r12 - tolerance <= r02 && r02 <= r01 + r12, "c = {}", c);
    }
}

#[test]
fn logarithm_integral_beyond_six_places_can_be_positive() {
    // at 7 places q_new is truncated to 6 before the division
    let one = Decimal::new(10_000_000, 7, false);
    let swap = SwapCalculator::from_decimals(one, one, one, one, Decimal::from_u64(0).to_amount(), Decimal::from_u64(0).to_amount());
    let q = Decimal::new(19, 7, false);
    let r = swap.compute_integral(&one, &q, &q, &one, &swap.c);
    assert!(!r.negative && r.value > 0);
}

#[test]
fn oracle_curve_deltas_succeed_at_the_edges_of_the_trading_range() {
    let lows_and_highs = [1_000_000u128, 99_999_999_999_999];
    for c in [0u128, 1_000_000, 1_250_000, 1_500_000] {
        for x0 in lows_and_highs {
            for y0 in lows_and_highs {
                for i in [1_000_000u128, 100_000_000] {
                    for delta in [1_000_000u128, 100_000_000] {
                        let swap = SwapCalculator::from_decimals(
                            amount(x0),
                            amount(y0),
                            amount(c),
                            amount(i),
                            Decimal::from_u64(0).to_amount(),
                            Decimal::from_u64(0).to_amount(),
                        );
                        let dy = swap.compute_delta_y_hmm(&amount(delta));
                        assert!(dy.negative || dy.value == 0);
                        let dx = swap.compute_delta_x_hmm(&amount(delta));
                        assert!(dx.negative || dx.value == 0);
                        if c == 0 {
                            let h = swap.swap_x_to_y_hmm(&amount(delta));
                            let a = swap.swap_x_to_y_amm(&amount(delta));
                            assert_eq!(h.x_new.value, a.x_new.value);
                            assert!(!h.y_new.negative);
                        }
                    }
                }
            }
        }
    }
}

#[test]
fn zero_coefficient_delta_equals_the_constant_product_delta_in_every_regime() {
    // x0 = 32, y0 = 33, i = 1: xi = sqrt(1056) = 32.496153, so a trade of 1
    // crosses xi, a trade of 0.4 stays below it, and with i = 1/100 x0 is
    // already past xi
    for (i, delta) in [(1_000_000u128, 1_000_000u128), (1_000_000, 400_000), (10_000, 1_000_000)] {
        let swap = SwapCalculator::from_decimals(
            amount(32_000_000),
            amount(33_000_000),
            amount(0),
            amount(i),
            Decimal::from_u64(0).to_amount(),
            Decimal::from_u64(0).to_amount(),
        );
        let h = swap.compute_delta_y_hmm(&amount(delta));
        let a = swap.compute_delta_y_amm(&amount(delta));
        assert_eq!((h.value, h.negative), (a.value, a.negative));
    }
    let swap = fee_free_pool(216, 193, 0, 1);
    let h = swap.compute_delta_x_hmm(&amount(4_000_000));
    let a = swap.compute_delta_x_amm(&amount(4_000_000));
    assert_eq!((h.value, h.negative), (a.value, a.negative));
    // 41688/197 - 41688/193 = -4.385786..., each quotient truncated
    assert_eq!((a.value, a.negative), (4_385_787, true));
}

#[test]
fn oracle_and_constant_product_deltas_differ_only_below_xi() {
    let signed = |d: Decimal| if d.negative { -(d.value as i128) } else { d.value as i128 };
    for c in [0u128, 1_000_000, 1_250_000, 1_500_000] {
        let swap = SwapCalculator::from_decimals(
            amount(37_000_000),
            amount(126_000_000),
            amount(c),
            amount(3_000_000),
            Decimal::from_u64(0).to_amount(),
            Decimal::from_u64(0).to_amount(),
        );
        // xi = sqrt(1554) = 39.420806..., so a trade of 3 crosses it
        let k = swap.compute_k();
        let xi = swap.compute_xi();
        assert_eq!(xi.value, 39_420_806);
        let delta_x = amount(3_000_000);
        let hmm = signed(swap.compute_delta_y_hmm(&delta_x));
        let amm = signed(swap.compute_delta_y_amm(&delta_x));
        let integral = signed(swap.compute_integral(&k, &swap.x0, &xi, &xi, &swap.c));
        let below = signed(k.div(xi)) - signed(k.div(swap.x0));
        assert_eq!(hmm - amm, integral - below, "c = {}", c);
    }
}
