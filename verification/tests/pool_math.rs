use zippo::amm_logic::{
    calculate_amount_in_for_exact_lp, calculate_amount_in_for_exact_lp_checked,
    calculate_lp_for_exact_out, calculate_single_side_swap, calculate_swap_out, integer_sqrt,
    mul_div, plan_deposit, predict_lp_for_amount_in,
};
use zippo::types::ZapError;
use zippo::wide::U256;

const BIG: u128 = 1 << 126;

/// What a zap of `amount_in` mints, as the pool computes it.
fn mint(amount_in: u128, r_in: u128, r_out: u128, ts: u128, fee: u128) -> u128 {
    let s = calculate_single_side_swap(amount_in, r_in, fee);
    let out = calculate_swap_out(s, r_in, r_out, fee).unwrap();
    let (dep_in, dep_out) = plan_deposit(amount_in - s, out, r_in + s, r_out - out);
    let by_input = mul_div(dep_in, ts, r_in + s);
    let by_output = mul_div(dep_out, ts, r_out - out);
    by_input.min(by_output)
}

/// What an unzap of `liquidity` yields on the side with reserve `r_a`.
fn unzap(liquidity: u128, r_a: u128, r_b: u128, ts: u128, fee: u128) -> u128 {
    let own = mul_div(liquidity, r_a, ts);
    let other = mul_div(liquidity, r_b, ts);
    if own == r_a || other == r_b {
        own
    } else {
        own + calculate_swap_out(other, r_b - other, r_a - own, fee).unwrap()
    }
}

#[test]
fn sqrt_of_the_largest_value() {
    let root = integer_sqrt(U256 { limbs: [u64::MAX; 4] });
    assert_eq!(root, U256::from_u128(u128::MAX));
}

#[test]
fn mul_div_is_zero_where_the_quotient_does_not_fit() {
    assert_eq!(mul_div(u128::MAX, u128::MAX, 1), 0);
    assert_eq!(mul_div(u128::MAX, u128::MAX, u128::MAX), u128::MAX);
    assert_eq!(mul_div(u128::MAX, u128::MAX, u128::MAX - 1), 0);
}

#[test]
fn swap_out_at_the_top_of_the_range() {
    assert_eq!(
        calculate_swap_out(BIG, BIG, u128::MAX, 10),
        Ok(169286202639059838607407468018819361477)
    );
    // A fee of everything pays nothing.
    assert_eq!(calculate_swap_out(100, 1_000, 1_000, 1_000), Ok(0));
    assert_eq!(calculate_swap_out(100, 1_000, 1_000, u128::MAX), Ok(0));
}

#[test]
fn swap_out_refusals() {
    assert_eq!(calculate_swap_out(0, 1_000, 1_000, 10), Err(ZapError::ZeroAmountIn));
    assert_eq!(calculate_swap_out(100, 0, 1_000, 10), Err(ZapError::NoLiquidity));
    assert_eq!(calculate_swap_out(100, 1_000, 0, 10), Err(ZapError::NoLiquidity));
}

#[test]
fn swap_keeps_the_product() {
    let (r_in, r_out) = (1_000_000u128, 3_000_000u128);
    for amount in [1u128, 17, 1_000, 999_999, 50_000_000] {
        let free = calculate_swap_out(amount, r_in, r_out, 0).unwrap();
        assert!((r_in + amount) * (r_out - free) >= r_in * r_out);
        let charged = calculate_swap_out(amount, r_in, r_out, 10).unwrap();
        assert!(charged < r_out);
        assert!((r_in + amount) * (r_out - charged) > r_in * r_out);
    }
}

#[test]
fn split_exact_values() {
    assert_eq!(calculate_single_side_swap(10_000, 1_000_000, 10), 5_012);
    assert_eq!(calculate_single_side_swap(1_000_000_000, 1 << 120, 10), 502_512_562);
    assert_eq!(
        calculate_single_side_swap(BIG, BIG, 10),
        35414596145144106704340104132975006873
    );
    assert_eq!(calculate_single_side_swap(10_000, 1_000_000, 1_000), 0);
    assert_eq!(calculate_single_side_swap(1, 1_000_000, 10), 0);
}

#[test]
fn split_balances_the_deposit() {
    for (amount, r, fee) in [(10_000u128, 1_000_000u128, 10u128), (77, 1_000, 0), (5_000, 70, 300)] {
        let a = 1_000 - fee;
        let s = calculate_single_side_swap(amount, r, fee);
        assert!(s < amount);
        assert!(s * a * (r + s) <= 1_000 * r * (amount - s));
        let t = s + 1;
        assert!(t > amount || t * a * (r + t) > 1_000 * r * (amount - t));
    }
}

#[test]
fn deposit_takes_the_whole_swap_output() {
    let (amount, r_in, r_out, fee) = (10_000u128, 1_000_000u128, 2_000_000u128, 10u128);
    let s = calculate_single_side_swap(amount, r_in, fee);
    let out = calculate_swap_out(s, r_in, r_out, fee).unwrap();
    assert_eq!(out, 9_874);
    let (dep_in, dep_out) = plan_deposit(amount - s, out, r_in + s, r_out - out);
    assert_eq!((dep_in, dep_out), (4_986, 9_874));
}

#[test]
fn plan_deposit_caps_the_richer_side() {
    assert_eq!(plan_deposit(100, 1_000, 10, 20), (100, 200));
    assert_eq!(plan_deposit(1_000, 100, 10, 20), (50, 100));
    assert_eq!(plan_deposit(7, 9, 0, 20), (7, 0));
    assert_eq!(plan_deposit(7, 9, 20, 0), (7, 0));
    assert_eq!(
        plan_deposit(u128::MAX, u128::MAX, u128::MAX, u128::MAX),
        (u128::MAX, u128::MAX)
    );
}

#[test]
fn prediction_exact_values() {
    assert_eq!(predict_lp_for_amount_in(10_000, 1_000_000, 2_000_000, 1_000_000, 10), 4_961);
    assert_eq!(mint(10_000, 1_000_000, 2_000_000, 1_000_000, 10), 4_961);
    assert_eq!(predict_lp_for_amount_in(0, 1_000_000, 2_000_000, 1_000_000, 10), 0);
    assert_eq!(predict_lp_for_amount_in(1, 1_000_000, 2_000_000, 1_000_000, 10), 0);
    assert_eq!(predict_lp_for_amount_in(10_000, 0, 2_000_000, 1_000_000, 10), 0);
    assert_eq!(predict_lp_for_amount_in(10_000, 1_000_000, 0, 1_000_000, 10), 0);
    assert_eq!(predict_lp_for_amount_in(10_000, 1_000_000, 2_000_000, 0, 10), 0);
}

#[test]
fn inverse_exact_values() {
    assert_eq!(
        calculate_amount_in_for_exact_lp(5_000, 1_000_000, 1_000_000, 10),
        Ok((10_077, 5_051))
    );
    assert_eq!(
        calculate_amount_in_for_exact_lp(1 << 100, BIG, BIG, 10),
        Ok((2548105771054184283289919427761, 1280455151745686264138084045835))
    );
}

#[test]
fn inverse_refusals() {
    assert_eq!(calculate_amount_in_for_exact_lp(0, 1_000, 1_000, 10), Err(ZapError::ZeroLpOut));
    assert_eq!(
        calculate_amount_in_for_exact_lp(100, 0, 1_000, 10),
        Err(ZapError::ZeroInputReserve)
    );
    assert_eq!(
        calculate_amount_in_for_exact_lp(100, 1_000, 0, 10),
        Err(ZapError::ZeroTotalSupply)
    );
    assert_eq!(
        calculate_amount_in_for_exact_lp(100, 1_000, 1_000, 1_000),
        Err(ZapError::FeeTooHigh)
    );
    assert_eq!(
        calculate_amount_in_for_exact_lp(u128::MAX, u128::MAX, 1, 10),
        Err(ZapError::SwapAmountOverflow)
    );
    assert_eq!(
        calculate_amount_in_for_exact_lp(1 << 127, 1, 1, 0),
        Err(ZapError::AmountInOverflow)
    );
}

#[test]
fn inverse_covers_the_target_on_both_sides() {
    let (lp, r, ts, fee) = (12_345u128, 10_000_000u128, 5_477_225u128, 10u128);
    let (amount, s) = calculate_amount_in_for_exact_lp(lp, r, ts, fee).unwrap();
    let a = 1_000 - fee;
    assert!(s * a * ts >= lp * 1_000 * r);
    assert!((s - 1) * a * ts < lp * 1_000 * r);
    assert!((amount - s) * ts >= lp * (r + s));
    assert!((amount - s - 1) * ts < lp * (r + s));
}

#[test]
fn inverse_of_a_mint_costs_no_more_than_the_zap() {
    for amount in [100u128, 1_001, 10_000, 123_456, 5_000_000] {
        let lp = predict_lp_for_amount_in(amount, 1_000_000, 2_000_000, 1_414_213, 10);
        let (needed, s) = calculate_amount_in_for_exact_lp(lp, 1_000_000, 1_414_213, 10).unwrap();
        assert!(needed <= amount);
        assert!(s <= calculate_single_side_swap(amount, 1_000_000, 10));
    }
}

#[test]
fn bare_closed_form_can_undershoot() {
    let (amount, _) = calculate_amount_in_for_exact_lp(1_000, 1_000_000, 1_414_213, 10).unwrap();
    assert_eq!(amount, 1_423);
    assert_eq!(predict_lp_for_amount_in(amount, 1_000_000, 2_000_000, 1_414_213, 10), 999);
}

#[test]
fn checked_inverse_never_undershoots() {
    for (lp, r_in, r_out, ts, expected) in [
        (1_000u128, 1_000_000u128, 2_000_000u128, 1_414_213u128, (1_424u128, 715u128)),
        (12_345, 10_000_000, 3_000_000, 5_477_225, (45_364, 22_770)),
        (777, 999_983, 1_000_003, 1_000_000, (1_565, 786)),
        (5_000, 1_000_000, 2_000_000, 1_000_000, (10_077, 5_051)),
    ] {
        let found = calculate_amount_in_for_exact_lp_checked(lp, r_in, r_out, ts, 10).unwrap();
        assert_eq!(found, expected);
        assert!(mint(found.0, r_in, r_out, ts, 10) >= lp);
        let (closed, _) = calculate_amount_in_for_exact_lp(lp, r_in, ts, 10).unwrap();
        assert!(closed <= found.0);
    }
}

#[test]
fn checked_inverse_at_the_top_of_the_range() {
    let (amount, s) =
        calculate_amount_in_for_exact_lp_checked(1 << 100, BIG, BIG, BIG, 10).unwrap();
    assert_eq!(amount, 2548105771054184283289919427767);
    assert_eq!(s, calculate_single_side_swap(amount, BIG, 10));
    assert!(predict_lp_for_amount_in(amount, BIG, BIG, BIG, 10) >= 1 << 100);
}

#[test]
fn checked_inverse_refusals() {
    assert_eq!(
        calculate_amount_in_for_exact_lp_checked(0, 1_000, 1_000, 1_000, 10),
        Err(ZapError::ZeroLpOut)
    );
    assert_eq!(
        calculate_amount_in_for_exact_lp_checked(100, 1_000, 0, 1_000, 10),
        Err(ZapError::ZeroOutputReserve)
    );
    // The output side is a single unit: no input ever buys it.
    assert_eq!(
        calculate_amount_in_for_exact_lp_checked(1, 1_000, 1, 1_000, 10),
        Err(ZapError::AmountInOverflow)
    );
}

#[test]
fn exact_out_exact_values() {
    assert_eq!(calculate_lp_for_exact_out(90_000, 1_000_000, 1_000_000, 10), Ok(46_285));
    assert_eq!(
        calculate_lp_for_exact_out(1 << 125, BIG, BIG, 10),
        Ok(25005070773270975114273474383148398033)
    );
    // Almost everything, from the largest pool.
    assert_eq!(
        calculate_lp_for_exact_out(u128::MAX - 1, u128::MAX, u128::MAX, 999),
        Ok(340282366920938463462791270164896859870)
    );
}

#[test]
fn exact_out_refusals() {
    assert_eq!(
        calculate_lp_for_exact_out(0, 1_000, 1_000, 10),
        Err(ZapError::ZeroOutputAmount)
    );
    assert_eq!(
        calculate_lp_for_exact_out(100, 0, 1_000, 10),
        Err(ZapError::ZeroOutputReserve)
    );
    assert_eq!(
        calculate_lp_for_exact_out(100, 1_000, 0, 10),
        Err(ZapError::ZeroTotalSupply)
    );
    assert_eq!(
        calculate_lp_for_exact_out(1_000, 1_000, 1_000, 10),
        Err(ZapError::OutputExceedsReserve { output_amount: 1_000, reserve: 1_000 })
    );
    assert_eq!(
        calculate_lp_for_exact_out(100, 1_000, 1_000, 1_000),
        Err(ZapError::FeeTooHigh)
    );
}

#[test]
fn exact_out_reaches_the_target() {
    for target in [1u128, 2, 999, 90_000, 500_000, 999_000] {
        for fee in [0u128, 10, 300] {
            let lp = calculate_lp_for_exact_out(target, 1_000_000, 1_000_000, fee).unwrap();
            if lp <= 1_000_000 {
                assert!(unzap(lp, 1_000_000, 2_000_000, 1_000_000, fee) >= target);
            }
        }
    }
    assert_eq!(unzap(46_285, 1_000_000, 2_000_000, 1_000_000, 10), 90_006);
}

#[test]
fn exact_out_margin_is_not_enough_for_coarse_tokens() {
    // Ten units of liquidity to one unit of the output token.
    assert_eq!(calculate_lp_for_exact_out(6, 13, 137, 0), Ok(40));
    assert_eq!(unzap(40, 13, 101, 137, 0), 5);
}

#[test]
fn exact_out_asks_for_little_more_than_needed() {
    let (r_a, r_b, ts, fee) = (1_000_000u128, 2_000_000u128, 1_000_000u128, 10u128);
    for liquidity in [10u128, 500, 46_000, 400_000] {
        let target = unzap(liquidity, r_a, r_b, ts, fee);
        let lp = calculate_lp_for_exact_out(target, r_a, ts, fee).unwrap();
        assert!(lp - 3 <= liquidity + 1 + ts / (2_000 * r_a));
    }
}

#[test]
fn round_trip_never_gains() {
    let (r_in, r_out, ts) = (1_000_000u128, 2_000_000u128, 1_000_000u128);
    for fee in [0u128, 10] {
        for amount in [1_000u128, 10_000, 333_333] {
            let s = calculate_single_side_swap(amount, r_in, fee);
            let out = calculate_swap_out(s, r_in, r_out, fee).unwrap();
            let (dep_in, dep_out) = plan_deposit(amount - s, out, r_in + s, r_out - out);
            let minted = mint(amount, r_in, r_out, ts, fee);
            let back = unzap(
                minted,
                r_in + s + dep_in,
                r_out - out + dep_out,
                ts + minted,
                fee,
            );
            assert!(back <= s + dep_in);
            assert!(fee == 0 || back < s + dep_in);
        }
    }
}

#[test]
fn closed_form_is_taken_where_it_suffices() {
    let (amount, _) =
        calculate_amount_in_for_exact_lp_checked(5_000, 1_000_000, 2_000_000, 1_000_000, 10)
            .unwrap();
    assert_eq!(amount, 10_077);
    for less in [10_076u128, 10_075, 9_000] {
        let minted = predict_lp_for_amount_in(less, 1_000_000, 2_000_000, 1_000_000, 10);
        assert!(minted < 5_000);
    }
}

fn ceil(n: u128, d: u128) -> u128 {
    (n + d - 1) / d
}

#[test]
fn little_is_left_over_after_a_zap() {
    for (amount, r_in, r_out, fee) in [
        (1_000u128, 10_000u128, 10_000u128, 10u128),
        (50_000, 1_000_000, 1_000_000, 10),
        (1_000, 10_000, 1_000_000, 10),
        (1_000, 1_000_000, 10_000, 10),
        (1_000_000, 1_000, 3_000, 300),
    ] {
        let s = calculate_single_side_swap(amount, r_in, fee);
        let out = calculate_swap_out(s, r_in, r_out, fee).unwrap();
        let (dep_in, dep_out) = plan_deposit(amount - s, out, r_in + s, r_out - out);
        assert_eq!(dep_out, out);
        let left = amount - s - dep_in;
        assert!(left <= 2 + ceil(2 * s + 1, r_in) + ceil(r_in + amount, r_out - out));
    }
}

#[test]
fn inverse_of_a_mint_comes_close_to_the_zap() {
    for (amount, r_in, r_out, ts, fee) in [
        (50_000_000u128, 1_000_000u128, 1_000_000u128, 1_000_000u128, 10u128),
        (10_000_000, 100_000_000, 10_000_000, 31_622_776, 10),
        (10_000_000, 10_000_000, 100_000_000, 31_622_776, 10),
        (777, 1_000, 50, 90, 300),
    ] {
        let minted = predict_lp_for_amount_in(amount, r_in, r_out, ts, fee);
        assert!(minted > 0);
        let s = calculate_single_side_swap(amount, r_in, fee);
        let out = calculate_swap_out(s, r_in, r_out, fee).unwrap();
        let (inverse, c) = calculate_amount_in_for_exact_lp(minted, r_in, ts, fee).unwrap();
        let weight = ceil(2 * s + 1, r_in);
        let price = ceil(r_in + amount, r_out - out);
        let lp_price = ceil(r_in + s, ts);
        assert!((s - c) * (1_000 - fee) < 1_000 * (1 + price + lp_price));
        assert!(
            (amount - inverse) * ts < (s - c) * (ts + minted) + ts * (3 + weight + price + lp_price)
        );
    }
}

#[test]
fn checked_inverse_stops_at_the_first_input_that_mints() {
    // The closed form, then bumps of 2 and 4.
    let (lp, r_in, r_out, ts) = (12_345u128, 10_000_000u128, 3_000_000u128, 5_477_225u128);
    let (closed, s) = calculate_amount_in_for_exact_lp(lp, r_in, ts, 10).unwrap();
    let bump = ceil(r_in + s, ts);
    let (found, _) = calculate_amount_in_for_exact_lp_checked(lp, r_in, r_out, ts, 10).unwrap();
    let tried = (found + closed - bump) / 2;
    assert_eq!((closed, bump, tried, found), (45_358, 2, 45_360, 45_364));
    assert!(predict_lp_for_amount_in(closed, r_in, r_out, ts, 10) < lp);
    assert!(predict_lp_for_amount_in(tried, r_in, r_out, ts, 10) < lp);
    assert!(predict_lp_for_amount_in(found, r_in, r_out, ts, 10) >= lp);
}

#[test]
fn exact_out_reaches_the_target_where_the_roundings_are_covered() {
    let mut reached = 0;
    let mut missed = 0;
    for (target, r_a, r_b, ts, fee) in [
        (6i128, 13i128, 101i128, 137i128, 0i128),
        (7, 13, 101, 137, 0),
        (100, 1_000, 1_000, 1_000_000_000, 0),
        (5, 13, 101, 137, 10),
        (40, 90, 60, 400, 3),
        (90_000, 1_000_000, 2_000_000, 1_000_000, 10),
    ] {
        let lp = calculate_lp_for_exact_out(
            target as u128,
            r_a as u128,
            ts as u128,
            fee as u128,
        )
        .unwrap() as i128;
        assert!(lp <= ts);
        let slope = (1_000 - fee) * r_a + fee * target;
        let slack = (slope + 1_000 * r_a) * lp * ts - 1_000 * r_a * lp * lp - 1_000 * target * ts * ts;
        let (own_short, other_short) = ((lp * r_a) % ts, (lp * r_b) % ts);
        let cost = 1_000 * r_b * (ts - lp) * own_short
            + (slope * ts - 1_000 * lp * r_a) * other_short
            + 1_000 * own_short * other_short;
        let covered = lp * r_a / ts >= target || r_b * slack >= cost;
        let paid = unzap(lp as u128, r_a as u128, r_b as u128, ts as u128, fee as u128);
        assert_eq!(paid >= target as u128, covered);
        if covered {
            reached += 1;
        } else {
            missed += 1;
        }
    }
    assert!(reached > 0 && missed > 0);
}

#[test]
fn round_trip_loses_only_the_fees() {
    for (amount, r_in, r_out, ts, fee) in [
        (10_000u128, 1_000_000u128, 2_000_000u128, 1_000_000u128, 10u128),
        (333_333, 1_000_000, 2_000_000, 1_414_213, 0),
        (5_000_000, 1_000_000, 2_000_000, 1_414_213, 50),
        (900, 1_000, 70, 5_000, 300),
    ] {
        let s = calculate_single_side_swap(amount, r_in, fee);
        let out = calculate_swap_out(s, r_in, r_out, fee).unwrap();
        let (dep_in, dep_out) = plan_deposit(amount - s, out, r_in + s, r_out - out);
        let minted = mint(amount, r_in, r_out, ts, fee);
        let back = unzap(
            minted,
            r_in + s + dep_in,
            r_out - out + dep_out,
            ts + minted,
            fee,
        );
        let a = 1_000 - fee;
        let price = ceil(r_in + s, r_out - out);
        let lp_price = ceil(r_in + s, ts + minted);
        assert!(back <= s + dep_in);
        assert!(
            1_000_000 * (s + dep_in - back)
                < s * (1_000_000 - a * a) + 1_000_000 * (2 + 3 * price + 2 * lp_price)
        );
    }
}
