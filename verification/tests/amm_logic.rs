use ruint::Uint;
use zippo::amm_logic::{
    calculate_amount_in_for_exact_lp, calculate_lp_for_exact_out, calculate_single_side_swap,
    calculate_swap_out, integer_sqrt, mul_div,
};
use zippo::wide::U256;

type Big = Uint<256, 4>;

#[test]
fn sqrt_zero_one() {
    assert_eq!(integer_sqrt(U256::from_u128(0u128)), U256::from_u128(0));
    assert_eq!(integer_sqrt(U256::from_u128(1u128)), U256::from_u128(1u128));
}

#[test]
fn sqrt_perfect_squares() {
    assert_eq!(integer_sqrt(U256::from_u128(4u128)), U256::from_u128(2u128));
    assert_eq!(integer_sqrt(U256::from_u128(100u128)), U256::from_u128(10u128));
    assert_eq!(integer_sqrt(U256::from_u128(10_000u128)), U256::from_u128(100u128));
}

#[test]
fn sqrt_floor_for_non_squares() {
    assert_eq!(integer_sqrt(U256::from_u128(99u128)), U256::from_u128(9u128));
    assert_eq!(integer_sqrt(U256::from_u128(2u128)), U256::from_u128(1u128));
    assert_eq!(integer_sqrt(U256::from_u128(10u128)), U256::from_u128(3u128));
}

#[test]
fn sqrt_large_power_of_two() {
    // sqrt(2^200) == 2^100
    let n: Big = Big::from(1u128) << 200;
    let expected: Big = Big::from(1u128) << 100;
    let root = integer_sqrt(U256 { limbs: n.into_limbs() });
    assert_eq!(root, U256 { limbs: expected.into_limbs() });
}

// mul_div

#[test]
fn mul_div_basic() {
    assert_eq!(mul_div(10, 20, 5), 40);
    assert_eq!(mul_div(7, 11, 13), 7 * 11 / 13);
}

#[test]
fn mul_div_zeros() {
    assert_eq!(mul_div(0, 100, 5), 0);
    assert_eq!(mul_div(100, 0, 5), 0);
    assert_eq!(mul_div(100, 200, 0), 0); // protected division by zero
}

#[test]
fn mul_div_no_u128_overflow() {
    // u128::MAX * 3 / 3 must not overflow because we go through U256.
    assert_eq!(mul_div(u128::MAX, 3, 3), u128::MAX);
    assert_eq!(mul_div(u128::MAX, 2, 4), u128::MAX / 2);
}

// calculate_swap_out

#[test]
fn swap_out_equal_reserves_1pct_fee() {
    // a=990, in=100, R_in=R_out=1000
    // in_with_fee = 99000
    // num = 99000 * 1000 = 99_000_000
    // den = 1000*1000 + 99000 = 1_099_000
    // out = 99_000_000 / 1_099_000 = 90 (floor)
    let out = calculate_swap_out(100, 1000, 1000, 10).unwrap();
    assert_eq!(out, 90);
}

#[test]
fn swap_out_zero_fee() {
    // No fee: out = in * R_out / (R_in + in)
    // 100 * 1000 / 1100 = 90
    let out = calculate_swap_out(100, 1000, 1000, 0).unwrap();
    assert_eq!(out, 90);
}

#[test]
fn swap_out_invariant_grows_under_fee() {
    // With fee, the invariant K = R_in*R_out grows after the swap.
    let r_in: u128 = 1_000_000;
    let r_out: u128 = 1_000_000;
    let amount_in: u128 = 10_000;
    let fee = 10;

    let out = calculate_swap_out(amount_in, r_in, r_out, fee).unwrap();
    let k_before = Big::from(r_in) * Big::from(r_out);
    let k_after = Big::from(r_in + amount_in) * Big::from(r_out - out);
    assert!(k_after > k_before, "K must grow due to fee");
}

#[test]
fn swap_out_errors_on_zero() {
    assert!(calculate_swap_out(0, 1000, 1000, 10).is_err());
    assert!(calculate_swap_out(100, 0, 1000, 10).is_err());
    assert!(calculate_swap_out(100, 1000, 0, 10).is_err());
}

// calculate_single_side_swap

/// Check via a **practical criterion**: simulate what execute_zap
/// does after the swap (proportional cap), and count how many units
/// of input are lost as dust. That dust must be a small fraction of
/// `amount`, otherwise the formula is incorrect.
///
/// `max_dust_bps` - allowed dust in bps (`100 = 1%`). For tiny pools
/// (where `amount/reserve > 1%`) we allow more slack because of
/// integer rounding; for normal pools we expect single-digit wei.
fn assert_dust_below(
    amount: u128,
    r_in: u128,
    r_out: u128,
    fee: u128,
    max_dust_bps: u128,
) {
    let s = calculate_single_side_swap(amount, r_in, fee);
    assert!(s > 0, "s must be positive; amount={}, r_in={}", amount, r_in);
    assert!(s < amount, "s must leave depositable remainder");

    let out = calculate_swap_out(s, r_in, r_out, fee).unwrap();
    assert!(out > 0, "swap output must be positive");

    let keep = amount - s;
    let new_r_in = r_in + s;
    let new_r_out = r_out - out;

    // Same proportional cap as in execute_zap.
    let out_for_in = mul_div(keep, new_r_out, new_r_in);
    let (deposit_in, deposit_out) = if out_for_in <= out {
        (keep, out_for_in)
    } else {
        let in_for_out = mul_div(out, new_r_in, new_r_out);
        (in_for_out, out)
    };

    let dust_in = keep - deposit_in;
    let dust_out = out - deposit_out;

    // Convert dust_out into "input units" at the new pool price.
    let dust_out_as_in = mul_div(dust_out, new_r_in, new_r_out);
    let total_dust = dust_in + dust_out_as_in;

    let limit = amount * max_dust_bps / 10_000;
    assert!(
        total_dust <= limit,
        "dust > {}bps: amount={}, r_in={}, r_out={}, fee={}, s={}, out={}, dust_in={}, dust_out={} (as in: {}), limit={}",
        max_dust_bps, amount, r_in, r_out, fee, s, out, dust_in, dust_out, dust_out_as_in, limit
    );
}

#[test]
fn single_side_equal_reserves_small() {
    // Small pools - rounding produces up to 1% dust. Tolerated:
    // dust is bounded by ~1 unit per ~50 wei of deposit.
    assert_dust_below(100, 1_000, 1_000, 10, 200); // <= 2%
}

#[test]
fn single_side_equal_reserves_medium() {
    // Medium pools - dust drops to a fraction of a percent.
    assert_dust_below(1_000, 10_000, 10_000, 10, 50);     // <= 0.5%
    assert_dust_below(50_000, 1_000_000, 1_000_000, 10, 10); // <= 0.1%
}

#[test]
fn single_side_equal_reserves_large() {
    // Large pools - dust is negligible.
    assert_dust_below(1_000_000_000, 1_000_000_000_000, 1_000_000_000_000, 10, 1); // <= 0.01%
}

#[test]
fn single_side_asymmetric_reserves() {
    // input-side << output-side: lots of output for s
    assert_dust_below(1_000, 10_000, 1_000_000, 10, 100);
    // input-side >> output-side: little output for s
    assert_dust_below(1_000, 1_000_000, 10_000, 10, 100);
}

#[test]
fn single_side_high_fee() {
    // 5% (50/1000) - optimal s shifts but the formula still holds
    assert_dust_below(10_000, 1_000_000, 1_000_000, 50, 10);
}

#[test]
fn single_side_zero_fee() {
    // No fee: s -> A/2 for symmetric reserves
    let s = calculate_single_side_swap(1_000, 1_000_000, 0);
    assert!(s > 0);
    // ~A/2 when the pool is large relative to amount
    let s_i = s as i128;
    assert!((s_i - 500).abs() < 5, "s should be ~A/2, got {}", s);
    // With fee=0, floor(s*) sheds up to ~1 swap unit, which for
    // tiny amounts yields a few wei of dust. Allow 50 bps.
    assert_dust_below(1_000, 1_000_000, 1_000_000, 0, 50);
}

#[test]
fn single_side_zero_fee_large_amount() {
    // At realistic volumes rounding becomes invisible.
    assert_dust_below(1_000_000, 1_000_000_000, 1_000_000_000, 0, 1);
}

#[test]
fn single_side_zero_inputs() {
    assert_eq!(calculate_single_side_swap(0, 1000, 10), 0);
    assert_eq!(calculate_single_side_swap(100, 0, 10), 0);
}

#[test]
fn single_side_keeps_at_least_one_unit() {
    // s must never equal amount (no remainder to deposit)
    let s = calculate_single_side_swap(100, 10_000, 10);
    assert!(s < 100);
}

// calculate_amount_in_for_exact_lp

/// Forward/inverse consistency: given amount_in, compute LP via
/// forward zap. Then run inverse on that LP - recovered amount_in
/// should be ~ what went in (rounding differences <= 0.1%).
fn assert_round_trip(amount_in: u128, r_in: u128, r_out: u128, ts: u128, fee: u128) {
    // FORWARD: solve for L given A_in
    let s = calculate_single_side_swap(amount_in, r_in, fee);
    assert!(s > 0 && s < amount_in);
    let out = calculate_swap_out(s, r_in, r_out, fee).unwrap();
    let keep = amount_in - s;
    let new_r_in = r_in + s;
    let new_r_out = r_out - out;
    let one_for_zero = mul_div(keep, new_r_out, new_r_in);
    let (dep_in, dep_out) = if one_for_zero <= out {
        (keep, one_for_zero)
    } else {
        (mul_div(out, new_r_in, new_r_out), out)
    };
    let lp_a = Big::from(dep_in) * Big::from(ts) / Big::from(new_r_in);
    let lp_b = Big::from(dep_out) * Big::from(ts) / Big::from(new_r_out);
    let lp_forward: u128 = (if lp_a < lp_b { lp_a } else { lp_b }).try_into().unwrap();
    assert!(lp_forward > 0);

    // INVERSE: given L, find required A_in. Should be ~ what went in.
    let (amount_in_inv, s_inv) =
        calculate_amount_in_for_exact_lp(lp_forward, r_in, ts, fee).unwrap();

    // Required input must be <= what went in (we round UP slightly, so could be
    // a hair higher; let it within 0.1% slack).
    let diff = if amount_in_inv > amount_in {
        amount_in_inv - amount_in
    } else {
        amount_in - amount_in_inv
    };
    let tol = (amount_in / 1000).max(10);
    assert!(
        diff <= tol,
        "inverse A_in {} differs from forward {} by {} (>{:.2}%)",
        amount_in_inv, amount_in, diff, (tol as f64 / amount_in as f64) * 100.0
    );
    // Also check swap s consistency
    let s_diff = if s_inv > s { s_inv - s } else { s - s_inv };
    let s_tol = (s / 1000).max(10);
    assert!(s_diff <= s_tol, "inverse s {} differs from forward {} by {}", s_inv, s, s_diff);
}

#[test]
fn inverse_round_trip_medium() {
    assert_round_trip(50_000_000, 1_000_000, 1_000_000, 1_000_000, 10);
    assert_round_trip(10_000_000, 100_000_000, 100_000_000, 100_000_000, 10);
}

#[test]
fn inverse_round_trip_asymmetric() {
    assert_round_trip(10_000_000, 100_000_000, 10_000_000, 31_622_776, 10);
    assert_round_trip(10_000_000, 10_000_000, 100_000_000, 31_622_776, 10);
}

#[test]
fn inverse_round_trip_large() {
    assert_round_trip(
        1_000_000_000_000,
        10_000_000_000_000,
        10_000_000_000_000,
        10_000_000_000_000,
        10,
    );
}

#[test]
fn inverse_errors_on_zero() {
    assert!(calculate_amount_in_for_exact_lp(0, 1000, 1000, 10).is_err());
    assert!(calculate_amount_in_for_exact_lp(100, 0, 1000, 10).is_err());
    assert!(calculate_amount_in_for_exact_lp(100, 1000, 0, 10).is_err());
    assert!(calculate_amount_in_for_exact_lp(100, 1000, 1000, 1000).is_err()); // fee=1000 -> a=0
}

// calculate_lp_for_exact_out (ZapOut inverse)

/// Forward/inverse round-trip for ZapOut: given LP `L`, compute T
/// using ZapOut math (withdraw + swap), then ask inverse to find L'
/// from T. Should recover L within rounding.
fn assert_zap_out_round_trip(
    liquidity: u128,
    r_a: u128, // output side reserve
    r_b: u128, // other side
    ts: u128,
    fee: u128,
) {
    // FORWARD: simulate ZapOut to compute T
    let amt_a: u128 = (Big::from(liquidity) * Big::from(r_a) / Big::from(ts))
        .try_into()
        .unwrap();
    let amt_b: u128 = (Big::from(liquidity) * Big::from(r_b) / Big::from(ts))
        .try_into()
        .unwrap();
    let new_r_a = r_a - amt_a;
    let new_r_b = r_b - amt_b;
    let swap_out = calculate_swap_out(amt_b, new_r_b, new_r_a, fee).unwrap();
    let t_forward: u128 = amt_a + swap_out;
    assert!(t_forward > 0);

    // INVERSE: given T, find L'. Should be ~ L (slightly higher due to ceil).
    let l_inverse = calculate_lp_for_exact_out(t_forward, r_a, ts, fee).unwrap();

    let diff = if l_inverse > liquidity {
        l_inverse - liquidity
    } else {
        liquidity - l_inverse
    };
    let tol = (liquidity / 1000).max(10);
    assert!(
        diff <= tol,
        "inverse L {} differs from forward {} by {} (>{:.2}%)",
        l_inverse,
        liquidity,
        diff,
        (tol as f64 / liquidity as f64) * 100.0
    );
}

#[test]
fn zap_out_inverse_symmetric_pool() {
    assert_zap_out_round_trip(10_000_000, 100_000_000, 100_000_000, 100_000_000, 10);
    assert_zap_out_round_trip(50_000_000, 100_000_000, 100_000_000, 100_000_000, 10);
}

#[test]
fn zap_out_inverse_asymmetric_pool() {
    // Pool 2:1 ratio
    assert_zap_out_round_trip(10_000_000, 200_000_000, 100_000_000, 100_000_000, 10);
    assert_zap_out_round_trip(10_000_000, 50_000_000, 200_000_000, 100_000_000, 10);
}

#[test]
fn zap_out_inverse_high_fee() {
    // 5% fee
    assert_zap_out_round_trip(10_000_000, 100_000_000, 100_000_000, 100_000_000, 50);
}

#[test]
fn zap_out_inverse_errors() {
    assert!(calculate_lp_for_exact_out(0, 1000, 1000, 10).is_err());
    assert!(calculate_lp_for_exact_out(100, 0, 1000, 10).is_err());
    assert!(calculate_lp_for_exact_out(100, 1000, 0, 10).is_err());
    // T >= R_a (requesting more output than the side holds)
    assert!(calculate_lp_for_exact_out(2000, 1000, 1000, 10).is_err());
    assert!(calculate_lp_for_exact_out(1000, 1000, 1000, 10).is_err());
    assert!(calculate_lp_for_exact_out(100, 1000, 1000, 1000).is_err()); // fee=1000
}

#[test]
fn single_side_huge_values() {
    // ~u128 / 1e6 - must not overflow thanks to U256
    let amount = u128::MAX / 1_000_000;
    let r_in = u128::MAX / 2_000_000;
    let r_out = u128::MAX / 2_000_000;
    assert_dust_below(amount, r_in, r_out, 10, 100);
}
