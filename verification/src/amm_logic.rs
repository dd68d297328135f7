//! Pool mathematics of the single-side zap.
//!
//! Fee model: `fee_per_1000` (`10` means 1%). The full input is added to the
//! reserve; the fee stays inside the constant product.

use crate::types::{capped, ZapError};
use crate::wide::{lemma_wide_room, U256, U512};
use vstd::arithmetic::div_mod::lemma_fundamental_div_mod;
use vstd::arithmetic::mul::lemma_mul_upper_bound;
use vstd::arithmetic::power2::{
    lemma2_to64, lemma_pow2_adds, lemma_pow2_pos, lemma_pow2_strictly_increases, lemma_pow2_unfold,
    pow2,
};
use vstd::prelude::*;

verus! {

/// Whether `r` is the square root of `n`, rounded down.
pub open spec fn is_isqrt(r: nat, n: nat) -> bool {
    r * r <= n < (r + 1) * (r + 1)
}

/// The integer square root, rounded down.
pub open spec fn isqrt(n: nat) -> nat {
    choose|r: nat| is_isqrt(r, n)
}

/// A number has one integer square root.
pub proof fn lemma_isqrt_unique(a: nat, b: nat, n: nat)
    requires
        is_isqrt(a, n),
        is_isqrt(b, n),
    ensures
        a == b,
{
    if a < b {
        lemma_mul_upper_bound((a + 1) as int, b as int, (a + 1) as int, b as int);
    } else if b < a {
        lemma_mul_upper_bound((b + 1) as int, a as int, (b + 1) as int, a as int);
    }
}

/// Every number has an integer square root.
pub proof fn lemma_isqrt(n: nat)
    ensures
        is_isqrt(isqrt(n), n),
    decreases n,
{
    if n == 0 {
        assert(is_isqrt(0, 0)) by (nonlinear_arith);
    } else {
        let below = (n - 1) as nat;
        lemma_isqrt(below);
        let r = isqrt(below);
        if n < (r + 1) * (r + 1) {
            assert(is_isqrt(r, n));
        } else {
            assert((r + 1) * (r + 1) < (r + 1 + 1) * (r + 1 + 1)) by (nonlinear_arith);
            assert(is_isqrt(r + 1, n));
        }
    }
}

/// Whatever the guess `x`, the mean of `x` and `n / x` is at least the square
/// root of `n`.
proof fn lemma_babylonian_step(n: nat, x: nat)
    requires
        0 < x <= n,
    ensures
        n < ((x + n / x) / 2 + 1) * ((x + n / x) / 2 + 1),
        x + n / x <= n + 1,
        (x + n / x) / 2 > 0,
        x <= (x + n / x) / 2 ==> x * x <= n,
{
    let q = n / x;
    let y = (x + q) / 2;
    lemma_fundamental_div_mod(n as int, x as int);
    assert(x * q <= n < x * (q + 1)) by (nonlinear_arith)
        requires
            n == x * q + n % x,
            0 <= n % x < x,
    ;
    assert(q >= 1) by (nonlinear_arith)
        requires
            x <= n < x * (q + 1),
            0 < x,
    ;
    assert(x + q <= x * q + 1) by (nonlinear_arith)
        requires
            x >= 1,
            q >= 1,
    ;
    assert(n < (y + 1) * (y + 1)) by (nonlinear_arith)
        requires
            n < x * (q + 1),
            2 * (y + 1) >= x + q + 1,
    ;
    if x <= y {
        assert(x * x <= x * q) by (nonlinear_arith)
            requires
                x <= q,
        ;
    }
}

/// Babylonian square root over 512 bits.
fn integer_sqrt_wide(n: &U512) -> (r: U512)
    requires
        n@ < pow2(512) - 1,
    ensures
        is_isqrt(r@, n@),
        r@ <= n@,
{
    if n.is_zero() {
        proof {
            assert(n@ * n@ == 0 && (n@ + 1) * (n@ + 1) == 1) by (nonlinear_arith)
                requires
                    n@ == 0,
            ;
        }
        return *n;
    }
    let one = U512::from_u128(1);
    let two = U512::from_u128(2);
    let mut x: U512 = *n;
    let mut y: U512 = x.plus(&one).divided_by(&two);
    proof {
        lemma_babylonian_step(n@, x@);
        assert(n@ / n@ == 1) by (nonlinear_arith)
            requires
                n@ > 0,
        ;
        assert(n@ < (n@ + 1) * (n@ + 1)) by (nonlinear_arith);
    }
    while y.less_than(&x)
        invariant
            n@ < pow2(512) - 1,
            two@ == 2,
            0 < x@ <= n@,
            0 < y@,
            y@ == (x@ + n@ / x@) / 2,
            n@ < (x@ + 1) * (x@ + 1),
        decreases x@,
    {
        proof {
            lemma_babylonian_step(n@, x@);
            lemma_babylonian_step(n@, y@);
        }
        x = y;
        y = x.plus(&n.divided_by(&x)).divided_by(&two);
    }
    proof {
        lemma_babylonian_step(n@, x@);
    }
    x
}

/// Babylonian integer square root over 256 bits.
pub fn integer_sqrt(n: U256) -> (r: U256)
    ensures
        is_isqrt(r@, n@),
{
    let wide = n.widen();
    proof {
        lemma_pow2_strictly_increases(256, 512);
    }
    let root = integer_sqrt_wide(&wide);
    proof {
        lemma2_to64();
        lemma_pow2_adds(64, 64);
        lemma_pow2_adds(128, 128);
        if root@ > u128::MAX {
            lemma_mul_upper_bound(
                pow2(128) as int,
                root@ as int,
                pow2(128) as int,
                root@ as int,
            );
        }
    }
    U256::from_u128(root.into_u128())
}

/// Parts per thousand of a swap's input that are traded after the fee.
pub open spec fn traded_per_1000(fee_per_1000: nat) -> nat {
    if fee_per_1000 >= 1000 {
        0
    } else {
        (1000 - fee_per_1000) as nat
    }
}

/// The quotient rounded up.
pub open spec fn ceil_div(n: nat, d: nat) -> nat {
    ((n + d - 1) / (d as int)) as nat
}

/// What a constant-product pool pays for `amount_in`, rounded down.
pub open spec fn swap_out(amount_in: nat, reserve_in: nat, reserve_out: nat, fee: nat) -> nat {
    (amount_in * traded_per_1000(fee) * reserve_out) / (reserve_in * 1000 + amount_in
        * traded_per_1000(fee))
}

/// The payout is below the reserve that it comes from.
pub proof fn lemma_swap_out_below_reserve(
    amount_in: nat,
    reserve_in: nat,
    reserve_out: nat,
    fee: nat,
)
    requires
        reserve_in > 0,
        reserve_out > 0,
    ensures
        swap_out(amount_in, reserve_in, reserve_out, fee) < reserve_out,
{
    let t = amount_in * traded_per_1000(fee);
    let d = reserve_in * 1000 + t;
    let q = (t * reserve_out) / d;
    assert(t >= 0 && d > 0) by (nonlinear_arith)
        requires
            t == amount_in * traded_per_1000(fee),
            d == reserve_in * 1000 + t,
            reserve_in > 0,
    ;
    lemma_fundamental_div_mod((t * reserve_out) as int, d as int);
    assert(q < reserve_out) by (nonlinear_arith)
        requires
            d * q <= t * reserve_out,
            d > t,
            t >= 0,
            reserve_out > 0,
    ;
}

/// Constant-product output with `fee_per_1000`:
/// `amount_in * (1000 - fee) * reserve_out / (reserve_in * 1000 + amount_in * (1000 - fee))`.
pub fn calculate_swap_out(
    amount_in: u128,
    reserve_in: u128,
    reserve_out: u128,
    fee_per_1000: u128,
) -> (r: Result<u128, ZapError>)
    ensures
        r == (if amount_in == 0 {
            Err::<u128, ZapError>(ZapError::ZeroAmountIn)
        } else if reserve_in == 0 || reserve_out == 0 {
            Err(ZapError::NoLiquidity)
        } else {
            Ok(
                swap_out(
                    amount_in as nat,
                    reserve_in as nat,
                    reserve_out as nat,
                    fee_per_1000 as nat,
                ) as u128,
            )
        }),
        r matches Ok(out) ==> out == swap_out(
            amount_in as nat,
            reserve_in as nat,
            reserve_out as nat,
            fee_per_1000 as nat,
        ) && out < reserve_out,
{
    if amount_in == 0 {
        return Err(ZapError::ZeroAmountIn);
    }
    if reserve_in == 0 || reserve_out == 0 {
        return Err(ZapError::NoLiquidity);
    }
    let a: u128 = 1000u128.saturating_sub(fee_per_1000);
    proof {
        let m: int = u128::MAX as int;
        lemma_wide_room();
        lemma_mul_upper_bound(amount_in as int, m, a as int, 1000);
        lemma_mul_upper_bound(amount_in * a, m * 1000, reserve_out as int, m);
        lemma_swap_out_below_reserve(
            amount_in as nat,
            reserve_in as nat,
            reserve_out as nat,
            fee_per_1000 as nat,
        );
    }
    let ai_with_fee = U512::from_u128(amount_in).times(&U512::from_u128(a));
    let numerator = ai_with_fee.times(&U512::from_u128(reserve_out));
    let denominator = U512::from_u128(reserve_in).times(&U512::from_u128(1000)).plus(
        &ai_with_fee,
    );
    Ok(numerator.divided_by(&denominator).into_u128())
}

/// `a * b / c` rounded down, where it is defined and fits in 128 bits.
pub open spec fn mul_div_value(a: nat, b: nat, c: nat) -> u128 {
    if c == 0 || (a * b) / c > u128::MAX {
        0
    } else {
        ((a * b) / c) as u128
    }
}

/// `a * b / c` without overflow of the intermediate product. Zero where `c` is
/// zero or the quotient does not fit in 128 bits.
pub fn mul_div(a: u128, b: u128, c: u128) -> (r: u128)
    ensures
        r == mul_div_value(a as nat, b as nat, c as nat),
{
    if c == 0 {
        return 0;
    }
    proof {
        lemma_wide_room();
        lemma_mul_upper_bound(a as int, u128::MAX as int, b as int, u128::MAX as int);
    }
    let quotient = U512::from_u128(a).times(&U512::from_u128(b)).divided_by(&U512::from_u128(c));
    match quotient.to_u128() {
        Some(value) => value,
        None => 0,
    }
}

/// Whether swapping `s` out of `amount_in` leaves at least as much input for
/// the deposit as the swapped part can be matched with: the quadratic
/// `a*s^2 + R*(1000+a)*s - 1000*A*R`, with `a` the traded share, is not positive.
pub open spec fn split_is_covered(s: nat, amount_in: nat, reserve_in: nat, fee: nat) -> bool {
    traded_per_1000(fee) * (s * s) + reserve_in * (1000 + traded_per_1000(fee)) * s <= 1000
        * amount_in * reserve_in
}

/// The largest split that is still covered.
pub open spec fn is_optimal_split(s: nat, amount_in: nat, reserve_in: nat, fee: nat) -> bool {
    &&& split_is_covered(s, amount_in, reserve_in, fee)
    &&& !split_is_covered(s + 1, amount_in, reserve_in, fee)
}

/// The part of `amount_in` to swap, zero where there is nothing to split.
pub open spec fn optimal_split(amount_in: nat, reserve_in: nat, fee: nat) -> nat {
    if amount_in == 0 || reserve_in == 0 || traded_per_1000(fee) == 0 {
        0
    } else {
        choose|s: nat| is_optimal_split(s, amount_in, reserve_in, fee)
    }
}

/// A smaller split is covered where a larger one is.
proof fn lemma_split_monotone(s: nat, t: nat, amount_in: nat, reserve_in: nat, fee: nat)
    requires
        s <= t,
        split_is_covered(t, amount_in, reserve_in, fee),
    ensures
        split_is_covered(s, amount_in, reserve_in, fee),
{
    let a = traded_per_1000(fee);
    let m = reserve_in * (1000 + a);
    assert(m >= 0) by (nonlinear_arith)
        requires
            m == reserve_in * (1000 + a),
    ;
    lemma_mul_upper_bound(s as int, t as int, s as int, t as int);
    assert(s * s >= 0) by (nonlinear_arith);
    lemma_mul_upper_bound(a as int, a as int, (s * s) as int, (t * t) as int);
    lemma_mul_upper_bound(m as int, m as int, s as int, t as int);
}

/// A split that is optimal is the only one that is, and leaves input over.
pub proof fn lemma_optimal_split(s: nat, amount_in: nat, reserve_in: nat, fee: nat)
    requires
        amount_in > 0,
        reserve_in > 0,
        traded_per_1000(fee) > 0,
        is_optimal_split(s, amount_in, reserve_in, fee),
    ensures
        optimal_split(amount_in, reserve_in, fee) == s,
        s < amount_in,
{
    let a = traded_per_1000(fee);
    let t = optimal_split(amount_in, reserve_in, fee);
    assert(is_optimal_split(t, amount_in, reserve_in, fee));
    if s < t {
        lemma_split_monotone(s + 1, t, amount_in, reserve_in, fee);
    } else if t < s {
        lemma_split_monotone(t + 1, s, amount_in, reserve_in, fee);
    }
    if s >= amount_in {
        lemma_split_monotone(amount_in, s, amount_in, reserve_in, fee);
        assert(a * (amount_in * amount_in) + reserve_in * (1000 + a) * amount_in > 1000 * amount_in
            * reserve_in) by (nonlinear_arith)
            requires
                a > 0,
                amount_in > 0,
                reserve_in > 0,
        ;
    }
}

/// Between a split that is covered and one that is not lies an optimal one.
proof fn lemma_split_boundary(low: nat, high: nat, amount_in: nat, reserve_in: nat, fee: nat)
    requires
        low < high,
        split_is_covered(low, amount_in, reserve_in, fee),
        !split_is_covered(high, amount_in, reserve_in, fee),
    ensures
        exists|s: nat| is_optimal_split(s, amount_in, reserve_in, fee),
    decreases high - low,
{
    if low + 1 == high {
        assert(is_optimal_split(low, amount_in, reserve_in, fee));
    } else if split_is_covered(low + 1, amount_in, reserve_in, fee) {
        lemma_split_boundary(low + 1, high, amount_in, reserve_in, fee);
    } else {
        assert(is_optimal_split(low, amount_in, reserve_in, fee));
    }
}

/// Where there is something to split, there is an optimal split, and it leaves
/// input over.
pub proof fn lemma_optimal_split_exists(amount_in: nat, reserve_in: nat, fee: nat)
    requires
        amount_in > 0,
        reserve_in > 0,
        traded_per_1000(fee) > 0,
    ensures
        is_optimal_split(
            optimal_split(amount_in, reserve_in, fee),
            amount_in,
            reserve_in,
            fee,
        ),
        optimal_split(amount_in, reserve_in, fee) < amount_in,
{
    let a = traded_per_1000(fee);
    assert(split_is_covered(0, amount_in, reserve_in, fee)) by {
        assert(a * (0 * 0) + reserve_in * (1000 + a) * 0 <= 1000 * amount_in * reserve_in)
            by (nonlinear_arith)
            requires
                a >= 0,
                reserve_in >= 0,
                amount_in >= 0,
        ;
    }
    assert(a * (amount_in * amount_in) + reserve_in * (1000 + a) * amount_in > 1000 * amount_in
        * reserve_in) by (nonlinear_arith)
        requires
            a > 0,
            amount_in > 0,
            reserve_in > 0,
    ;
    lemma_split_boundary(0, amount_in, amount_in, reserve_in, fee);
    lemma_optimal_split(
        optimal_split(amount_in, reserve_in, fee),
        amount_in,
        reserve_in,
        fee,
    );
}

/// The quadratic formula, rounded down, gives the optimal split.
proof fn lemma_quadratic_root(
    s: nat,
    root: nat,
    amount_in: nat,
    reserve_in: nat,
    fee: nat,
    a: nat,
    m: nat,
    c: nat,
)
    requires
        a == traded_per_1000(fee),
        a > 0,
        m == reserve_in * (1000 + a),
        c == 1000 * amount_in * reserve_in,
        is_isqrt(root, m * m + 4 * a * c),
        root >= m,
        s == (root - m) / (2 * a as int),
    ensures
        is_optimal_split(s, amount_in, reserve_in, fee),
{
    let num = (root - m) as nat;
    let t = s + 1;
    lemma_fundamental_div_mod(num as int, 2 * a as int);
    assert(2 * a * s <= num < 2 * a * t) by (nonlinear_arith)
        requires
            num == 2 * a * s + num % (2 * a),
            0 <= num % (2 * a) < 2 * a,
            t == s + 1,
    ;
    let low = 2 * a * s + m;
    let high = 2 * a * t + m;
    assert(low * low <= root * root) by (nonlinear_arith)
        requires
            0 <= low <= root,
    ;
    assert((root + 1) * (root + 1) <= high * high) by (nonlinear_arith)
        requires
            0 <= root + 1 <= high,
    ;
    assert(low * low == m * m + 4 * a * (a * (s * s) + m * s)) by (nonlinear_arith)
        requires
            low == 2 * a * s + m,
    ;
    assert(high * high == m * m + 4 * a * (a * (t * t) + m * t)) by (nonlinear_arith)
        requires
            high == 2 * a * t + m,
    ;
    assert(a * (s * s) + m * s <= c) by (nonlinear_arith)
        requires
            4 * a * (a * (s * s) + m * s) <= 4 * a * c,
            a > 0,
    ;
    assert(a * (t * t) + m * t > c) by (nonlinear_arith)
        requires
            4 * a * (a * (t * t) + m * t) > 4 * a * c,
            a > 0,
    ;
}

/// Optimal swap split for the single-side zap.
///
/// The caller has `amount_in` of a token whose reserve in the pool is
/// `reserve_in`. After `s` of it has been swapped, what remains and what the
/// swap paid out match the pool's new ratio. `s` solves
/// `a*s^2 + R*(1000+a)*s - 1000*A*R = 0`, rounded down, where `a = 1000 - fee`.
pub fn calculate_single_side_swap(amount_in: u128, reserve_in: u128, fee_per_1000: u128) -> (r:
    u128)
    ensures
        r == optimal_split(amount_in as nat, reserve_in as nat, fee_per_1000 as nat),
        amount_in > 0 && reserve_in > 0 && fee_per_1000 < 1000 ==> is_optimal_split(
            r as nat,
            amount_in as nat,
            reserve_in as nat,
            fee_per_1000 as nat,
        ),
        amount_in > 0 ==> r < amount_in,
{
    if amount_in == 0 || reserve_in == 0 {
        return 0;
    }
    let a: u128 = 1000u128.saturating_sub(fee_per_1000);
    if a == 0 {
        return 0;
    }
    let k: u128 = 1000 + a;
    let ghost m: nat = (reserve_in * k) as nat;
    let ghost c: nat = (1000 * amount_in * reserve_in) as nat;
    let ghost inner: nat = (reserve_in * k * k + 4 * a * 1000 * amount_in) as nat;
    proof {
        let big: int = u128::MAX as int;
        lemma_wide_room();
        lemma_mul_upper_bound(reserve_in as int, big, k as int, 2000);
        lemma_mul_upper_bound(reserve_in * k, big * 2000, k as int, 2000);
        lemma_mul_upper_bound(4 * a * 1000, 4_000_000, amount_in as int, big);
        lemma_mul_upper_bound(reserve_in as int, big, inner as int, big * 8_000_000);
        assert(reserve_in * inner == m * m + 4 * a * c) by (nonlinear_arith)
            requires
                m == reserve_in * k,
                c == 1000 * amount_in * reserve_in,
                inner == reserve_in * k * k + 4 * a * 1000 * amount_in,
        ;
        assert(4 * a * c >= 0) by (nonlinear_arith)
            requires
                a >= 0,
                c >= 0,
        ;
    }
    let big_a = U512::from_u128(amount_in);
    let rx = U512::from_u128(reserve_in);
    let wide_k = U512::from_u128(k);
    let rx_k = rx.times(&wide_k);
    let disc = rx.times(&rx_k.times(&wide_k).plus(&U512::from_u128(4 * a * 1000).times(&big_a)));
    let sqrt_disc = integer_sqrt_wide(&disc);
    proof {
        if sqrt_disc@ < m {
            lemma_mul_upper_bound(
                (sqrt_disc@ + 1) as int,
                m as int,
                (sqrt_disc@ + 1) as int,
                m as int,
            );
        }
        let s = ((sqrt_disc@ - m) / (2 * a as int)) as nat;
        lemma_quadratic_root(
            s,
            sqrt_disc@,
            amount_in as nat,
            reserve_in as nat,
            fee_per_1000 as nat,
            a as nat,
            m,
            c,
        );
        lemma_optimal_split(s, amount_in as nat, reserve_in as nat, fee_per_1000 as nat);
    }
    sqrt_disc.minus(&rx_k).divided_by(&U512::from_u128(2 * a)).into_u128()
}

/// A quotient rounded up is the least one that covers the numerator.
pub proof fn lemma_ceil_div(n: nat, d: nat)
    requires
        d > 0,
    ensures
        ceil_div(n, d) * d >= n,
        ceil_div(n, d) * d < n + d,
        n > 0 ==> ceil_div(n, d) > 0,
{
    let q = ceil_div(n, d);
    lemma_fundamental_div_mod(n + d - 1, d as int);
    assert(q >= 0) by (nonlinear_arith)
        requires
            q == (n + d - 1) / (d as int),
            n + d - 1 >= 0,
            d > 0,
    ;
    assert(d * q == q * d) by (nonlinear_arith);
    if n > 0 && q == 0 {
        assert(q * d == 0) by (nonlinear_arith)
            requires
                q == 0,
        ;
    }
}

/// `L * 1000 * R / ((1000 - fee) * ts)` rounded up: what has to be swapped for
/// the swap's output to carry `lp_out`.
pub open spec fn inverse_swap(lp_out: nat, reserve_in: nat, total_supply: nat, fee: nat) -> nat {
    ceil_div(lp_out * 1000 * reserve_in, traded_per_1000(fee) * total_supply)
}

/// The swapped part plus `L * (R + s) / ts` rounded up, the deposit that carries
/// `lp_out` on the input side.
pub open spec fn inverse_amount(lp_out: nat, reserve_in: nat, total_supply: nat, fee: nat) -> nat {
    let s = inverse_swap(lp_out, reserve_in, total_supply, fee);
    s + ceil_div(lp_out * (reserve_in + s), total_supply)
}

/// The first reason, if any, why the inverse zap has no answer.
pub open spec fn inverse_refusal(
    lp_out: nat,
    reserve_in: nat,
    total_supply: nat,
    fee: nat,
) -> Option<ZapError> {
    if lp_out == 0 {
        Some(ZapError::ZeroLpOut)
    } else if reserve_in == 0 {
        Some(ZapError::ZeroInputReserve)
    } else if total_supply == 0 {
        Some(ZapError::ZeroTotalSupply)
    } else if fee >= 1000 {
        Some(ZapError::FeeTooHigh)
    } else if inverse_swap(lp_out, reserve_in, total_supply, fee) > u128::MAX {
        Some(ZapError::SwapAmountOverflow)
    } else if inverse_amount(lp_out, reserve_in, total_supply, fee) > u128::MAX {
        Some(ZapError::AmountInOverflow)
    } else {
        None
    }
}

/// Inverse zap: the input and the swapped part of it that make the pool mint
/// `lp_out`, in closed form.
///
/// `s = L * 1000 * R / ((1000 - fee) * ts)` and `A = s + L * (R + s) / ts`, both
/// rounded up. The pool's own integer floors can still shave the mint to a
/// little less than `lp_out`; `calculate_amount_in_for_exact_lp_checked` makes
/// up for them.
pub fn calculate_amount_in_for_exact_lp(
    lp_out: u128,
    reserve_in: u128,
    total_supply: u128,
    fee_per_1000: u128,
) -> (r: Result<(u128, u128), ZapError>)
    ensures
        match r {
            Ok((amount_in, s)) => {
                &&& inverse_refusal(
                    lp_out as nat,
                    reserve_in as nat,
                    total_supply as nat,
                    fee_per_1000 as nat,
                ) is None
                &&& s == inverse_swap(
                    lp_out as nat,
                    reserve_in as nat,
                    total_supply as nat,
                    fee_per_1000 as nat,
                )
                &&& amount_in == inverse_amount(
                    lp_out as nat,
                    reserve_in as nat,
                    total_supply as nat,
                    fee_per_1000 as nat,
                )
            },
            Err(e) => inverse_refusal(
                lp_out as nat,
                reserve_in as nat,
                total_supply as nat,
                fee_per_1000 as nat,
            ) == Some(e),
        },
{
    if lp_out == 0 {
        return Err(ZapError::ZeroLpOut);
    }
    if reserve_in == 0 {
        return Err(ZapError::ZeroInputReserve);
    }
    if total_supply == 0 {
        return Err(ZapError::ZeroTotalSupply);
    }
    let a: u128 = 1000u128.saturating_sub(fee_per_1000);
    if a == 0 {
        return Err(ZapError::FeeTooHigh);
    }
    let l = U512::from_u128(lp_out);
    let ri = U512::from_u128(reserve_in);
    let ts = U512::from_u128(total_supply);
    let one = U512::from_u128(1);
    proof {
        let big: int = u128::MAX as int;
        lemma_wide_room();
        lemma_mul_upper_bound(lp_out * 1000, big * 1000, reserve_in as int, big);
        lemma_mul_upper_bound(a as int, 1000, total_supply as int, big);
        assert(a * total_supply >= 1) by (nonlinear_arith)
            requires
                a >= 1,
                total_supply >= 1,
        ;
    }
    let s_num = l.times(&U512::from_u128(1000)).times(&ri);
    let s_den = U512::from_u128(a).times(&ts);
    let s = s_num.plus(&s_den).minus(&one).divided_by(&s_den);
    let swap_amount: u128 = match s.to_u128() {
        Some(value) => value,
        None => {
            return Err(ZapError::SwapAmountOverflow);
        },
    };
    proof {
        let big: int = u128::MAX as int;
        lemma_mul_upper_bound(lp_out as int, big, reserve_in + swap_amount, 2 * big);
        lemma_ceil_div((lp_out * (reserve_in + swap_amount)) as nat, total_supply as nat);
        let d = ceil_div((lp_out * (reserve_in + swap_amount)) as nat, total_supply as nat);
        assert(d <= d * total_supply) by (nonlinear_arith)
            requires
                total_supply >= 1,
                d >= 0,
        ;
    }
    let deposit = l.times(&ri.plus(&s)).plus(&ts).minus(&one).divided_by(&ts);
    match s.plus(&deposit).to_u128() {
        Some(amount_in) => Ok((amount_in, swap_amount)),
        None => Err(ZapError::AmountInOverflow),
    }
}

/// `B = R * (2000 - fee) + T * fee`, the middle coefficient of the inverse
/// unzap's quadratic `1000*R*f^2 - B*f + 1000*T = 0`.
pub open spec fn unzap_coefficient(output_amount: nat, reserve: nat, fee: nat) -> nat {
    (reserve * (2000 - fee) + output_amount * fee) as nat
}

/// `B - sqrt(B^2 - 4*10^6*R*T)`: the smaller root times `2000*R`.
pub open spec fn unzap_root(output_amount: nat, reserve: nat, fee: nat) -> nat {
    let b = unzap_coefficient(output_amount, reserve, fee);
    (b - isqrt((b * b - 4_000_000 * reserve * output_amount) as nat)) as nat
}

/// The share of `total_supply` at the smaller root, rounded up.
pub open spec fn unzap_liquidity(
    output_amount: nat,
    reserve: nat,
    total_supply: nat,
    fee: nat,
) -> nat {
    ceil_div(unzap_root(output_amount, reserve, fee) * total_supply, 2000 * reserve)
}

/// The first reason, if any, why the inverse unzap has no answer.
pub open spec fn unzap_refusal(
    output_amount: u128,
    reserve: u128,
    total_supply: u128,
    fee: u128,
) -> Option<ZapError> {
    if output_amount == 0 {
        Some(ZapError::ZeroOutputAmount)
    } else if reserve == 0 {
        Some(ZapError::ZeroOutputReserve)
    } else if total_supply == 0 {
        Some(ZapError::ZeroTotalSupply)
    } else if output_amount >= reserve {
        Some(ZapError::OutputExceedsReserve { output_amount, reserve })
    } else if fee >= 1000 {
        Some(ZapError::FeeTooHigh)
    } else {
        None
    }
}

/// The discriminant of the inverse unzap is positive, and its smaller root lies
/// between zero and one.
pub proof fn lemma_unzap_discriminant(output_amount: nat, reserve: nat, fee: nat)
    requires
        0 < output_amount < reserve,
        fee < 1000,
    ensures
        ({
            let b = unzap_coefficient(output_amount, reserve, fee);
            &&& 4_000_000 * reserve * output_amount < b * b
            &&& 1000 * (reserve + output_amount) < b <= 2000 * reserve
        }),
{
    let b = unzap_coefficient(output_amount, reserve, fee);
    let sum = 1000 * (reserve + output_amount);
    assert(b > sum && b <= 2000 * reserve) by (nonlinear_arith)
        requires
            b == reserve * (2000 - fee) + output_amount * fee,
            sum == 1000 * (reserve + output_amount),
            0 < output_amount < reserve,
            0 <= fee < 1000,
    ;
    assert(b * b > sum * sum) by (nonlinear_arith)
        requires
            b > sum >= 0,
    ;
    assert(sum * sum >= 4_000_000 * reserve * output_amount) by (nonlinear_arith)
        requires
            sum == 1000 * (reserve + output_amount),
    ;
}

/// Inverse unzap: the liquidity to burn so that the withdrawn output side,
/// together with the other side swapped into it, yields `output_amount`.
///
/// The smaller root of `1000*R*f^2 - (R*(2000-fee) + T*fee)*f + 1000*T = 0`
/// times the total supply, rounded up, plus a margin of three units that absorbs
/// the pool's integer floors.
pub fn calculate_lp_for_exact_out(
    output_amount: u128,
    reserve_out_side: u128,
    total_supply: u128,
    fee_per_1000: u128,
) -> (r: Result<u128, ZapError>)
    ensures
        match r {
            Ok(lp) => {
                let l = unzap_liquidity(
                    output_amount as nat,
                    reserve_out_side as nat,
                    total_supply as nat,
                    fee_per_1000 as nat,
                );
                &&& unzap_refusal(output_amount, reserve_out_side, total_supply, fee_per_1000)
                    is None
                &&& lp == capped(l + 3)
                &&& 1 <= l <= total_supply
            },
            Err(e) => unzap_refusal(
                output_amount,
                reserve_out_side,
                total_supply,
                fee_per_1000,
            ) == Some(e),
        },
{
    if output_amount == 0 {
        return Err(ZapError::ZeroOutputAmount);
    }
    if reserve_out_side == 0 {
        return Err(ZapError::ZeroOutputReserve);
    }
    if total_supply == 0 {
        return Err(ZapError::ZeroTotalSupply);
    }
    if output_amount >= reserve_out_side {
        return Err(
            ZapError::OutputExceedsReserve { output_amount, reserve: reserve_out_side },
        );
    }
    if fee_per_1000 >= 1000 {
        return Err(ZapError::FeeTooHigh);
    }
    let ghost b = unzap_coefficient(
        output_amount as nat,
        reserve_out_side as nat,
        fee_per_1000 as nat,
    );
    proof {
        let big: int = u128::MAX as int;
        lemma_wide_room();
        lemma_unzap_discriminant(
            output_amount as nat,
            reserve_out_side as nat,
            fee_per_1000 as nat,
        );
        lemma_mul_upper_bound(reserve_out_side as int, big, 2000 - fee_per_1000, 2000);
        lemma_mul_upper_bound(output_amount as int, big, fee_per_1000 as int, 1000);
        lemma_mul_upper_bound(
            4_000_000 * reserve_out_side,
            4_000_000 * big,
            output_amount as int,
            big,
        );
        lemma_mul_upper_bound(b as int, 2000 * big, b as int, 2000 * big);
        assert(4_000_000 * reserve_out_side * output_amount > 0) by (nonlinear_arith)
            requires
                reserve_out_side > 0,
                output_amount > 0,
        ;
    }
    let r_a = U512::from_u128(reserve_out_side);
    let t = U512::from_u128(output_amount);
    let b_pos = r_a.times(&U512::from_u128(2000 - fee_per_1000)).plus(
        &t.times(&U512::from_u128(fee_per_1000)),
    );
    let four_ac = U512::from_u128(4_000_000).times(&r_a).times(&t);
    let disc = b_pos.times(&b_pos).minus(&four_ac);
    let sqrt_disc = integer_sqrt_wide(&disc);
    proof {
        lemma_isqrt_unique(sqrt_disc@, isqrt(disc@), disc@);
        if sqrt_disc@ >= b {
            lemma_mul_upper_bound(b as int, sqrt_disc@ as int, b as int, sqrt_disc@ as int);
        }
    }
    let f_num = b_pos.minus(&sqrt_disc);
    let f_den = U512::from_u128(2000).times(&r_a);
    proof {
        let big: int = u128::MAX as int;
        lemma_mul_upper_bound(f_num@ as int, 2000 * big, total_supply as int, big);
        let n = f_num@ * (total_supply as nat);
        let l = ceil_div(n, f_den@);
        lemma_ceil_div(n, f_den@);
        assert(n > 0) by (nonlinear_arith)
            requires
                n == f_num@ * (total_supply as nat),
                f_num@ > 0,
                total_supply > 0,
        ;
        assert(n <= total_supply * f_den@) by (nonlinear_arith)
            requires
                n == f_num@ * (total_supply as nat),
                f_num@ <= f_den@,
        ;
        assert(l <= total_supply) by (nonlinear_arith)
            requires
                l * f_den@ < n + f_den@,
                n <= total_supply * f_den@,
                f_den@ > 0,
        ;
    }
    let l: u128 = f_num.times(&U512::from_u128(total_supply)).plus(&f_den).minus(
        &U512::from_u128(1),
    ).divided_by(&f_den).into_u128();
    Ok(l.saturating_add(3))
}

/// The largest deposit in the pool's ratio, rounded down on the side that is
/// not used up.
pub open spec fn planned_deposit(
    have_input: nat,
    have_output: nat,
    reserve_in: nat,
    reserve_out: nat,
) -> (nat, nat) {
    if reserve_in == 0 {
        (have_input, 0)
    } else if (have_input * reserve_out) / reserve_in <= have_output {
        (have_input, (have_input * reserve_out) / reserve_in)
    } else {
        ((have_output * reserve_in) / reserve_out, have_output)
    }
}

/// The deposit takes no more of either side than there is.
pub proof fn lemma_planned_deposit(
    have_input: nat,
    have_output: nat,
    reserve_in: nat,
    reserve_out: nat,
)
    ensures
        planned_deposit(have_input, have_output, reserve_in, reserve_out).0 <= have_input,
        planned_deposit(have_input, have_output, reserve_in, reserve_out).1 <= have_output,
        reserve_in > 0 && (have_input * reserve_out) / reserve_in > have_output ==> reserve_out > 0,
{
    if reserve_in > 0 {
        let n = have_input * reserve_out;
        let q = n / reserve_in;
        lemma_fundamental_div_mod(n as int, reserve_in as int);
        if q > have_output {
            assert(n > 0) by (nonlinear_arith)
                requires
                    n >= reserve_in * q,
                    reserve_in > 0,
                    q > 0,
            ;
            assert(reserve_out > 0) by (nonlinear_arith)
                requires
                    n == have_input * reserve_out,
                    n > 0,
                    reserve_out >= 0,
            ;
            let d = (have_output * reserve_in) / reserve_out;
            lemma_fundamental_div_mod((have_output * reserve_in) as int, reserve_out as int);
            assert(have_output * reserve_in <= reserve_in * q) by (nonlinear_arith)
                requires
                    have_output <= q,
            ;
            assert(d <= have_input) by (nonlinear_arith)
                requires
                    reserve_out * d <= have_input * reserve_out,
                    reserve_out > 0,
            ;
        }
    }
}

/// Caps what is left after the swap to the pool's ratio, so that the deposit
/// gives nothing away: one side goes in whole, the other as far as the ratio
/// allows.
pub fn plan_deposit(have_input: u128, have_output: u128, reserve_in: u128, reserve_out: u128) -> (r:
    (u128, u128))
    ensures
        (r.0 as nat, r.1 as nat) == planned_deposit(
            have_input as nat,
            have_output as nat,
            reserve_in as nat,
            reserve_out as nat,
        ),
        r.0 <= have_input,
        r.1 <= have_output,
{
    if reserve_in == 0 {
        return (have_input, 0);
    }
    proof {
        let big: int = u128::MAX as int;
        lemma_wide_room();
        lemma_mul_upper_bound(have_input as int, big, reserve_out as int, big);
        lemma_mul_upper_bound(have_output as int, big, reserve_in as int, big);
        lemma_planned_deposit(
            have_input as nat,
            have_output as nat,
            reserve_in as nat,
            reserve_out as nat,
        );
    }
    let r_in = U512::from_u128(reserve_in);
    let r_out = U512::from_u128(reserve_out);
    let out_for_in = U512::from_u128(have_input).times(&r_out).divided_by(&r_in);
    if U512::from_u128(have_output).less_than(&out_for_in) {
        let in_for_out = U512::from_u128(have_output).times(&r_in).divided_by(&r_out);
        (in_for_out.into_u128(), have_output)
    } else {
        (have_input, out_for_in.into_u128())
    }
}

/// What a pool mints for a deposit: the smaller of the two sides' shares of the
/// total supply, each rounded down.
pub open spec fn pool_mint(
    deposit_in: nat,
    deposit_out: nat,
    reserve_in: nat,
    reserve_out: nat,
    total_supply: nat,
) -> nat {
    let by_input = (deposit_in * total_supply) / reserve_in;
    let by_output = (deposit_out * total_supply) / reserve_out;
    if by_input < by_output {
        by_input
    } else {
        by_output
    }
}

/// What the zap of `amount_in` mints, through the pool's three roundings: the
/// swap's output, the deposit in the pool's ratio, and the mint. Zero where the
/// zap does not go through.
pub open spec fn predicted_lp(
    amount_in: nat,
    reserve_in: nat,
    reserve_out: nat,
    total_supply: nat,
    fee: nat,
) -> nat {
    let s = optimal_split(amount_in, reserve_in, fee);
    let out = swap_out(s, reserve_in, reserve_out, fee);
    let new_in = capped(reserve_in + s) as nat;
    let new_out = (reserve_out - out) as nat;
    let deposit = planned_deposit((amount_in - s) as nat, out, new_in, new_out);
    let minted = pool_mint(deposit.0, deposit.1, new_in, new_out, total_supply);
    if reserve_in == 0 || reserve_out == 0 || s == 0 || out == 0 || deposit.0 == 0 || deposit.1 == 0
        || minted > u128::MAX {
        0
    } else {
        minted
    }
}

/// Replays the pool's integer arithmetic for a zap of `amount_in`, through the
/// same split, swap and deposit that the execution uses.
pub fn predict_lp_for_amount_in(
    amount_in: u128,
    reserve_in: u128,
    reserve_out: u128,
    total_supply: u128,
    fee_per_1000: u128,
) -> (r: u128)
    ensures
        r == predicted_lp(
            amount_in as nat,
            reserve_in as nat,
            reserve_out as nat,
            total_supply as nat,
            fee_per_1000 as nat,
        ),
{
    let s: u128 = calculate_single_side_swap(amount_in, reserve_in, fee_per_1000);
    let out: u128 = match calculate_swap_out(s, reserve_in, reserve_out, fee_per_1000) {
        Ok(out) => out,
        Err(_) => {
            return 0;
        },
    };
    let new_in: u128 = reserve_in.saturating_add(s);
    let new_out: u128 = reserve_out - out;
    let (deposit_in, deposit_out) = plan_deposit(amount_in - s, out, new_in, new_out);
    if out == 0 || deposit_in == 0 || deposit_out == 0 {
        return 0;
    }
    proof {
        let big: int = u128::MAX as int;
        lemma_wide_room();
        lemma_mul_upper_bound(deposit_in as int, big, total_supply as int, big);
        lemma_mul_upper_bound(deposit_out as int, big, total_supply as int, big);
    }
    let ts = U512::from_u128(total_supply);
    let by_input = U512::from_u128(deposit_in).times(&ts).divided_by(&U512::from_u128(new_in));
    let by_output = U512::from_u128(deposit_out).times(&ts).divided_by(&U512::from_u128(new_out));
    let minted = if by_input.less_than(&by_output) {
        by_input
    } else {
        by_output
    };
    match minted.to_u128() {
        Some(value) => value,
        None => 0,
    }
}

/// What one unit of liquidity takes on the input side, `(R + s) / ts` rounded up.
pub open spec fn first_bump(lp_out: nat, reserve_in: nat, total_supply: nat, fee: nat) -> nat {
    ceil_div(reserve_in + inverse_swap(lp_out, reserve_in, total_supply, fee), total_supply)
}

/// The inputs that are tried for `lp_out`: the closed form, and then always as
/// much more as all the bumps before together with the first one.
pub open spec fn tried_amount(
    k: nat,
    lp_out: nat,
    reserve_in: nat,
    total_supply: nat,
    fee: nat,
) -> nat {
    inverse_amount(lp_out, reserve_in, total_supply, fee) + first_bump(
        lp_out,
        reserve_in,
        total_supply,
        fee,
    ) * ((pow2(k) - 1) as nat)
}

/// Whether the `k`-th input fits in 128 bits and is the first one whose predicted
/// mint reaches `lp_out`.
pub open spec fn is_first_to_mint(
    k: nat,
    lp_out: nat,
    reserve_in: nat,
    reserve_out: nat,
    total_supply: nat,
    fee: nat,
) -> bool {
    &&& tried_amount(k, lp_out, reserve_in, total_supply, fee) <= u128::MAX
    &&& predicted_lp(
        tried_amount(k, lp_out, reserve_in, total_supply, fee),
        reserve_in,
        reserve_out,
        total_supply,
        fee,
    ) >= lp_out
    &&& forall|j: nat|
        j < k ==> predicted_lp(
            #[trigger] tried_amount(j, lp_out, reserve_in, total_supply, fee),
            reserve_in,
            reserve_out,
            total_supply,
            fee,
        ) < lp_out
}

/// The input for at least `lp_out`: the first one tried whose predicted mint
/// reaches `lp_out`.
pub open spec fn exact_lp_amount(
    lp_out: nat,
    reserve_in: nat,
    reserve_out: nat,
    total_supply: nat,
    fee: nat,
) -> Option<nat> {
    if exists|k: nat|
        is_first_to_mint(k, lp_out, reserve_in, reserve_out, total_supply, fee) {
        let k = choose|k: nat|
            is_first_to_mint(k, lp_out, reserve_in, reserve_out, total_supply, fee);
        Some(tried_amount(k, lp_out, reserve_in, total_supply, fee))
    } else {
        None
    }
}

/// The first reason, if any, why no input is found for `lp_out`.
pub open spec fn exact_lp_refusal(
    lp_out: nat,
    reserve_in: nat,
    reserve_out: nat,
    total_supply: nat,
    fee: nat,
) -> Option<ZapError> {
    if inverse_refusal(lp_out, reserve_in, total_supply, fee) is Some {
        inverse_refusal(lp_out, reserve_in, total_supply, fee)
    } else if reserve_out == 0 {
        Some(ZapError::ZeroOutputReserve)
    } else if exact_lp_amount(lp_out, reserve_in, reserve_out, total_supply, fee) is None {
        Some(ZapError::AmountInOverflow)
    } else {
        None
    }
}

/// The closed form is tried first.
pub proof fn lemma_tried_first(lp_out: nat, reserve_in: nat, total_supply: nat, fee: nat)
    ensures
        tried_amount(0, lp_out, reserve_in, total_supply, fee) == inverse_amount(
            lp_out,
            reserve_in,
            total_supply,
            fee,
        ),
        pow2(0) == 1,
{
    let bump = first_bump(lp_out, reserve_in, total_supply, fee);
    lemma2_to64();
    assert(bump * 0 == 0) by (nonlinear_arith);
}

/// From one tried input to the next.
pub proof fn lemma_tried_next(k: nat, lp_out: nat, reserve_in: nat, total_supply: nat, fee: nat)
    ensures
        tried_amount(k + 1, lp_out, reserve_in, total_supply, fee) == tried_amount(
            k,
            lp_out,
            reserve_in,
            total_supply,
            fee,
        ) + first_bump(lp_out, reserve_in, total_supply, fee) * pow2(k),
        pow2(k + 1) == 2 * pow2(k),
{
    let bump = first_bump(lp_out, reserve_in, total_supply, fee);
    lemma_pow2_unfold(k + 1);
    lemma_pow2_pos(k);
    let p = pow2(k);
    assert(bump * ((2 * p - 1) as nat) == bump * ((p - 1) as nat) + bump * p) by (nonlinear_arith)
        requires
            p >= 1,
    ;
}

/// The tried inputs never become smaller.
pub proof fn lemma_tried_monotone(
    j: nat,
    k: nat,
    lp_out: nat,
    reserve_in: nat,
    total_supply: nat,
    fee: nat,
)
    requires
        j <= k,
    ensures
        tried_amount(j, lp_out, reserve_in, total_supply, fee) <= tried_amount(
            k,
            lp_out,
            reserve_in,
            total_supply,
            fee,
        ),
    decreases k,
{
    if j < k {
        let below = (k - 1) as nat;
        let bump = first_bump(lp_out, reserve_in, total_supply, fee);
        lemma_tried_monotone(j, below, lp_out, reserve_in, total_supply, fee);
        lemma_tried_next(below, lp_out, reserve_in, total_supply, fee);
        assert(bump * pow2(below) >= 0) by (nonlinear_arith);
    }
}

/// There is one first input that mints the target.
pub proof fn lemma_first_to_mint(
    k: nat,
    lp_out: nat,
    reserve_in: nat,
    reserve_out: nat,
    total_supply: nat,
    fee: nat,
)
    requires
        is_first_to_mint(k, lp_out, reserve_in, reserve_out, total_supply, fee),
    ensures
        exact_lp_amount(lp_out, reserve_in, reserve_out, total_supply, fee) == Some(
            tried_amount(k, lp_out, reserve_in, total_supply, fee),
        ),
{
    let other = choose|other: nat|
        is_first_to_mint(other, lp_out, reserve_in, reserve_out, total_supply, fee);
    assert(is_first_to_mint(other, lp_out, reserve_in, reserve_out, total_supply, fee));
    assert(!(k < other) && !(other < k));
}

/// Once the inputs have outgrown 128 bits without minting the target, none does.
proof fn lemma_none_to_mint(
    k: nat,
    lp_out: nat,
    reserve_in: nat,
    reserve_out: nat,
    total_supply: nat,
    fee: nat,
)
    requires
        forall|j: nat|
            j <= k ==> predicted_lp(
                #[trigger] tried_amount(j, lp_out, reserve_in, total_supply, fee),
                reserve_in,
                reserve_out,
                total_supply,
                fee,
            ) < lp_out,
        tried_amount(k + 1, lp_out, reserve_in, total_supply, fee) > u128::MAX,
    ensures
        exact_lp_amount(lp_out, reserve_in, reserve_out, total_supply, fee) is None,
{
    assert forall|other: nat| !is_first_to_mint(
        other,
        lp_out,
        reserve_in,
        reserve_out,
        total_supply,
        fee,
    ) by {
        if other > k {
            lemma_tried_monotone(k + 1, other, lp_out, reserve_in, total_supply, fee);
        } else {
            assert(predicted_lp(
                tried_amount(other, lp_out, reserve_in, total_supply, fee),
                reserve_in,
                reserve_out,
                total_supply,
                fee,
            ) < lp_out);
        }
    }
}

/// Inverse zap with the forward check: the input, and the part of it that the
/// zap will swap, for which the pool's integer arithmetic mints at least
/// `lp_out`.
///
/// Starts from the closed form and bumps the input until the predicted mint
/// reaches the target.
pub fn calculate_amount_in_for_exact_lp_checked(
    lp_out: u128,
    reserve_in: u128,
    reserve_out: u128,
    total_supply: u128,
    fee_per_1000: u128,
) -> (r: Result<(u128, u128), ZapError>)
    ensures
        match r {
            Ok((amount_in, s)) => {
                &&& exact_lp_refusal(
                    lp_out as nat,
                    reserve_in as nat,
                    reserve_out as nat,
                    total_supply as nat,
                    fee_per_1000 as nat,
                ) is None
                &&& exact_lp_amount(
                    lp_out as nat,
                    reserve_in as nat,
                    reserve_out as nat,
                    total_supply as nat,
                    fee_per_1000 as nat,
                ) == Some(amount_in as nat)
                &&& s == optimal_split(amount_in as nat, reserve_in as nat, fee_per_1000 as nat)
                &&& predicted_lp(
                    amount_in as nat,
                    reserve_in as nat,
                    reserve_out as nat,
                    total_supply as nat,
                    fee_per_1000 as nat,
                ) >= lp_out
            },
            Err(e) => exact_lp_refusal(
                lp_out as nat,
                reserve_in as nat,
                reserve_out as nat,
                total_supply as nat,
                fee_per_1000 as nat,
            ) == Some(e),
        },
{
    let (start, closed_s) = match calculate_amount_in_for_exact_lp(
        lp_out,
        reserve_in,
        total_supply,
        fee_per_1000,
    ) {
        Ok(pair) => pair,
        Err(e) => {
            return Err(e);
        },
    };
    if reserve_out == 0 {
        return Err(ZapError::ZeroOutputReserve);
    }
    proof {
        lemma_wide_room();
        lemma_ceil_div((lp_out * (reserve_in + closed_s)) as nat, total_supply as nat);
        lemma_ceil_div((reserve_in + closed_s) as nat, total_supply as nat);
        let one = ceil_div((reserve_in + closed_s) as nat, total_supply as nat);
        let all = ceil_div((lp_out * (reserve_in + closed_s)) as nat, total_supply as nat);
        assert(lp_out * (reserve_in + closed_s) >= reserve_in + closed_s) by (nonlinear_arith)
            requires
                lp_out >= 1,
                reserve_in + closed_s >= 0,
        ;
        assert(one <= all) by (nonlinear_arith)
            requires
                one * total_supply < reserve_in + closed_s + total_supply,
                all * total_supply >= reserve_in + closed_s,
                total_supply > 0,
        ;
    }
    let ts = U512::from_u128(total_supply);
    let mut bump: u128 = U512::from_u128(reserve_in).plus(&U512::from_u128(closed_s)).plus(
        &ts,
    ).minus(&U512::from_u128(1)).divided_by(&ts).into_u128();
    let mut amount: u128 = start;
    let ghost mut k: nat = 0;
    proof {
        lemma_tried_first(
            lp_out as nat,
            reserve_in as nat,
            total_supply as nat,
            fee_per_1000 as nat,
        );
    }
    while predict_lp_for_amount_in(amount, reserve_in, reserve_out, total_supply, fee_per_1000)
        < lp_out
        invariant
            inverse_refusal(
                lp_out as nat,
                reserve_in as nat,
                total_supply as nat,
                fee_per_1000 as nat,
            ) is None,
            reserve_out > 0,
            bump >= 1,
            bump == capped(
                first_bump(
                    lp_out as nat,
                    reserve_in as nat,
                    total_supply as nat,
                    fee_per_1000 as nat,
                ) * pow2(k),
            ),
            amount >= 1,
            amount == tried_amount(
                k,
                lp_out as nat,
                reserve_in as nat,
                total_supply as nat,
                fee_per_1000 as nat,
            ),
            forall|j: nat|
                j < k ==> predicted_lp(
                    #[trigger] tried_amount(
                        j,
                        lp_out as nat,
                        reserve_in as nat,
                        total_supply as nat,
                        fee_per_1000 as nat,
                    ),
                    reserve_in as nat,
                    reserve_out as nat,
                    total_supply as nat,
                    fee_per_1000 as nat,
                ) < lp_out,
        decreases u128::MAX - amount,
    {
        let ghost first = first_bump(
            lp_out as nat,
            reserve_in as nat,
            total_supply as nat,
            fee_per_1000 as nat,
        );
        proof {
            lemma_tried_next(
                k,
                lp_out as nat,
                reserve_in as nat,
                total_supply as nat,
                fee_per_1000 as nat,
            );
            assert(first * (2 * pow2(k)) == 2 * (first * pow2(k))) by (nonlinear_arith);
        }
        amount = match amount.checked_add(bump) {
            Some(next) => next,
            None => {
                proof {
                    lemma_none_to_mint(
                        k,
                        lp_out as nat,
                        reserve_in as nat,
                        reserve_out as nat,
                        total_supply as nat,
                        fee_per_1000 as nat,
                    );
                }
                return Err(ZapError::AmountInOverflow);
            },
        };
        bump = bump.saturating_add(bump);
        proof {
            k = k + 1;
        }
    }
    proof {
        lemma_first_to_mint(
            k,
            lp_out as nat,
            reserve_in as nat,
            reserve_out as nat,
            total_supply as nat,
            fee_per_1000 as nat,
        );
    }
    let s: u128 = calculate_single_side_swap(amount, reserve_in, fee_per_1000);
    Ok((amount, s))
}

} // verus!
