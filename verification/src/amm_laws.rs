//! What holds of the pool mathematics as a whole.

use crate::amm_logic::{
    ceil_div, exact_lp_amount, exact_lp_refusal, first_bump, inverse_amount, inverse_refusal,
    inverse_swap, is_first_to_mint, isqrt, lemma_ceil_div, lemma_first_to_mint, lemma_isqrt,
    lemma_optimal_split_exists, lemma_planned_deposit, lemma_swap_out_below_reserve,
    lemma_tried_first, lemma_unzap_discriminant, optimal_split, planned_deposit, predicted_lp,
    swap_out, traded_per_1000, tried_amount, unzap_coefficient, unzap_liquidity, unzap_root,
};
use vstd::arithmetic::div_mod::lemma_fundamental_div_mod;
use vstd::arithmetic::power2::{lemma_pow2_pos, pow2};
use vstd::prelude::*;

verus! {

/// A quotient times its divisor does not exceed the dividend, and comes within
/// the divisor of it.
pub proof fn lemma_floor(n: nat, d: nat)
    requires
        d > 0,
    ensures
        (n / d) * d <= n < (n / d) * d + d,
{
    lemma_fundamental_div_mod(n as int, d as int);
    assert((n / d) * d == d * (n / d)) by (nonlinear_arith);
}

/// What a swap leaves in the pool, against the payout before rounding: with `q`
/// paid out of `reserve_out`, `q * 1000 * R <= x * a * (Q - q)`.
pub proof fn lemma_swap_ratio(amount_in: nat, reserve_in: nat, reserve_out: nat, fee: nat)
    requires
        reserve_in > 0,
        reserve_out > 0,
    ensures
        ({
            let q = swap_out(amount_in, reserve_in, reserve_out, fee);
            &&& q < reserve_out
            &&& q * (1000 * reserve_in) <= (amount_in * traded_per_1000(fee)) * (reserve_out - q)
        }),
{
    let t = amount_in * traded_per_1000(fee);
    let d = reserve_in * 1000 + t;
    let q = swap_out(amount_in, reserve_in, reserve_out, fee);
    lemma_swap_out_below_reserve(amount_in, reserve_in, reserve_out, fee);
    assert(t >= 0) by (nonlinear_arith)
        requires
            t == amount_in * traded_per_1000(fee),
    ;
    lemma_floor(t * reserve_out, d);
    assert(q * (1000 * reserve_in) <= t * (reserve_out - q)) by (nonlinear_arith)
        requires
            q * d <= t * reserve_out,
            d == reserve_in * 1000 + t,
    ;
}

/// A swap pays at least `need` exactly where it would before rounding.
pub proof fn lemma_swap_reaches(
    amount_in: nat,
    reserve_in: nat,
    reserve_out: nat,
    fee: nat,
    need: int,
)
    requires
        reserve_in > 0,
    ensures
        ({
            let t = amount_in * traded_per_1000(fee);
            swap_out(amount_in, reserve_in, reserve_out, fee) >= need <==> need * (reserve_in * 1000
                + t) <= t * reserve_out
        }),
{
    let t = amount_in * traded_per_1000(fee);
    let d = reserve_in * 1000 + t;
    assert(t >= 0) by (nonlinear_arith)
        requires
            t == amount_in * traded_per_1000(fee),
    ;
    lemma_floor(t * reserve_out, d);
    let q = (t * reserve_out) / d;
    assert(q >= need <==> need * d <= t * reserve_out) by (nonlinear_arith)
        requires
            q * d <= t * reserve_out < q * d + d,
            d > 0,
    ;
}

/// A swap never shrinks the product of the reserves, and with a fee it grows.
pub proof fn law_swap_keeps_product(amount_in: nat, reserve_in: nat, reserve_out: nat, fee: nat)
    requires
        reserve_in > 0,
        reserve_out > 0,
    ensures
        ({
            let out = swap_out(amount_in, reserve_in, reserve_out, fee);
            &&& out < reserve_out
            &&& (reserve_in + amount_in) * (reserve_out - out) >= reserve_in * reserve_out
            &&& amount_in > 0 && fee > 0 ==> (reserve_in + amount_in) * (reserve_out - out)
                > reserve_in * reserve_out
        }),
{
    let a = traded_per_1000(fee);
    let out = swap_out(amount_in, reserve_in, reserve_out, fee);
    let left = (reserve_out - out) as nat;
    let t = amount_in * a;
    lemma_swap_ratio(amount_in, reserve_in, reserve_out, fee);
    // 1000 * R * Q <= (1000 * R + t) * left
    assert(1000 * (reserve_in * reserve_out) <= 1000 * (reserve_in * left) + t * left)
        by (nonlinear_arith)
        requires
            out * (1000 * reserve_in) <= t * left,
            left == reserve_out - out,
    ;
    assert(t * left <= 1000 * (amount_in * left)) by (nonlinear_arith)
        requires
            t == amount_in * a,
            a <= 1000,
            left >= 0,
            amount_in >= 0,
    ;
    assert((reserve_in + amount_in) * left == reserve_in * left + amount_in * left)
        by (nonlinear_arith);
    if amount_in > 0 && fee > 0 {
        assert(t * left < 1000 * (amount_in * left)) by (nonlinear_arith)
            requires
                t == amount_in * a,
                0 <= a < 1000,
                left > 0,
                amount_in > 0,
        ;
    }
}

/// After the optimal split, what remains of the input is enough to match the
/// whole payout of the swap at the pool's new ratio, and one more swapped unit
/// would tip the balance: with `a` the traded share,
/// `s*a*(R+s) <= 1000*R*(A-s)`, and the other way round at `s + 1`.
pub proof fn law_split_balances(amount_in: nat, reserve_in: nat, fee: nat)
    requires
        amount_in > 0,
        reserve_in > 0,
        fee < 1000,
    ensures
        ({
            let a = traded_per_1000(fee);
            let s = optimal_split(amount_in, reserve_in, fee);
            &&& s < amount_in
            &&& s * a * (reserve_in + s) <= 1000 * reserve_in * (amount_in - s)
            &&& (s + 1) * a * (reserve_in + s + 1) > 1000 * reserve_in * (amount_in - s - 1)
        }),
{
    let a = traded_per_1000(fee);
    let s = optimal_split(amount_in, reserve_in, fee);
    let t = s + 1;
    lemma_optimal_split_exists(amount_in, reserve_in, fee);
    assert(s * a * (reserve_in + s) <= 1000 * reserve_in * (amount_in - s)) by (nonlinear_arith)
        requires
            a * (s * s) + reserve_in * (1000 + a) * s <= 1000 * amount_in * reserve_in,
    ;
    assert(t * a * (reserve_in + t) > 1000 * reserve_in * (amount_in - t)) by (nonlinear_arith)
        requires
            a * (t * t) + reserve_in * (1000 + a) * t > 1000 * amount_in * reserve_in,
    ;
}

/// The deposit that follows the optimal split takes the whole payout of the
/// swap: what the pool's ratio leaves over is input only.
pub proof fn law_zap_deposits_whole_output(
    amount_in: nat,
    reserve_in: nat,
    reserve_out: nat,
    fee: nat,
)
    requires
        amount_in > 0,
        reserve_in > 0,
        reserve_out > 0,
        fee < 1000,
    ensures
        ({
            let s = optimal_split(amount_in, reserve_in, fee);
            let out = swap_out(s, reserve_in, reserve_out, fee);
            planned_deposit(
                (amount_in - s) as nat,
                out,
                reserve_in + s,
                (reserve_out - out) as nat,
            ).1 == out
        }),
{
    let a = traded_per_1000(fee);
    let s = optimal_split(amount_in, reserve_in, fee);
    let out = swap_out(s, reserve_in, reserve_out, fee);
    let keep = (amount_in - s) as nat;
    let new_in = reserve_in + s;
    let new_out = (reserve_out - out) as nat;
    law_split_balances(amount_in, reserve_in, fee);
    lemma_swap_ratio(s, reserve_in, reserve_out, fee);
    // out * 1000 * R * (R+s) <= s*a*(R+s) * new_out <= 1000 * R * keep * new_out
    assert(out * new_in <= keep * new_out) by {
        let k = 1000 * reserve_in;
        let m = s * a;
        assert((out * k) * new_in <= (m * new_out) * new_in) by (nonlinear_arith)
            requires
                out * k <= m * new_out,
                new_in >= 0,
        ;
        assert((m * new_in) * new_out <= (k * keep) * new_out) by (nonlinear_arith)
            requires
                m * new_in <= k * keep,
                new_out >= 0,
        ;
        assert(k * (out * new_in) <= k * (keep * new_out)) by (nonlinear_arith)
            requires
                (out * k) * new_in <= (m * new_out) * new_in,
                (m * new_in) * new_out <= (k * keep) * new_out,
        ;
        assert(out * new_in <= keep * new_out) by (nonlinear_arith)
            requires
                k * (out * new_in) <= k * (keep * new_out),
                k > 0,
        ;
    }
    lemma_floor(keep * new_out, new_in);
    let q = (keep * new_out) / new_in;
    assert(q >= out) by (nonlinear_arith)
        requires
            out * new_in <= keep * new_out,
            keep * new_out < q * new_in + new_in,
            new_in > 0,
    ;
}

/// The closed form of the inverse zap carries the target on both sides of the
/// deposit, before the pool rounds: the swapped part pays for `lp_out` at the
/// pool's price, and what remains of the input matches it at the new ratio. One
/// unit less on either side would not.
pub proof fn law_inverse_covers_target(lp_out: nat, reserve_in: nat, total_supply: nat, fee: nat)
    requires
        lp_out > 0,
        reserve_in > 0,
        total_supply > 0,
        fee < 1000,
    ensures
        ({
            let a = traded_per_1000(fee);
            let s = inverse_swap(lp_out, reserve_in, total_supply, fee);
            let kept = inverse_amount(lp_out, reserve_in, total_supply, fee) - s;
            &&& s > 0
            &&& kept > 0
            &&& s * (a * total_supply) >= lp_out * 1000 * reserve_in
            &&& (s - 1) * (a * total_supply) < lp_out * 1000 * reserve_in
            &&& kept * total_supply >= lp_out * (reserve_in + s)
            &&& (kept - 1) * total_supply < lp_out * (reserve_in + s)
        }),
{
    let a = traded_per_1000(fee);
    let s = inverse_swap(lp_out, reserve_in, total_supply, fee);
    let d = a * total_supply;
    let n = lp_out * 1000 * reserve_in;
    assert(d > 0) by (nonlinear_arith)
        requires
            d == a * total_supply,
            a > 0,
            total_supply > 0,
    ;
    assert(n > 0) by (nonlinear_arith)
        requires
            n == lp_out * 1000 * reserve_in,
            lp_out > 0,
            reserve_in > 0,
    ;
    lemma_ceil_div(n, d);
    assert((s - 1) * d == s * d - d) by (nonlinear_arith);
    let m = lp_out * (reserve_in + s);
    let kept = ceil_div(m, total_supply);
    assert(m > 0) by (nonlinear_arith)
        requires
            m == lp_out * (reserve_in + s),
            lp_out > 0,
            reserve_in > 0,
    ;
    lemma_ceil_div(m, total_supply);
    assert((kept - 1) * total_supply == kept * total_supply - total_supply) by (nonlinear_arith);
}

/// Where `amount_in` covers the target on both sides of the deposit, the closed
/// form asks for no more than `amount_in`.
pub proof fn lemma_inverse_is_least(
    lp_out: nat,
    amount_in: nat,
    s: nat,
    reserve_in: nat,
    total_supply: nat,
    fee: nat,
)
    requires
        lp_out > 0,
        reserve_in > 0,
        total_supply > 0,
        fee < 1000,
        s <= amount_in,
        lp_out * (1000 * reserve_in) <= s * (traded_per_1000(fee) * total_supply),
        lp_out * (reserve_in + s) <= (amount_in - s) * total_supply,
    ensures
        inverse_swap(lp_out, reserve_in, total_supply, fee) <= s,
        inverse_amount(lp_out, reserve_in, total_supply, fee) <= amount_in,
{
    let c = inverse_swap(lp_out, reserve_in, total_supply, fee);
    let d = traded_per_1000(fee) * total_supply;
    law_inverse_covers_target(lp_out, reserve_in, total_supply, fee);
    assert(lp_out * 1000 * reserve_in == lp_out * (1000 * reserve_in)) by (nonlinear_arith);
    assert(c <= s) by (nonlinear_arith)
        requires
            (c - 1) * d < s * d,
            d >= 0,
    ;
    let kept = inverse_amount(lp_out, reserve_in, total_supply, fee) - c;
    let left = amount_in - s;
    assert(lp_out * (reserve_in + c) <= lp_out * (reserve_in + s)) by (nonlinear_arith)
        requires
            c <= s,
            lp_out >= 0,
    ;
    assert(kept <= left) by (nonlinear_arith)
        requires
            (kept - 1) * total_supply < left * total_supply,
            total_supply >= 0,
    ;
}

/// The closed form of the inverse zap is a lower bound: an input whose predicted
/// mint reaches `lp_out` is at least the closed form, and so is the part of it
/// that the zap swaps. So the search for the input starts at or below the least
/// one, and inverting what a zap mints asks for no more than the zap spent.
pub proof fn law_inverse_is_lower_bound(
    lp_out: nat,
    amount_in: nat,
    reserve_in: nat,
    reserve_out: nat,
    total_supply: nat,
    fee: nat,
)
    requires
        lp_out > 0,
        total_supply > 0,
        reserve_in + amount_in <= u128::MAX,
        predicted_lp(amount_in, reserve_in, reserve_out, total_supply, fee) >= lp_out,
    ensures
        inverse_swap(lp_out, reserve_in, total_supply, fee) <= optimal_split(
            amount_in,
            reserve_in,
            fee,
        ),
        inverse_amount(lp_out, reserve_in, total_supply, fee) <= amount_in,
{
    let a = traded_per_1000(fee);
    let s = optimal_split(amount_in, reserve_in, fee);
    assert(amount_in > 0 && reserve_in > 0 && reserve_out > 0 && a > 0 && s > 0);
    lemma_optimal_split_exists(amount_in, reserve_in, fee);
    let out = swap_out(s, reserve_in, reserve_out, fee);
    let keep = (amount_in - s) as nat;
    let new_in = reserve_in + s;
    let new_out = (reserve_out - out) as nat;
    let deposit = planned_deposit(keep, out, new_in, new_out);
    lemma_swap_ratio(s, reserve_in, reserve_out, fee);
    lemma_planned_deposit(keep, out, new_in, new_out);
    lemma_floor(deposit.0 * total_supply, new_in);
    lemma_floor(deposit.1 * total_supply, new_out);
    let by_input = (deposit.0 * total_supply) / new_in;
    let by_output = (deposit.1 * total_supply) / new_out;
    assert(by_input >= lp_out && by_output >= lp_out);
    assert(lp_out * new_in <= keep * total_supply) by (nonlinear_arith)
        requires
            lp_out <= by_input,
            by_input * new_in <= deposit.0 * total_supply,
            deposit.0 <= keep,
            new_in >= 0,
            total_supply >= 0,
    ;
    assert(lp_out * new_out <= out * total_supply) by (nonlinear_arith)
        requires
            lp_out <= by_output,
            by_output * new_out <= deposit.1 * total_supply,
            deposit.1 <= out,
            new_out >= 0,
            total_supply >= 0,
    ;
    // lp * new_out * 1000R <= out * ts * 1000R <= s*a * new_out * ts
    let k = 1000 * reserve_in;
    let m = s * a;
    assert(lp_out * k <= m * total_supply) by {
        assert((lp_out * new_out) * k <= (out * total_supply) * k) by (nonlinear_arith)
            requires
                lp_out * new_out <= out * total_supply,
                k >= 0,
        ;
        assert((out * k) * total_supply <= (m * new_out) * total_supply) by (nonlinear_arith)
            requires
                out * k <= m * new_out,
                total_supply >= 0,
        ;
        assert(new_out * (lp_out * k) <= new_out * (m * total_supply)) by (nonlinear_arith)
            requires
                (lp_out * new_out) * k <= (out * total_supply) * k,
                (out * k) * total_supply <= (m * new_out) * total_supply,
        ;
        assert(lp_out * k <= m * total_supply) by (nonlinear_arith)
            requires
                new_out * (lp_out * k) <= new_out * (m * total_supply),
                new_out > 0,
        ;
    }
    assert((s * a) * total_supply == s * (a * total_supply)) by (nonlinear_arith);
    lemma_inverse_is_least(lp_out, amount_in, s, reserve_in, total_supply, fee);
}

/// The forward-checked inverse never undershoots: the input that it finds has a
/// predicted mint of at least `lp_out`, fits in 128 bits, and is not below the
/// closed form.
pub proof fn law_exact_lp_never_undershoots(
    lp_out: nat,
    reserve_in: nat,
    reserve_out: nat,
    total_supply: nat,
    fee: nat,
)
    requires
        exact_lp_refusal(lp_out, reserve_in, reserve_out, total_supply, fee) is None,
    ensures
        exact_lp_amount(lp_out, reserve_in, reserve_out, total_supply, fee) matches Some(amount_in)
            && predicted_lp(amount_in, reserve_in, reserve_out, total_supply, fee) >= lp_out
            && inverse_amount(lp_out, reserve_in, total_supply, fee) <= amount_in <= u128::MAX,
{
    let k = choose|k: nat|
        is_first_to_mint(k, lp_out, reserve_in, reserve_out, total_supply, fee);
    assert(is_first_to_mint(k, lp_out, reserve_in, reserve_out, total_supply, fee));
    assert(tried_amount(k, lp_out, reserve_in, total_supply, fee) >= inverse_amount(
        lp_out,
        reserve_in,
        total_supply,
        fee,
    )) by {
        let bump = first_bump(lp_out, reserve_in, total_supply, fee);
        lemma_pow2_pos(k);
        assert(bump * ((pow2(k) - 1) as nat) >= 0) by (nonlinear_arith);
    }
}

/// Where the closed form already mints the target, the forward-checked inverse
/// takes it as it is, and no smaller input would do.
pub proof fn law_exact_lp_is_least(
    lp_out: nat,
    amount_in: nat,
    reserve_in: nat,
    reserve_out: nat,
    total_supply: nat,
    fee: nat,
)
    requires
        inverse_refusal(lp_out, reserve_in, total_supply, fee) is None,
        predicted_lp(
            inverse_amount(lp_out, reserve_in, total_supply, fee),
            reserve_in,
            reserve_out,
            total_supply,
            fee,
        ) >= lp_out,
        reserve_in + amount_in <= u128::MAX,
        predicted_lp(amount_in, reserve_in, reserve_out, total_supply, fee) >= lp_out,
    ensures
        exact_lp_amount(lp_out, reserve_in, reserve_out, total_supply, fee) == Some(
            inverse_amount(lp_out, reserve_in, total_supply, fee),
        ),
        inverse_amount(lp_out, reserve_in, total_supply, fee) <= amount_in,
{
    law_inverse_is_lower_bound(lp_out, amount_in, reserve_in, reserve_out, total_supply, fee);
    lemma_tried_first(lp_out, reserve_in, total_supply, fee);
    assert(is_first_to_mint(0, lp_out, reserve_in, reserve_out, total_supply, fee));
    lemma_first_to_mint(0, lp_out, reserve_in, reserve_out, total_supply, fee);
}

/// What a withdrawal pays out of one reserve.
pub open spec fn pool_burn(liquidity: nat, reserve: nat, total_supply: nat) -> nat {
    (liquidity * reserve) / total_supply
}

/// What an unzap of `liquidity` yields in the output token, whose reserve is
/// `reserve`, through the pool's roundings: the withdrawal on that side, and the
/// swap of the other side against the remaining reserves, as far as there are
/// any.
pub open spec fn unzap_output(
    liquidity: nat,
    reserve: nat,
    other_reserve: nat,
    total_supply: nat,
    fee: nat,
) -> nat {
    let own = pool_burn(liquidity, reserve, total_supply);
    let other = pool_burn(liquidity, other_reserve, total_supply);
    if own < reserve && other < other_reserve {
        own + swap_out(other, (other_reserve - other) as nat, (reserve - own) as nat, fee)
    } else {
        own
    }
}

/// By how much the quadratic of the inverse unzap at `liquidity` stays below zero,
/// times the square of the total supply: `B*L*ts - 1000*R*L^2 - 1000*T*ts^2`.
pub open spec fn unzap_slack(
    liquidity: nat,
    output_amount: nat,
    reserve: nat,
    total_supply: nat,
    fee: nat,
) -> int {
    unzap_coefficient(output_amount, reserve, fee) * (liquidity * total_supply) - 1000 * reserve * (
    liquidity * liquidity) - 1000 * output_amount * (total_supply * total_supply)
}

/// The quadratic of the inverse unzap at `liquidity` is not positive.
spec fn reaches_target(
    liquidity: nat,
    output_amount: nat,
    reserve: nat,
    total_supply: nat,
    fee: nat,
) -> bool {
    unzap_slack(liquidity, output_amount, reserve, total_supply, fee) >= 0
}

/// Completing the square: the quadratic is not positive where `2000*R*L` is
/// within `sqrt(disc) * ts` of `B * ts`.
proof fn lemma_complete_square(
    liquidity: nat,
    output_amount: nat,
    reserve: nat,
    total_supply: nat,
    fee: nat,
    disc: int,
    gap: int,
)
    requires
        reserve > 0,
        ({
            let b = unzap_coefficient(output_amount, reserve, fee);
            &&& disc == b * b - 4_000_000 * reserve * output_amount
            &&& gap == b * total_supply - 2000 * reserve * liquidity
        }),
    ensures
        reaches_target(liquidity, output_amount, reserve, total_supply, fee) <==> gap * gap <= disc
            * (total_supply * total_supply),
{
    let b = unzap_coefficient(output_amount, reserve, fee);
    let x = 2000 * reserve * liquidity;
    let ts = total_supply as int;
    let left = 1000 * reserve * (liquidity * liquidity) + 1000 * output_amount * (ts * ts);
    let right = b * (liquidity * ts);
    assert(gap * gap == (b * ts) * (b * ts) - 2 * (b * ts) * x + x * x) by (nonlinear_arith)
        requires
            gap == b * ts - x,
    ;
    assert((b * ts) * (b * ts) == (b * b) * (ts * ts)) by (nonlinear_arith);
    assert(x * x == 4000 * reserve * (1000 * reserve * (liquidity * liquidity)))
        by (nonlinear_arith)
        requires
            x == 2000 * reserve * liquidity,
    ;
    assert(2 * (b * ts) * x == 4000 * reserve * right) by (nonlinear_arith)
        requires
            x == 2000 * reserve * liquidity,
            right == b * (liquidity * ts),
    ;
    assert(disc * (ts * ts) == (b * b) * (ts * ts) - 4000 * reserve * (1000 * output_amount * (ts
        * ts))) by (nonlinear_arith)
        requires
            disc == b * b - 4_000_000 * reserve * output_amount,
    ;
    assert(gap * gap - disc * (ts * ts) == 4000 * reserve * (left - right)) by (nonlinear_arith)
        requires
            gap * gap == (b * b) * (ts * ts) - 4000 * reserve * right + 4000 * reserve * (1000
                * reserve * (liquidity * liquidity)),
            disc * (ts * ts) == (b * b) * (ts * ts) - 4000 * reserve * (1000 * output_amount * (ts
                * ts)),
            left == 1000 * reserve * (liquidity * liquidity) + 1000 * output_amount * (ts * ts),
    ;
    assert(4000 * reserve * (left - right) <= 0 <==> left <= right) by (nonlinear_arith)
        requires
            reserve > 0,
    ;
}

/// The liquidity that the inverse unzap computes lies between the roots.
proof fn lemma_unzap_liquidity(output_amount: nat, reserve: nat, total_supply: nat, fee: nat)
    requires
        0 < output_amount < reserve,
        total_supply > 0,
        fee < 1000,
    ensures
        ({
            let l = unzap_liquidity(output_amount, reserve, total_supply, fee);
            &&& 0 < l <= total_supply
            &&& reaches_target(l, output_amount, reserve, total_supply, fee)
        }),
{
    let b = unzap_coefficient(output_amount, reserve, fee);
    let disc = (b * b - 4_000_000 * reserve * output_amount) as nat;
    let r = isqrt(disc);
    let root = unzap_root(output_amount, reserve, fee);
    let l = unzap_liquidity(output_amount, reserve, total_supply, fee);
    let ts = total_supply as int;
    lemma_unzap_discriminant(output_amount, reserve, fee);
    lemma_isqrt(disc);
    assert(4_000_000 * reserve * output_amount > 0) by (nonlinear_arith)
        requires
            reserve > 0,
            output_amount > 0,
    ;
    assert(r < b) by (nonlinear_arith)
        requires
            r * r < b * b,
            r >= 0,
            b >= 0,
    ;
    let n = root * total_supply;
    assert(0 < n <= 2000 * reserve * ts) by (nonlinear_arith)
        requires
            n == root * total_supply,
            0 < root <= 2000 * reserve,
            total_supply > 0,
            ts == total_supply,
    ;
    lemma_ceil_div(n, 2000 * reserve);
    let d = 2000 * reserve;
    assert(l <= ts) by (nonlinear_arith)
        requires
            l * d < n + d,
            n <= d * ts,
            d > 0,
    ;
    let x = 2000 * reserve * l;
    assert(x == l * d) by (nonlinear_arith)
        requires
            x == 2000 * reserve * l,
            d == 2000 * reserve,
    ;
    let gap = b * ts - x;
    assert(gap * gap <= disc * (ts * ts)) by {
        if gap >= 0 {
            assert(gap <= r * ts) by (nonlinear_arith)
                requires
                    gap == b * ts - x,
                    x >= n,
                    n == root * ts,
                    root == b - r,
            ;
            assert(gap * gap <= (r * ts) * (r * ts)) by (nonlinear_arith)
                requires
                    0 <= gap <= r * ts,
            ;
            assert((r * ts) * (r * ts) <= disc * (ts * ts)) by (nonlinear_arith)
                requires
                    r * r <= disc,
                    ts >= 0,
            ;
        } else {
            let over = d - b;
            assert(-gap <= over * ts) by (nonlinear_arith)
                requires
                    gap == b * ts - x,
                    x == l * d,
                    l <= ts,
                    d >= 0,
                    over == d - b,
            ;
            assert(over * over <= disc) by (nonlinear_arith)
                requires
                    over == 2000 * reserve - b,
                    disc == b * b - 4_000_000 * reserve * output_amount,
                    b >= 1000 * (reserve + output_amount),
                    reserve >= 0,
            ;
            assert(gap * gap <= (over * ts) * (over * ts)) by (nonlinear_arith)
                requires
                    0 <= -gap <= over * ts,
            ;
            assert((over * ts) * (over * ts) <= disc * (ts * ts)) by (nonlinear_arith)
                requires
                    over * over <= disc,
                    ts >= 0,
            ;
        }
    }
    lemma_complete_square(
        l,
        output_amount,
        reserve,
        total_supply,
        fee,
        disc as int,
        gap,
    );
}

/// The quadratic in terms of what a withdrawal pays on the own side.
proof fn lemma_quadratic_form(l: int, slope: int, own: int, ts: int, t: int, reserve: int)
    ensures
        (l * slope + 1000 * (own * (ts - l)) - 1000 * (t * ts)) * ts == (slope + 1000 * reserve) * (
        l * ts) - 1000 * reserve * (l * l) - 1000 * t * (ts * ts) + 1000 * ((own * ts) * (ts - l)
            - (l * reserve) * (ts - l)),
{
    let paid = own * (ts - l);
    assert((l * slope + 1000 * paid - 1000 * (t * ts)) * ts == (l * slope) * ts + 1000 * (paid * ts)
        - 1000 * ((t * ts) * ts)) by (nonlinear_arith);
    assert(paid * ts == (own * ts) * (ts - l)) by (nonlinear_arith)
        requires
            paid == own * (ts - l),
    ;
    assert(1000 * t * (ts * ts) == 1000 * ((t * ts) * ts)) by (nonlinear_arith);
    assert((slope + 1000 * reserve) * (l * ts) == slope * (l * ts) + 1000 * (reserve * (l * ts)))
        by (nonlinear_arith);
    assert((l * slope) * ts == slope * (l * ts)) by (nonlinear_arith);
    assert((l * reserve) * (ts - l) == reserve * (l * ts) - reserve * (l * l)) by (nonlinear_arith);
    assert(1000 * reserve * (l * l) == 1000 * (reserve * (l * l))) by (nonlinear_arith);
}

/// By how much the swap of the withdrawn other side, before rounding, exceeds what
/// the withdrawn own side lacks to the target, times the swap's denominator.
spec fn unzap_value(own: int, other: int, t: int, reserve: int, q: int, fee: int) -> int {
    other * ((1000 - fee) * reserve + fee * t - 1000 * own) + 1000 * (q * (own - t))
}

/// The value in terms of the swap.
proof fn lemma_unzap_value(own: int, other: int, t: int, reserve: int, q: int, fee: int)
    ensures
        (other * (1000 - fee)) * (reserve - own) - (t - own) * ((q - other) * 1000 + other * (1000
            - fee)) == unzap_value(own, other, t, reserve, q, fee),
{
    let a = 1000 - fee;
    let traded = other * a;
    let short = q * (own - t);
    let step = a * reserve + fee * t - 1000 * own;
    assert(traded * (reserve - own) == traded * reserve - traded * own) by (nonlinear_arith);
    assert((t - own) * ((q - other) * 1000 + traded) == (t - own) * traded - 1000 * short - 1000
        * ((t - own) * other)) by (nonlinear_arith)
        requires
            short == q * (own - t),
    ;
    assert((t - own) * traded == t * traded - own * traded) by (nonlinear_arith);
    assert(other * step == traded * reserve + other * (fee * t) - 1000 * (own * other))
        by (nonlinear_arith)
        requires
            step == a * reserve + fee * t - 1000 * own,
            traded == other * a,
    ;
    assert(other * (fee * t) == 1000 * (t * other) - t * traded) by (nonlinear_arith)
        requires
            traded == other * a,
            a == 1000 - fee,
    ;
    assert((t - own) * other == t * other - own * other) by (nonlinear_arith);
    assert(own * traded == traded * own) by (nonlinear_arith);
}

/// The quadratic at `liquidity` decides whether a withdrawal of at least its
/// exact shares, with the other side swapped, reaches the target.
proof fn lemma_shares_reach_target(
    liquidity: nat,
    own: nat,
    other: nat,
    output_amount: nat,
    reserve: nat,
    other_reserve: nat,
    total_supply: nat,
    fee: nat,
)
    requires
        own < output_amount < reserve,
        other <= other_reserve,
        0 < total_supply,
        liquidity <= total_supply,
        fee < 1000,
        own * total_supply >= liquidity * reserve,
        other * total_supply >= liquidity * other_reserve,
        reaches_target(liquidity, output_amount, reserve, total_supply, fee),
    ensures
        ({
            let a = traded_per_1000(fee);
            (output_amount - own) * ((other_reserve - other) * 1000 + other * a) <= (other * a) * (
            reserve - own)
        }),
{
    let a = traded_per_1000(fee) as int;
    let ts = total_supply as int;
    let l = liquidity as int;
    let t = output_amount as int;
    let b = unzap_coefficient(output_amount, reserve, fee) as int;
    let slope = a * reserve + fee * t;
    // In the withdrawn amounts, with `u` the own and `v` the other side, the claim
    // is that `v * slope + 1000*Q*u - 1000*Q*T - 1000*u*v` is not negative.
    let inner = l * slope + 1000 * (own * (ts - l)) - 1000 * (t * ts);
    assert(b == slope + 1000 * reserve) by (nonlinear_arith)
        requires
            b == reserve * (2000 - fee) + t * fee,
            slope == a * reserve + fee * t,
            a == 1000 - fee,
    ;
    assert((own * ts) * (ts - l) >= (l * reserve) * (ts - l)) by (nonlinear_arith)
        requires
            own * ts >= l * reserve,
            ts - l >= 0,
    ;
    lemma_quadratic_form(l, slope, own as int, ts, t, reserve as int);
    assert(inner >= 0) by (nonlinear_arith)
        requires
            inner * ts >= 0,
            ts > 0,
    ;
    let q = other_reserve as int;
    let step = slope - 1000 * own;
    assert(step >= 0) by (nonlinear_arith)
        requires
            step == a * reserve + fee * t - 1000 * own,
            a == 1000 - fee,
            own < t < reserve,
            0 <= fee < 1000,
    ;
    assert((other * ts) * step >= (l * q) * step) by (nonlinear_arith)
        requires
            other * ts >= l * q,
            step >= 0,
    ;
    let short = q * (own - t);
    let value = other * step + 1000 * short;
    assert(value * ts == (other * ts) * step + 1000 * (short * ts)) by (nonlinear_arith)
        requires
            value == other * step + 1000 * short,
    ;
    assert(inner == l * step + 1000 * ((own - t) * ts)) by (nonlinear_arith)
        requires
            inner == l * slope + 1000 * (own * (ts - l)) - 1000 * (t * ts),
            step == slope - 1000 * own,
    ;
    assert(q * inner == (l * q) * step + 1000 * (short * ts)) by (nonlinear_arith)
        requires
            inner == l * step + 1000 * ((own - t) * ts),
            short == q * (own - t),
    ;
    assert(q * inner >= 0) by (nonlinear_arith)
        requires
            q >= 0,
            inner >= 0,
    ;
    assert(value >= 0) by (nonlinear_arith)
        requires
            value * ts >= 0,
            ts > 0,
    ;
    lemma_unzap_value(own as int, other as int, t, reserve as int, q, fee as int);
}

/// An unzap reaches its target where the withdrawal pays at least the exact
/// share of the liquidity that the inverse unzap computes (before its margin) on
/// both sides: the withdrawn output together with the swap of the other side is
/// at least `output_amount`.
pub proof fn law_unzap_reaches_target(
    output_amount: nat,
    reserve: nat,
    other_reserve: nat,
    total_supply: nat,
    fee: nat,
    own: nat,
    other: nat,
)
    requires
        0 < output_amount < reserve,
        other_reserve > 0,
        total_supply > 0,
        fee < 1000,
        own < reserve,
        other < other_reserve,
        own * total_supply >= unzap_liquidity(output_amount, reserve, total_supply, fee) * reserve,
        other * total_supply >= unzap_liquidity(output_amount, reserve, total_supply, fee)
            * other_reserve,
    ensures
        own + swap_out(
            other,
            (other_reserve - other) as nat,
            (reserve - own) as nat,
            fee,
        ) >= output_amount,
{
    let l = unzap_liquidity(output_amount, reserve, total_supply, fee);
    lemma_unzap_liquidity(output_amount, reserve, total_supply, fee);
    if own < output_amount {
        lemma_shares_reach_target(
            l,
            own,
            other,
            output_amount,
            reserve,
            other_reserve,
            total_supply,
            fee,
        );
        lemma_swap_reaches(
            other,
            (other_reserve - other) as nat,
            (reserve - own) as nat,
            fee,
            output_amount - own,
        );
    }
}

/// What the roundings of the two withdrawals cost together, in the units of the
/// slack times the other reserve. Each withdrawal falls short of its exact share
/// by the remainder of its division.
pub open spec fn rounding_cost(
    liquidity: nat,
    output_amount: nat,
    reserve: nat,
    other_reserve: nat,
    total_supply: nat,
    fee: nat,
) -> int {
    let own_short = (liquidity * reserve) % total_supply;
    let other_short = (liquidity * other_reserve) % total_supply;
    (1000 * (other_reserve * (total_supply - liquidity))) * own_short + (((1000 - fee) * reserve
        + fee * output_amount) * total_supply - 1000 * (liquidity * reserve)) * other_short + 1000
        * (own_short * other_short)
}

/// Whether the liquidity makes up for the roundings of both withdrawals together:
/// the withdrawn side is enough by itself, or the slack of the quadratic covers
/// what the roundings cost.
pub open spec fn rounding_is_covered(
    liquidity: nat,
    output_amount: nat,
    reserve: nat,
    other_reserve: nat,
    total_supply: nat,
    fee: nat,
) -> bool {
    ||| pool_burn(liquidity, reserve, total_supply) >= output_amount
    ||| other_reserve * unzap_slack(liquidity, output_amount, reserve, total_supply, fee)
        >= rounding_cost(liquidity, output_amount, reserve, other_reserve, total_supply, fee)
}

/// The value of a withdrawal in terms of the slack and of what the roundings cost.
proof fn lemma_joint_shortfall(
    own: int,
    other: int,
    liquidity: nat,
    output_amount: nat,
    reserve: nat,
    other_reserve: nat,
    total_supply: nat,
    fee: nat,
)
    requires
        fee < 1000,
        own * total_supply == liquidity * reserve - (liquidity * reserve) % total_supply,
        other * total_supply == liquidity * other_reserve - (liquidity * other_reserve)
            % total_supply,
    ensures
        (total_supply * total_supply) * unzap_value(
            own,
            other,
            output_amount as int,
            reserve as int,
            other_reserve as int,
            fee as int,
        ) == other_reserve * unzap_slack(liquidity, output_amount, reserve, total_supply, fee)
            - rounding_cost(liquidity, output_amount, reserve, other_reserve, total_supply, fee),
{
    let l = liquidity as int;
    let t = output_amount as int;
    let r = reserve as int;
    let q = other_reserve as int;
    let ts = total_supply as int;
    let slope = (1000 - fee) * r + fee * t;
    let b = unzap_coefficient(output_amount, reserve, fee) as int;
    let lr = l * r;
    let lq = l * q;
    let eu = lr % ts;
    let ev = lq % ts;
    let x = own * ts;
    let y = other * ts;
    let st = slope * ts;
    let qt = q * ts;
    let tt = t * ts;
    assert((ts * ts) * (other * (slope - 1000 * own)) == y * (st - 1000 * x)) by (nonlinear_arith)
        requires
            x == own * ts,
            y == other * ts,
            st == slope * ts,
    ;
    assert((ts * ts) * (1000 * (q * (own - t))) == 1000 * (qt * (x - tt))) by (nonlinear_arith)
        requires
            x == own * ts,
            qt == q * ts,
            tt == t * ts,
    ;
    let first = other * (slope - 1000 * own);
    let second = 1000 * (q * (own - t));
    assert((ts * ts) * (first + second) == (ts * ts) * first + (ts * ts) * second)
        by (nonlinear_arith);
    assert(y * (st - 1000 * x) == lq * st - 1000 * (lq * lr) + 1000 * (lq * eu) - (st - 1000 * lr)
        * ev - 1000 * (eu * ev)) by (nonlinear_arith)
        requires
            x == lr - eu,
            y == lq - ev,
    ;
    assert(1000 * (qt * (x - tt)) == 1000 * (qt * lr) - 1000 * (qt * eu) - 1000 * (qt * tt))
        by (nonlinear_arith)
        requires
            x == lr - eu,
    ;
    assert(b == slope + 1000 * r) by (nonlinear_arith)
        requires
            b == r * (2000 - fee) + t * fee,
            slope == (1000 - fee) * r + fee * t,
    ;
    let lt = l * ts;
    assert(q * (b * lt) == lq * st + 1000 * (qt * lr)) by {
        assert(b * lt == slope * lt + 1000 * (r * lt)) by (nonlinear_arith)
            requires
                b == slope + 1000 * r,
        ;
        assert(q * (slope * lt + 1000 * (r * lt)) == q * (slope * lt) + 1000 * (q * (r * lt)))
            by (nonlinear_arith);
        assert(q * (slope * lt) == lq * st) by (nonlinear_arith)
            requires
                lt == l * ts,
                lq == l * q,
                st == slope * ts,
        ;
        assert(q * (r * lt) == qt * lr) by (nonlinear_arith)
            requires
                lt == l * ts,
                lr == l * r,
                qt == q * ts,
        ;
    }
    assert(q * (1000 * r * (l * l)) == 1000 * (lq * lr)) by (nonlinear_arith)
        requires
            lq == l * q,
            lr == l * r,
    ;
    assert(q * (1000 * t * (ts * ts)) == 1000 * (qt * tt)) by (nonlinear_arith)
        requires
            qt == q * ts,
            tt == t * ts,
    ;
    let square = 1000 * r * (l * l);
    let target = 1000 * t * (ts * ts);
    assert(q * (b * lt - square - target) == q * (b * lt) - q * square - q * target)
        by (nonlinear_arith);
    assert((1000 * (q * (ts - l))) * eu == 1000 * (qt * eu) - 1000 * (lq * eu)) by (nonlinear_arith)
        requires
            qt == q * ts,
            lq == l * q,
    ;
}

/// An unzap reaches its target exactly where the liquidity makes up for the
/// roundings of both withdrawals together.
pub proof fn law_unzap_reaches_target_exactly(
    liquidity: nat,
    output_amount: nat,
    reserve: nat,
    other_reserve: nat,
    total_supply: nat,
    fee: nat,
)
    requires
        0 < output_amount < reserve,
        other_reserve > 0,
        total_supply > 0,
        fee < 1000,
        liquidity <= total_supply,
    ensures
        unzap_output(liquidity, reserve, other_reserve, total_supply, fee) >= output_amount
            <==> rounding_is_covered(
            liquidity,
            output_amount,
            reserve,
            other_reserve,
            total_supply,
            fee,
        ),
{
    let own = pool_burn(liquidity, reserve, total_supply);
    let other = pool_burn(liquidity, other_reserve, total_supply);
    if own < output_amount {
        lemma_floor(liquidity * other_reserve, total_supply);
        if liquidity == total_supply {
            assert((total_supply * reserve) / total_supply == reserve) by (nonlinear_arith)
                requires
                    total_supply > 0,
            ;
        }
        assert(other < other_reserve) by (nonlinear_arith)
            requires
                other * total_supply <= liquidity * other_reserve,
                liquidity < total_supply,
                other_reserve > 0,
        ;
        lemma_fundamental_div_mod((liquidity * reserve) as int, total_supply as int);
        lemma_fundamental_div_mod((liquidity * other_reserve) as int, total_supply as int);
        assert(own * total_supply == total_supply * own) by (nonlinear_arith);
        assert(other * total_supply == total_supply * other) by (nonlinear_arith);
        lemma_joint_shortfall(
            own as int,
            other as int,
            liquidity,
            output_amount,
            reserve,
            other_reserve,
            total_supply,
            fee,
        );
        lemma_unzap_value(
            own as int,
            other as int,
            output_amount as int,
            reserve as int,
            other_reserve as int,
            fee as int,
        );
        let value = unzap_value(
            own as int,
            other as int,
            output_amount as int,
            reserve as int,
            other_reserve as int,
            fee as int,
        );
        let square = total_supply * total_supply;
        assert(value >= 0 <==> square * value >= 0) by (nonlinear_arith)
            requires
                square == total_supply * total_supply,
                total_supply > 0,
        ;
        lemma_swap_reaches(
            other,
            (other_reserve - other) as nat,
            (reserve - own) as nat,
            fee,
            output_amount - own,
        );
    }
}

/// Burning what `calculate_lp_for_exact_out` asks for yields at least the target
/// through the pool's own roundings, exactly where the liquidity makes up for the
/// roundings of both withdrawals together.
pub proof fn law_exact_out_reaches_target(
    output_amount: nat,
    reserve: nat,
    other_reserve: nat,
    total_supply: nat,
    fee: nat,
)
    requires
        0 < output_amount < reserve,
        other_reserve > 0,
        total_supply > 0,
        fee < 1000,
        unzap_liquidity(output_amount, reserve, total_supply, fee) + 3 <= total_supply,
    ensures
        ({
            let burned = unzap_liquidity(output_amount, reserve, total_supply, fee) + 3;
            unzap_output(burned, reserve, other_reserve, total_supply, fee) >= output_amount
                <==> rounding_is_covered(
                burned,
                output_amount,
                reserve,
                other_reserve,
                total_supply,
                fee,
            )
        }),
{
    law_unzap_reaches_target_exactly(
        unzap_liquidity(output_amount, reserve, total_supply, fee) + 3,
        output_amount,
        reserve,
        other_reserve,
        total_supply,
        fee,
    );
}

/// The margin of three units covers the roundings wherever it makes up for the
/// rounding of each withdrawal by itself; both withdrawals then pay something.
pub proof fn law_margin_suffices(
    output_amount: nat,
    reserve: nat,
    other_reserve: nat,
    total_supply: nat,
    fee: nat,
)
    requires
        0 < output_amount < reserve,
        other_reserve > 0,
        total_supply > 0,
        fee < 1000,
        unzap_liquidity(output_amount, reserve, total_supply, fee) + 3 <= total_supply,
        margin_covers(
            unzap_liquidity(output_amount, reserve, total_supply, fee),
            reserve,
            total_supply,
        ),
        margin_covers(
            unzap_liquidity(output_amount, reserve, total_supply, fee),
            other_reserve,
            total_supply,
        ),
    ensures
        ({
            let burned = unzap_liquidity(output_amount, reserve, total_supply, fee) + 3;
            &&& rounding_is_covered(
                burned,
                output_amount,
                reserve,
                other_reserve,
                total_supply,
                fee,
            )
            &&& 0 < pool_burn(burned, reserve, total_supply) <= reserve
            &&& 0 < pool_burn(burned, other_reserve, total_supply) <= other_reserve
        }),
{
    let l = unzap_liquidity(output_amount, reserve, total_supply, fee);
    let burned = l + 3;
    let own = pool_burn(burned, reserve, total_supply);
    let other = pool_burn(burned, other_reserve, total_supply);
    lemma_unzap_liquidity(output_amount, reserve, total_supply, fee);
    lemma_burn_bounds(l, reserve, total_supply);
    lemma_burn_bounds(l, other_reserve, total_supply);
    if own < reserve && other < other_reserve {
        law_unzap_reaches_target(
            output_amount,
            reserve,
            other_reserve,
            total_supply,
            fee,
            own,
            other,
        );
    } else {
        // Only a withdrawal of everything leaves nothing of a reserve.
        assert(burned == total_supply);
        assert((total_supply * reserve) / total_supply == reserve) by (nonlinear_arith)
            requires
                total_supply > 0,
        ;
    }
    law_exact_out_reaches_target(output_amount, reserve, other_reserve, total_supply, fee);
}

/// Whether three more units of liquidity make up for the rounding of a
/// withdrawal: what is paid for `l + 3` is at least the exact share of `l`.
pub open spec fn margin_covers(l: nat, reserve: nat, total_supply: nat) -> bool {
    pool_burn(l + 3, reserve, total_supply) * total_supply >= l * reserve
}

/// The margin makes up for the rounding wherever three units of liquidity are
/// worth at least one unit of the token.
pub proof fn law_margin_covers_rounding(l: nat, reserve: nat, total_supply: nat)
    requires
        0 < total_supply <= 3 * reserve,
    ensures
        margin_covers(l, reserve, total_supply),
{
    let n = (l + 3) * reserve;
    lemma_floor(n, total_supply);
    assert(n == l * reserve + 3 * reserve) by (nonlinear_arith)
        requires
            n == (l + 3) * reserve,
    ;
}

/// A withdrawal that the margin covers pays something, and leaves something
/// unless it is of the whole supply.
proof fn lemma_burn_bounds(l: nat, reserve: nat, total_supply: nat)
    requires
        0 < l,
        l + 3 <= total_supply,
        0 < reserve,
        margin_covers(l, reserve, total_supply),
    ensures
        ({
            let paid = pool_burn(l + 3, reserve, total_supply);
            &&& 0 < paid <= reserve
            &&& l + 3 < total_supply ==> paid < reserve
        }),
{
    let paid = pool_burn(l + 3, reserve, total_supply);
    lemma_floor((l + 3) * reserve, total_supply);
    assert(l * reserve > 0) by (nonlinear_arith)
        requires
            l > 0,
            reserve > 0,
    ;
    assert(paid > 0) by (nonlinear_arith)
        requires
            paid * total_supply > 0,
            total_supply > 0,
    ;
    assert(paid <= reserve) by (nonlinear_arith)
        requires
            paid * total_supply <= (l + 3) * reserve,
            l + 3 <= total_supply,
            reserve > 0,
            total_supply > 0,
    ;
    if l + 3 < total_supply {
        assert(paid < reserve) by (nonlinear_arith)
            requires
                paid * total_supply <= (l + 3) * reserve,
                l + 3 < total_supply,
                reserve > 0,
                total_supply > 0,
        ;
    }
}

/// A withdrawal of at most the exact shares of `liquidity` that reaches the
/// target puts the quadratic at `liquidity` at or below zero.
proof fn lemma_target_needs_shares(
    liquidity: nat,
    own: nat,
    other: nat,
    output_amount: nat,
    reserve: nat,
    other_reserve: nat,
    total_supply: nat,
    fee: nat,
)
    requires
        0 < output_amount < reserve,
        0 < other_reserve,
        0 < total_supply,
        liquidity <= total_supply,
        fee < 1000,
        own * total_supply <= liquidity * reserve,
        other * total_supply <= liquidity * other_reserve,
        own < output_amount ==> ({
            let a = traded_per_1000(fee);
            (output_amount - own) * ((other_reserve - other) * 1000 + other * a) <= (other * a) * (
            reserve - own)
        }),
    ensures
        reaches_target(liquidity, output_amount, reserve, total_supply, fee),
{
    let a = traded_per_1000(fee) as int;
    let ts = total_supply as int;
    let l = liquidity as int;
    let t = output_amount as int;
    let q = other_reserve as int;
    let b = unzap_coefficient(output_amount, reserve, fee) as int;
    let slope = a * reserve + fee * t;
    assert(b == slope + 1000 * reserve) by (nonlinear_arith)
        requires
            b == reserve * (2000 - fee) + t * fee,
            slope == a * reserve + fee * t,
            a == 1000 - fee,
    ;
    if own < output_amount {
        let step = slope - 1000 * own;
        let short = q * (own - t);
        let value = other * step + 1000 * short;
        lemma_unzap_value(own as int, other as int, t, reserve as int, q, fee as int);
        assert(step >= 0) by (nonlinear_arith)
            requires
                step == a * reserve + fee * t - 1000 * own,
                a == 1000 - fee,
                own < t < reserve,
                0 <= fee < 1000,
        ;
        assert((other * ts) * step <= (l * q) * step) by (nonlinear_arith)
            requires
                other * ts <= l * q,
                step >= 0,
        ;
        assert(value * ts == (other * ts) * step + 1000 * (short * ts)) by (nonlinear_arith)
            requires
                value == other * step + 1000 * short,
        ;
        assert(value * ts >= 0) by (nonlinear_arith)
            requires
                value >= 0,
                ts >= 0,
        ;
        let inner = l * step + 1000 * ((own - t) * ts);
        assert(q * inner == (l * q) * step + 1000 * (short * ts)) by (nonlinear_arith)
            requires
                inner == l * step + 1000 * ((own - t) * ts),
                short == q * (own - t),
        ;
        assert(inner >= 0) by (nonlinear_arith)
            requires
                q * inner >= 0,
                q > 0,
        ;
        assert((own * ts) * (ts - l) <= (l * reserve) * (ts - l)) by (nonlinear_arith)
            requires
                own * ts <= l * reserve,
                ts - l >= 0,
        ;
        assert(inner == l * slope + 1000 * (own * (ts - l)) - 1000 * (t * ts))
            by (nonlinear_arith)
            requires
                inner == l * step + 1000 * ((own - t) * ts),
                step == slope - 1000 * own,
        ;
        lemma_quadratic_form(l, slope, own as int, ts, t, reserve as int);
        assert(inner * ts >= 0) by (nonlinear_arith)
            requires
                inner >= 0,
                ts >= 0,
        ;
    } else {
        let over = l * reserve - t * ts;
        assert(t * ts <= own * ts) by (nonlinear_arith)
            requires
                t <= own,
                ts >= 0,
        ;
        let gain = (t * ts) * (a * (ts - l)) + over * (1000 * (ts - l) + a * ts);
        assert(gain >= 0) by (nonlinear_arith)
            requires
                gain == (t * ts) * (a * (ts - l)) + over * (1000 * (ts - l) + a * ts),
                t >= 0,
                ts >= 0,
                a >= 0,
                ts - l >= 0,
                over >= 0,
        ;
        let share = l * reserve;
        assert(b * (l * ts) == (share * ts) * (1000 + a) + (t * ts) * (fee * l))
            by {
            let k = 1000 + a;
            assert((reserve * k + t * fee) * (l * ts) == (reserve * k) * (l * ts) + (t * fee) * (l
                * ts)) by (nonlinear_arith);
            assert((reserve * k) * (l * ts) == (share * ts) * k) by (nonlinear_arith)
                requires
                    share == l * reserve,
            ;
            assert((t * fee) * (l * ts) == (t * ts) * (fee * l)) by (nonlinear_arith);
        }
        assert(1000 * reserve * (l * l) == 1000 * (share * l)) by (nonlinear_arith)
            requires
                share == l * reserve,
        ;
        assert(gain == (share * ts) * (1000 + a) + (t * ts) * (fee * l) - 1000 * (share * l) - 1000
            * t * (ts * ts)) by {
            let m = t * ts;
            assert(m * (a * (ts - l)) == a * (m * ts) - a * (m * l)) by (nonlinear_arith);
            assert(over * (1000 * (ts - l) + a * ts) == (1000 + a) * (over * ts) - 1000 * (over
                * l)) by (nonlinear_arith);
            assert(over * ts == share * ts - m * ts) by (nonlinear_arith)
                requires
                    over == share - m,
            ;
            assert(over * l == share * l - m * l) by (nonlinear_arith)
                requires
                    over == share - m,
            ;
            assert(m * (fee * l) == fee * (m * l)) by (nonlinear_arith);
            assert(1000 * t * (ts * ts) == 1000 * (m * ts)) by (nonlinear_arith)
                requires
                    m == t * ts,
            ;
            assert((share * ts) * (1000 + a) == (1000 + a) * (share * ts)) by (nonlinear_arith);
            assert((1000 + a) * (over * ts) == (1000 + a) * (share * ts) - (1000 + a) * (m * ts))
                by (nonlinear_arith)
                requires
                    over * ts == share * ts - m * ts,
            ;
            assert((1000 + a) * (m * ts) == 1000 * (m * ts) + a * (m * ts)) by (nonlinear_arith);
            assert(a * (m * l) == 1000 * (m * l) - fee * (m * l)) by (nonlinear_arith)
                requires
                    a == 1000 - fee,
            ;
        }
    }
}

/// The inverse unzap asks for little more than the least liquidity: whatever
/// part of the supply yields the target costs at least the closed form, up to
/// one unit and the rounding of its square root, which is worth `ts / (2000*R)`.
pub proof fn law_unzap_is_near_least(
    liquidity: nat,
    output_amount: nat,
    reserve: nat,
    other_reserve: nat,
    total_supply: nat,
    fee: nat,
)
    requires
        0 < output_amount < reserve,
        other_reserve > 0,
        total_supply > 0,
        fee < 1000,
        liquidity <= total_supply,
        unzap_output(liquidity, reserve, other_reserve, total_supply, fee) >= output_amount,
    ensures
        (unzap_liquidity(output_amount, reserve, total_supply, fee) - 1) * (2000 * reserve)
            < liquidity * (2000 * reserve) + total_supply,
{
    let own = pool_burn(liquidity, reserve, total_supply);
    let other = pool_burn(liquidity, other_reserve, total_supply);
    lemma_floor(liquidity * reserve, total_supply);
    lemma_floor(liquidity * other_reserve, total_supply);
    if own < output_amount {
        assert(own < reserve && other < other_reserve);
        lemma_swap_reaches(
            other,
            (other_reserve - other) as nat,
            (reserve - own) as nat,
            fee,
            output_amount - own,
        );
    }
    lemma_target_needs_shares(
        liquidity,
        own,
        other,
        output_amount,
        reserve,
        other_reserve,
        total_supply,
        fee,
    );
    let b = unzap_coefficient(output_amount, reserve, fee);
    let disc = (b * b - 4_000_000 * reserve * output_amount) as nat;
    let r = isqrt(disc);
    let root = unzap_root(output_amount, reserve, fee);
    let l = unzap_liquidity(output_amount, reserve, total_supply, fee);
    let ts = total_supply as int;
    lemma_unzap_discriminant(output_amount, reserve, fee);
    lemma_isqrt(disc);
    assert(4_000_000 * reserve * output_amount > 0) by (nonlinear_arith)
        requires
            reserve > 0,
            output_amount > 0,
    ;
    assert(r < b) by (nonlinear_arith)
        requires
            r * r < b * b,
            r >= 0,
            b >= 0,
    ;
    let x = 2000 * reserve * liquidity;
    let gap = b * ts - x;
    lemma_complete_square(
        liquidity,
        output_amount,
        reserve,
        total_supply,
        fee,
        disc as int,
        gap,
    );
    let limit = (r + 1) * ts;
    assert(disc * (ts * ts) < limit * limit) by (nonlinear_arith)
        requires
            disc < (r + 1) * (r + 1),
            limit == (r + 1) * ts,
            ts > 0,
    ;
    assert(gap < limit) by (nonlinear_arith)
        requires
            gap * gap < limit * limit,
            limit >= 0,
    ;
    let n = root * total_supply;
    let d = 2000 * reserve;
    lemma_ceil_div(n, d);
    assert((l - 1) * d == l * d - d) by (nonlinear_arith);
    assert(liquidity * d == x) by (nonlinear_arith)
        requires
            x == 2000 * reserve * liquidity,
            d == 2000 * reserve,
    ;
    assert(n == b * ts - limit + ts) by (nonlinear_arith)
        requires
            n == root * ts,
            root == b - r,
            limit == (r + 1) * ts,
    ;
}

} // verus!
