//! How close the rounded results come: what a zap leaves over, how far the
//! inverse of a zap can fall below the zap, and how far the input for a liquidity
//! target can lie above the least one.

use crate::amm_laws::{
    law_inverse_covers_target, law_inverse_is_lower_bound, law_split_balances,
    law_zap_deposits_whole_output, lemma_floor, lemma_inverse_is_least, lemma_swap_ratio,
};
use crate::amm_logic::{
    ceil_div, exact_lp_amount, exact_lp_refusal, first_bump, inverse_amount, inverse_swap,
    is_first_to_mint, lemma_ceil_div, lemma_first_to_mint, lemma_optimal_split_exists,
    lemma_planned_deposit, lemma_tried_first, lemma_tried_next, optimal_split, planned_deposit,
    pool_mint, predicted_lp, swap_out, traded_per_1000, tried_amount,
};
use vstd::arithmetic::power2::{lemma_pow2_pos, pow2};
use vstd::prelude::*;

verus! {

/// What the swap of a zap pays out.
pub open spec fn zap_output(amount_in: nat, reserve_in: nat, reserve_out: nat, fee: nat) -> nat {
    swap_out(optimal_split(amount_in, reserve_in, fee), reserve_in, reserve_out, fee)
}

/// What a zap deposits, in input and output.
pub open spec fn zap_deposit(amount_in: nat, reserve_in: nat, reserve_out: nat, fee: nat) -> (
    nat,
    nat,
) {
    let s = optimal_split(amount_in, reserve_in, fee);
    let out = zap_output(amount_in, reserve_in, reserve_out, fee);
    planned_deposit((amount_in - s) as nat, out, reserve_in + s, (reserve_out - out) as nat)
}

/// What the pool mints for the deposit of a zap.
pub open spec fn zap_mint(
    amount_in: nat,
    reserve_in: nat,
    reserve_out: nat,
    total_supply: nat,
    fee: nat,
) -> nat {
    let s = optimal_split(amount_in, reserve_in, fee);
    let out = zap_output(amount_in, reserve_in, reserve_out, fee);
    let deposit = zap_deposit(amount_in, reserve_in, reserve_out, fee);
    pool_mint(deposit.0, deposit.1, reserve_in + s, (reserve_out - out) as nat, total_supply)
}

/// The price of one unit of output in input, rounded up: all the input that there
/// is against the output that the swap leaves.
pub open spec fn output_price(amount_in: nat, reserve_in: nat, reserve_out: nat, fee: nat) -> nat {
    ceil_div(
        reserve_in + amount_in,
        (reserve_out - zap_output(amount_in, reserve_in, reserve_out, fee)) as nat,
    )
}

/// The price of one unit of liquidity in input after the swap, rounded up.
pub open spec fn liquidity_price(
    amount_in: nat,
    reserve_in: nat,
    total_supply: nat,
    fee: nat,
) -> nat {
    ceil_div(reserve_in + optimal_split(amount_in, reserve_in, fee), total_supply)
}

/// How much one unit more or less in the split weighs against the reserve:
/// `(2s + 1) / R`, rounded up.
pub open spec fn split_weight(amount_in: nat, reserve_in: nat, fee: nat) -> nat {
    ceil_div(2 * optimal_split(amount_in, reserve_in, fee) + 1, reserve_in)
}

/// What the rounding of a swap costs: with `q` paid out of `Q`,
/// `x * a * (Q - q) < 1000 * R * (q + 1) + x * a`.
pub proof fn lemma_swap_rounding(amount_in: nat, reserve_in: nat, reserve_out: nat, fee: nat)
    requires
        reserve_in > 0,
        reserve_out > 0,
    ensures
        ({
            let q = swap_out(amount_in, reserve_in, reserve_out, fee);
            let t = amount_in * traded_per_1000(fee);
            t * (reserve_out - q) < (1000 * reserve_in) * (q + 1) + t
        }),
{
    let t = amount_in * traded_per_1000(fee);
    let d = reserve_in * 1000 + t;
    let q = swap_out(amount_in, reserve_in, reserve_out, fee);
    assert(t >= 0) by (nonlinear_arith)
        requires
            t == amount_in * traded_per_1000(fee),
    ;
    lemma_floor(t * reserve_out, d);
    assert(t * (reserve_out - q) < (1000 * reserve_in) * (q + 1) + t) by (nonlinear_arith)
        requires
            t * reserve_out < q * d + d,
            d == reserve_in * 1000 + t,
    ;
}

/// What the roundings of split and swap together take from the match between the
/// remaining input `k` and the payout `q`, at the new reserves `N` and `P`:
/// `R*(k*P - q*N) < R*(R + A + P) + P*(R + 2s + 1)`.
proof fn lemma_match_is_close(amount_in: nat, reserve_in: nat, reserve_out: nat, fee: nat)
    requires
        amount_in > 0,
        reserve_in > 0,
        reserve_out > 0,
        fee < 1000,
    ensures
        ({
            let s = optimal_split(amount_in, reserve_in, fee);
            let out = zap_output(amount_in, reserve_in, reserve_out, fee);
            let keep = amount_in - s;
            let new_in = reserve_in + s;
            let new_out = reserve_out - out;
            &&& s < amount_in
            &&& out < reserve_out
            &&& reserve_in * (keep * new_out - out * new_in) < reserve_in * (reserve_in + amount_in
                + new_out) + new_out * (reserve_in + 2 * s + 1)
        }),
{
    let a = traded_per_1000(fee) as int;
    let s = optimal_split(amount_in, reserve_in, fee) as int;
    let out = zap_output(amount_in, reserve_in, reserve_out, fee) as int;
    let keep = amount_in - s;
    let n = reserve_in + s;
    let p = reserve_out - out;
    let k = 1000 * reserve_in;
    let m = s * a;
    law_split_balances(amount_in, reserve_in, fee);
    lemma_swap_ratio(s as nat, reserve_in, reserve_out, fee);
    lemma_swap_rounding(s as nat, reserve_in, reserve_out, fee);
    assert(m >= 0) by (nonlinear_arith)
        requires
            m == s * a,
            s >= 0,
            a >= 0,
    ;
    // k * (keep - 1) < m * n + a * (s + n + 1)
    assert((s + 1) * a * (n + 1) == m * n + a * (s + n + 1)) by (nonlinear_arith)
        requires
            m == s * a,
    ;
    assert(k * (keep - 1) == k * keep - k) by (nonlinear_arith);
    let extra = k + a * (s + n + 1);
    assert((k * keep) * p < (m * n) * p + extra * p) by (nonlinear_arith)
        requires
            k * keep < m * n + extra,
            p > 0,
    ;
    assert((m * n) * p == (m * p) * n) by (nonlinear_arith);
    assert((m * p) * n <= (k * (out + 1)) * n + m * n) by (nonlinear_arith)
        requires
            m * p < k * (out + 1) + m,
            n > 0,
    ;
    assert((k * (out + 1)) * n == k * (out * n) + k * n) by (nonlinear_arith);
    assert((k * keep) * p == k * (keep * p)) by (nonlinear_arith);
    assert(a * (s + n + 1) <= 1000 * (s + n + 1)) by (nonlinear_arith)
        requires
            0 <= a <= 1000,
            s + n + 1 >= 0,
    ;
    assert(extra * p <= (k + 1000 * (s + n + 1)) * p) by (nonlinear_arith)
        requires
            extra <= k + 1000 * (s + n + 1),
            p >= 0,
    ;
    assert(k * (keep * p - out * n) == k * (keep * p) - k * (out * n)) by (nonlinear_arith);
    assert(k * (n + keep) == k * n + k * keep) by (nonlinear_arith);
    let gap = keep * p - out * n;
    assert(reserve_in * gap < reserve_in * (reserve_in + amount_in + p) + p * (reserve_in + 2 * s
        + 1)) by (nonlinear_arith)
        requires
            k * gap < k * (n + keep) + (k + 1000 * (s + n + 1)) * p,
            k == 1000 * reserve_in,
            n == reserve_in + s,
            keep == amount_in - s,
    ;
}

/// Little is left over after split, swap and capped deposit: nothing of the
/// output, and of the input at most two units, the weight of one unit in the
/// split, and the price of one unit of output.
pub proof fn law_zap_leftover_is_small(amount_in: nat, reserve_in: nat, reserve_out: nat, fee: nat)
    requires
        amount_in > 0,
        reserve_in > 0,
        reserve_out > 0,
        fee < 1000,
    ensures
        ({
            let s = optimal_split(amount_in, reserve_in, fee);
            let keep = amount_in - s;
            let deposit = zap_deposit(amount_in, reserve_in, reserve_out, fee);
            &&& deposit.1 == zap_output(amount_in, reserve_in, reserve_out, fee)
            &&& 0 <= keep - deposit.0 <= 2 + split_weight(amount_in, reserve_in, fee)
                + output_price(amount_in, reserve_in, reserve_out, fee)
        }),
{
    let s = optimal_split(amount_in, reserve_in, fee);
    let out = zap_output(amount_in, reserve_in, reserve_out, fee);
    let keep = (amount_in - s) as nat;
    let n = reserve_in + s;
    let p = (reserve_out - out) as nat;
    let deposit = zap_deposit(amount_in, reserve_in, reserve_out, fee);
    let left = keep - deposit.0;
    law_zap_deposits_whole_output(amount_in, reserve_in, reserve_out, fee);
    lemma_match_is_close(amount_in, reserve_in, reserve_out, fee);
    lemma_planned_deposit(keep, out, n, p);
    lemma_deposit_matches(amount_in, reserve_in, reserve_out, fee);
    let weight = split_weight(amount_in, reserve_in, fee);
    let price = output_price(amount_in, reserve_in, reserve_out, fee);
    lemma_ceil_div(2 * s + 1, reserve_in);
    lemma_ceil_div(reserve_in + amount_in, p);
    if left > 0 {
        let gap = keep * p - out * n;
        assert(left * p < gap + p) by (nonlinear_arith)
            requires
                left == keep - deposit.0,
                deposit.0 * p + p > out * n,
                gap == keep * p - out * n,
        ;
        lemma_scaled_bound(
            left as int,
            gap,
            reserve_in as int,
            p as int,
            (reserve_in + amount_in) as int,
            (2 * s + 1) as int,
            price as int,
            weight as int,
        );
    }
}

/// From the scaled bound on a leftover to the leftover itself.
proof fn lemma_scaled_bound(
    left: int,
    gap: int,
    r: int,
    p: int,
    all: int,
    odd: int,
    price: int,
    weight: int,
)
    requires
        r > 0,
        p > 0,
        left * p < gap + p,
        r * gap < r * (all + p) + p * (r + odd),
        price * p >= all,
        weight * r >= odd,
    ensures
        left <= 2 + weight + price,
{
    assert(r * (left * p) < r * (gap + p)) by (nonlinear_arith)
        requires
            r > 0,
            left * p < gap + p,
    ;
    assert(r * (gap + p) == r * gap + r * p) by (nonlinear_arith);
    assert(r * (all + p) <= r * (price * p + p)) by (nonlinear_arith)
        requires
            r > 0,
            price * p >= all,
    ;
    assert(p * (r + odd) <= p * (r + weight * r)) by (nonlinear_arith)
        requires
            p > 0,
            weight * r >= odd,
    ;
    let rp = r * p;
    assert(r * (left * p) == left * rp) by (nonlinear_arith)
        requires
            rp == r * p,
    ;
    assert(r * (price * p + p) == price * rp + rp) by (nonlinear_arith)
        requires
            rp == r * p,
    ;
    assert(p * (r + weight * r) == rp + weight * rp) by (nonlinear_arith)
        requires
            rp == r * p,
    ;
    assert((3 + weight + price) * rp == 3 * rp + weight * rp + price * rp) by (nonlinear_arith);
    assert(rp > 0) by (nonlinear_arith)
        requires
            rp == r * p,
            r > 0,
            p > 0,
    ;
    assert(left < 3 + weight + price) by (nonlinear_arith)
        requires
            left * rp < (3 + weight + price) * rp,
            rp > 0,
    ;
}

/// The deposited input matches the payout up to one unit on either side:
/// `q*N < d*P + P` and `d*P < q*N + N`.
pub proof fn lemma_deposit_matches(amount_in: nat, reserve_in: nat, reserve_out: nat, fee: nat)
    requires
        amount_in > 0,
        reserve_in > 0,
        reserve_out > 0,
        fee < 1000,
    ensures
        ({
            let s = optimal_split(amount_in, reserve_in, fee);
            let out = zap_output(amount_in, reserve_in, reserve_out, fee);
            let new_out = reserve_out - out;
            let deposit = zap_deposit(amount_in, reserve_in, reserve_out, fee);
            &&& new_out > 0
            &&& deposit.0 * new_out + new_out > out * (reserve_in + s)
            &&& deposit.0 * new_out < out * (reserve_in + s) + (reserve_in + s)
        }),
{
    let s = optimal_split(amount_in, reserve_in, fee);
    let out = zap_output(amount_in, reserve_in, reserve_out, fee);
    let keep = (amount_in - s) as nat;
    let n = reserve_in + s;
    let p = (reserve_out - out) as nat;
    law_zap_deposits_whole_output(amount_in, reserve_in, reserve_out, fee);
    lemma_optimal_split_exists(amount_in, reserve_in, fee);
    lemma_swap_ratio(s, reserve_in, reserve_out, fee);
    lemma_floor(keep * p, n);
    lemma_floor(out * n, p);
    let q = (keep * p) / n;
    if q <= out {
        assert(q == out);
    }
}

/// The prediction is the mint, as far as that fits in 128 bits.
pub proof fn lemma_prediction_is_mint(
    amount_in: nat,
    reserve_in: nat,
    reserve_out: nat,
    total_supply: nat,
    fee: nat,
)
    requires
        amount_in > 0,
        reserve_in > 0,
        reserve_out > 0,
        fee < 1000,
        reserve_in + amount_in <= u128::MAX,
        zap_mint(amount_in, reserve_in, reserve_out, total_supply, fee) <= u128::MAX,
    ensures
        predicted_lp(amount_in, reserve_in, reserve_out, total_supply, fee) == zap_mint(
            amount_in,
            reserve_in,
            reserve_out,
            total_supply,
            fee,
        ),
{
    let s = optimal_split(amount_in, reserve_in, fee);
    let out = zap_output(amount_in, reserve_in, reserve_out, fee);
    let p = (reserve_out - out) as nat;
    let n = reserve_in + s;
    let deposit = zap_deposit(amount_in, reserve_in, reserve_out, fee);
    law_zap_deposits_whole_output(amount_in, reserve_in, reserve_out, fee);
    lemma_optimal_split_exists(amount_in, reserve_in, fee);
    lemma_swap_ratio(s, reserve_in, reserve_out, fee);
    if s == 0 {
        assert(out == 0) by (nonlinear_arith)
            requires
                out * (1000 * reserve_in) <= (s * traded_per_1000(fee)) * p,
                s == 0,
                reserve_in > 0,
                out >= 0,
        ;
    }
    assert((0 * total_supply) / p == 0 && (0 * total_supply) / n == 0) by (nonlinear_arith)
        requires
            p > 0,
            n > 0,
    ;
}

/// What the roundings of deposit and mint take from the liquidity:
/// `(q*N - P)*ts < (L + 1)*N*P`.
proof fn lemma_mint_rounding(
    amount_in: nat,
    reserve_in: nat,
    reserve_out: nat,
    total_supply: nat,
    fee: nat,
)
    requires
        amount_in > 0,
        reserve_in > 0,
        reserve_out > 0,
        fee < 1000,
        total_supply > 0,
    ensures
        ({
            let s = optimal_split(amount_in, reserve_in, fee);
            let out = zap_output(amount_in, reserve_in, reserve_out, fee);
            let minted = zap_mint(amount_in, reserve_in, reserve_out, total_supply, fee);
            let n = reserve_in + s;
            let p = reserve_out - out;
            (out * n - p) * total_supply < (minted + 1) * (n * p)
        }),
{
    let s = optimal_split(amount_in, reserve_in, fee);
    let out = zap_output(amount_in, reserve_in, reserve_out, fee);
    let minted = zap_mint(amount_in, reserve_in, reserve_out, total_supply, fee);
    let n = reserve_in + s;
    let p = (reserve_out - out) as nat;
    let ts = total_supply;
    let deposit = zap_deposit(amount_in, reserve_in, reserve_out, fee);
    law_zap_deposits_whole_output(amount_in, reserve_in, reserve_out, fee);
    lemma_deposit_matches(amount_in, reserve_in, reserve_out, fee);
    lemma_floor(deposit.0 * ts, n);
    lemma_floor(out * ts, p);
    let by_input = (deposit.0 * ts) / n;
    let by_output = (out * ts) / p;
    if by_input < by_output {
        assert(deposit.0 * ts < (minted + 1) * n) by (nonlinear_arith)
            requires
                deposit.0 * ts < by_input * n + n,
                minted == by_input,
        ;
        assert((deposit.0 * ts) * p < ((minted + 1) * n) * p) by (nonlinear_arith)
            requires
                deposit.0 * ts < (minted + 1) * n,
                p > 0,
        ;
        assert((out * n - p) * ts <= (deposit.0 * p) * ts) by (nonlinear_arith)
            requires
                deposit.0 * p + p > out * n,
                ts > 0,
        ;
        assert((deposit.0 * p) * ts == (deposit.0 * ts) * p) by (nonlinear_arith);
        assert(((minted + 1) * n) * p == (minted + 1) * (n * p)) by (nonlinear_arith);
    } else {
        assert(out * ts < (minted + 1) * p) by (nonlinear_arith)
            requires
                out * ts < by_output * p + p,
                minted == by_output,
        ;
        assert((out * ts) * n < ((minted + 1) * p) * n) by (nonlinear_arith)
            requires
                out * ts < (minted + 1) * p,
                n > 0,
        ;
        assert((out * n - p) * ts <= (out * ts) * n) by (nonlinear_arith)
            requires
                p >= 0,
                ts >= 0,
        ;
        assert(((minted + 1) * p) * n == (minted + 1) * (n * p)) by (nonlinear_arith);
    }
}

/// The swapped part, against what the minted liquidity needs:
/// `s*a*ts - 1000*R*L < 1000*ts*(1 + u + w)`, with `u` the price of a unit of
/// output and `w` that of a unit of liquidity.
proof fn lemma_swap_side(
    amount_in: nat,
    reserve_in: nat,
    reserve_out: nat,
    total_supply: nat,
    fee: nat,
)
    requires
        amount_in > 0,
        reserve_in > 0,
        reserve_out > 0,
        fee < 1000,
        total_supply > 0,
    ensures
        ({
            let s = optimal_split(amount_in, reserve_in, fee);
            let minted = zap_mint(amount_in, reserve_in, reserve_out, total_supply, fee);
            let u = output_price(amount_in, reserve_in, reserve_out, fee);
            let w = liquidity_price(amount_in, reserve_in, total_supply, fee);
            (s * traded_per_1000(fee)) * total_supply - (1000 * reserve_in) * minted < (1000
                * total_supply) * (1 + u + w)
        }),
{
    let a = traded_per_1000(fee) as int;
    let s = optimal_split(amount_in, reserve_in, fee) as int;
    let out = zap_output(amount_in, reserve_in, reserve_out, fee) as int;
    let minted = zap_mint(amount_in, reserve_in, reserve_out, total_supply, fee) as int;
    let n = reserve_in + s;
    let p = reserve_out - out;
    let ts = total_supply as int;
    let k = 1000 * reserve_in;
    let m = s * a;
    let keep = amount_in - s;
    let u = output_price(amount_in, reserve_in, reserve_out, fee) as int;
    let w = liquidity_price(amount_in, reserve_in, total_supply, fee) as int;
    law_split_balances(amount_in, reserve_in, fee);
    lemma_swap_ratio(s as nat, reserve_in, reserve_out, fee);
    lemma_swap_rounding(s as nat, reserve_in, reserve_out, fee);
    lemma_mint_rounding(amount_in, reserve_in, reserve_out, total_supply, fee);
    lemma_ceil_div((reserve_in + amount_in) as nat, p as nat);
    lemma_ceil_div(n as nat, total_supply);
    let nt = n * ts;
    let np = n * p;
    assert(nt > 0 && np > 0 && k > 0) by (nonlinear_arith)
        requires
            nt == n * ts,
            np == n * p,
            k == 1000 * reserve_in,
            n > 0,
            ts > 0,
            p > 0,
            reserve_in > 0,
    ;
    // n * ts * m * p < n * ts * (k * (out + 1) + m)
    assert(nt * (m * p) < nt * (k * (out + 1) + m)) by (nonlinear_arith)
        requires
            m * p < k * (out + 1) + m,
            nt > 0,
    ;
    assert(nt * (k * (out + 1) + m) == k * (nt * (out + 1)) + nt * m) by (nonlinear_arith);
    assert(nt * m <= ts * (k * keep)) by (nonlinear_arith)
        requires
            nt == n * ts,
            m * n <= k * keep,
            ts > 0,
    ;
    // k * (out * n - p) * ts < k * (minted + 1) * n * p
    assert(k * ((out * n - p) * ts) < k * ((minted + 1) * np)) by (nonlinear_arith)
        requires
            (out * n - p) * ts < (minted + 1) * np,
            k > 0,
    ;
    assert((out * n - p) * ts == nt * out - p * ts) by (nonlinear_arith)
        requires
            nt == n * ts,
    ;
    assert((minted + 1) * np == np * minted + np) by (nonlinear_arith);
    assert(nt * (out + 1) == nt * out + nt) by (nonlinear_arith);
    let total = ts * keep + nt + p * ts + np;
    assert(nt * (m * p) - k * (np * minted) < k * total) by (nonlinear_arith)
        requires
            nt * (m * p) < k * (nt * out + nt) + nt * m,
            nt * m <= ts * (k * keep),
            k * (nt * out - p * ts) < k * (np * minted + np),
            total == ts * keep + nt + p * ts + np,
    ;
    // total = ts*(R + A) + p*ts + n*p <= p*ts*(1 + u + w)
    let pt = p * ts;
    let rate = 1 + u + w;
    assert(total <= pt * rate) by {
        assert(ts * keep + nt == ts * (keep + n)) by (nonlinear_arith)
            requires
                nt == n * ts,
        ;
        assert(ts * (keep + n) <= ts * (u * p)) by (nonlinear_arith)
            requires
                keep + n <= u * p,
                ts > 0,
        ;
        assert(np <= (w * ts) * p) by (nonlinear_arith)
            requires
                np == n * p,
                n <= w * ts,
                p > 0,
        ;
        assert(ts * (u * p) + pt + (w * ts) * p == pt * rate) by (nonlinear_arith)
            requires
                pt == p * ts,
                rate == 1 + u + w,
        ;
    }
    assert(pt * rate >= 0) by (nonlinear_arith)
        requires
            pt == p * ts,
            p > 0,
            ts > 0,
            rate >= 0,
    ;
    assert(k * total <= (1000 * n) * (pt * rate)) by (nonlinear_arith)
        requires
            total <= pt * rate,
            0 <= k <= 1000 * n,
            pt * rate >= 0,
    ;
    assert(nt * (m * p) - k * (np * minted) == np * (m * ts - k * minted)) by (nonlinear_arith)
        requires
            nt == n * ts,
            np == n * p,
    ;
    assert((1000 * n) * (pt * rate) == np * ((1000 * ts) * rate)) by (nonlinear_arith)
        requires
            np == n * p,
            pt == p * ts,
    ;
    assert(m * ts - k * minted < (1000 * ts) * rate) by (nonlinear_arith)
        requires
            np * (m * ts - k * minted) < np * ((1000 * ts) * rate),
            np > 0,
    ;
}

/// The remaining input, against what the minted liquidity needs:
/// `k*ts - L*N < ts*(3 + t + u + w)`, with `t` the weight of a unit in the split,
/// `u` the price of a unit of output and `w` that of a unit of liquidity.
proof fn lemma_keep_side(
    amount_in: nat,
    reserve_in: nat,
    reserve_out: nat,
    total_supply: nat,
    fee: nat,
)
    requires
        amount_in > 0,
        reserve_in > 0,
        reserve_out > 0,
        fee < 1000,
        total_supply > 0,
    ensures
        ({
            let s = optimal_split(amount_in, reserve_in, fee);
            let minted = zap_mint(amount_in, reserve_in, reserve_out, total_supply, fee);
            let t = split_weight(amount_in, reserve_in, fee);
            let u = output_price(amount_in, reserve_in, reserve_out, fee);
            let w = liquidity_price(amount_in, reserve_in, total_supply, fee);
            (amount_in - s) * total_supply - minted * (reserve_in + s) < total_supply * (3 + t + u
                + w)
        }),
{
    let s = optimal_split(amount_in, reserve_in, fee) as int;
    let out = zap_output(amount_in, reserve_in, reserve_out, fee) as int;
    let minted = zap_mint(amount_in, reserve_in, reserve_out, total_supply, fee) as int;
    let r = reserve_in as int;
    let n = r + s;
    let p = reserve_out - out;
    let ts = total_supply as int;
    let keep = amount_in - s;
    let t = split_weight(amount_in, reserve_in, fee) as int;
    let u = output_price(amount_in, reserve_in, reserve_out, fee) as int;
    let w = liquidity_price(amount_in, reserve_in, total_supply, fee) as int;
    lemma_match_is_close(amount_in, reserve_in, reserve_out, fee);
    lemma_mint_rounding(amount_in, reserve_in, reserve_out, total_supply, fee);
    lemma_ceil_div((2 * s + 1) as nat, reserve_in);
    lemma_ceil_div((reserve_in + amount_in) as nat, p as nat);
    lemma_ceil_div(n as nat, total_supply);
    let gap = keep * p - out * n;
    let np = n * p;
    // p * (keep*ts - L*n) < gap*ts + p*ts + n*p
    let x = keep * ts - minted * n;
    assert(p * x == (keep * p) * ts - minted * np) by (nonlinear_arith)
        requires
            x == keep * ts - minted * n,
            np == n * p,
    ;
    assert((out * n - p) * ts == (out * n) * ts - p * ts) by (nonlinear_arith);
    assert(gap * ts == (keep * p) * ts - (out * n) * ts) by (nonlinear_arith)
        requires
            gap == keep * p - out * n,
    ;
    assert((minted + 1) * np == minted * np + np) by (nonlinear_arith);
    assert(r * (p * x) < r * (gap * ts + p * ts + np)) by (nonlinear_arith)
        requires
            p * x < gap * ts + p * ts + np,
            r > 0,
    ;
    let bound = r * (r + amount_in + p) + p * (r + 2 * s + 1);
    assert((r * gap) * ts <= bound * ts) by (nonlinear_arith)
        requires
            r * gap < bound,
            ts > 0,
    ;
    let rp = r * p;
    assert(bound <= rp * (2 + u + t)) by {
        assert(r * (r + amount_in + p) <= r * (u * p + p)) by (nonlinear_arith)
            requires
                r + amount_in <= u * p,
                r > 0,
        ;
        assert(p * (r + 2 * s + 1) <= p * (r + t * r)) by (nonlinear_arith)
            requires
                2 * s + 1 <= t * r,
                p > 0,
        ;
        assert(r * (u * p + p) + p * (r + t * r) == rp * (2 + u + t)) by (nonlinear_arith)
            requires
                rp == r * p,
        ;
    }
    assert(bound * ts <= (rp * (2 + u + t)) * ts) by (nonlinear_arith)
        requires
            bound <= rp * (2 + u + t),
            ts > 0,
    ;
    assert(r * np <= rp * (w * ts)) by (nonlinear_arith)
        requires
            np == n * p,
            rp == r * p,
            n <= w * ts,
            r > 0,
            p > 0,
    ;
    assert(r * (gap * ts + p * ts + np) == (r * gap) * ts + rp * ts + r * np) by (nonlinear_arith)
        requires
            rp == r * p,
    ;
    let rate = 3 + t + u + w;
    assert((rp * (2 + u + t)) * ts + rp * ts + rp * (w * ts) == rp * (ts * rate))
        by (nonlinear_arith)
        requires
            rate == 3 + t + u + w,
    ;
    assert(r * (p * x) == rp * x) by (nonlinear_arith)
        requires
            rp == r * p,
    ;
    assert(x < ts * rate) by (nonlinear_arith)
        requires
            rp * x < rp * (ts * rate),
            r > 0,
            p > 0,
            rp == r * p,
    ;
}

/// Inverting what a zap mints comes close to the zap, from below: the part to
/// swap falls short by the price of a unit of output and of a unit of liquidity
/// at most (after the fee, and one unit), and the input by that much, what the
/// shorter swap saves in the deposit, and a few units more.
pub proof fn law_inverse_is_close(
    amount_in: nat,
    reserve_in: nat,
    reserve_out: nat,
    total_supply: nat,
    fee: nat,
)
    requires
        amount_in > 0,
        reserve_in > 0,
        reserve_out > 0,
        total_supply > 0,
        fee < 1000,
        reserve_in + amount_in <= u128::MAX,
        zap_mint(amount_in, reserve_in, reserve_out, total_supply, fee) <= u128::MAX,
    ensures
        ({
            let minted = predicted_lp(amount_in, reserve_in, reserve_out, total_supply, fee);
            let s = optimal_split(amount_in, reserve_in, fee);
            let c = inverse_swap(minted, reserve_in, total_supply, fee);
            let inverse = inverse_amount(minted, reserve_in, total_supply, fee);
            let t = split_weight(amount_in, reserve_in, fee);
            let u = output_price(amount_in, reserve_in, reserve_out, fee);
            let w = liquidity_price(amount_in, reserve_in, total_supply, fee);
            &&& 0 <= s - c
            &&& (s - c) * traded_per_1000(fee) < 1000 * (1 + u + w)
            &&& 0 <= amount_in - inverse
            &&& (amount_in - inverse) * total_supply < (s - c) * (total_supply + minted)
                + total_supply * (3 + t + u + w)
        }),
{
    let a = traded_per_1000(fee) as int;
    let minted = predicted_lp(amount_in, reserve_in, reserve_out, total_supply, fee);
    let s = optimal_split(amount_in, reserve_in, fee);
    let c = inverse_swap(minted, reserve_in, total_supply, fee);
    let inverse = inverse_amount(minted, reserve_in, total_supply, fee);
    let kept = (inverse - c) as nat;
    let keep = amount_in - s;
    let ts = total_supply as int;
    let t = split_weight(amount_in, reserve_in, fee);
    let u = output_price(amount_in, reserve_in, reserve_out, fee);
    let w = liquidity_price(amount_in, reserve_in, total_supply, fee);
    lemma_optimal_split_exists(amount_in, reserve_in, fee);
    lemma_prediction_is_mint(amount_in, reserve_in, reserve_out, total_supply, fee);
    lemma_swap_side(amount_in, reserve_in, reserve_out, total_supply, fee);
    lemma_keep_side(amount_in, reserve_in, reserve_out, total_supply, fee);
    lemma_inverse_covers(minted, reserve_in, total_supply, fee);
    if minted > 0 {
        law_inverse_is_lower_bound(
            minted,
            amount_in,
            reserve_in,
            reserve_out,
            total_supply,
            fee,
        );
    } else {
        lemma_inverse_of_nothing(reserve_in, total_supply, fee);
    }
    let less = s - c;
    let rate = 1000 * (1 + u + w);
    assert((1000 * reserve_in) * minted == minted * 1000 * reserve_in) by (nonlinear_arith);
    assert((s * a) * ts - c * (a * ts) == (less * a) * ts) by (nonlinear_arith)
        requires
            less == s - c,
    ;
    assert((1000 * ts) * (1 + u + w) == rate * ts) by (nonlinear_arith)
        requires
            rate == 1000 * (1 + u + w),
    ;
    assert(less * a < rate) by (nonlinear_arith)
        requires
            (less * a) * ts < rate * ts,
            ts > 0,
    ;
    let n = reserve_in + s;
    assert(minted * (reserve_in + c) == minted * n - minted * less) by (nonlinear_arith)
        requires
            n == reserve_in + s,
            less == s - c,
    ;
    assert((amount_in - inverse) * ts == less * ts + keep * ts - kept * ts) by (nonlinear_arith)
        requires
            inverse == c + kept,
            less == s - c,
            keep == amount_in - s,
    ;
    assert(less * (ts + minted) == less * ts + minted * less) by (nonlinear_arith);
}

/// The closed form covers the target on both sides, nothing included.
proof fn lemma_inverse_covers(lp_out: nat, reserve_in: nat, total_supply: nat, fee: nat)
    requires
        reserve_in > 0,
        total_supply > 0,
        fee < 1000,
    ensures
        ({
            let a = traded_per_1000(fee);
            let s = inverse_swap(lp_out, reserve_in, total_supply, fee);
            let kept = inverse_amount(lp_out, reserve_in, total_supply, fee) - s;
            &&& kept >= 0
            &&& s * (a * total_supply) >= lp_out * 1000 * reserve_in
            &&& kept * total_supply >= lp_out * (reserve_in + s)
        }),
{
    let d = traded_per_1000(fee) * total_supply;
    let s = inverse_swap(lp_out, reserve_in, total_supply, fee);
    assert(d > 0) by (nonlinear_arith)
        requires
            d == traded_per_1000(fee) * total_supply,
            traded_per_1000(fee) > 0,
            total_supply > 0,
    ;
    lemma_ceil_div(lp_out * 1000 * reserve_in, d);
    lemma_ceil_div(lp_out * (reserve_in + s), total_supply);
}

/// No liquidity costs nothing.
proof fn lemma_inverse_of_nothing(reserve_in: nat, total_supply: nat, fee: nat)
    requires
        total_supply > 0,
        fee < 1000,
    ensures
        inverse_swap(0, reserve_in, total_supply, fee) == 0,
        inverse_amount(0, reserve_in, total_supply, fee) == 0,
{
    let d = traded_per_1000(fee) * total_supply;
    assert(d > 0) by (nonlinear_arith)
        requires
            d == traded_per_1000(fee) * total_supply,
            traded_per_1000(fee) > 0,
            total_supply > 0,
    ;
    assert(0nat * 1000 * reserve_in == 0) by (nonlinear_arith);
    assert((d - 1) / (d as int) == 0) by (nonlinear_arith)
        requires
            d > 0,
    ;
    assert(0nat * (reserve_in + 0nat) == 0) by (nonlinear_arith);
    assert((total_supply - 1) / (total_supply as int) == 0) by (nonlinear_arith)
        requires
            total_supply > 0,
    ;
}

/// A smaller target has a smaller closed form.
proof fn lemma_inverse_monotone(
    less: nat,
    lp_out: nat,
    reserve_in: nat,
    total_supply: nat,
    fee: nat,
)
    requires
        less <= lp_out,
        reserve_in > 0,
        total_supply > 0,
        fee < 1000,
    ensures
        inverse_amount(less, reserve_in, total_supply, fee) <= inverse_amount(
            lp_out,
            reserve_in,
            total_supply,
            fee,
        ),
{
    let c = inverse_swap(lp_out, reserve_in, total_supply, fee);
    lemma_inverse_covers(lp_out, reserve_in, total_supply, fee);
    if less == 0 {
        lemma_inverse_of_nothing(reserve_in, total_supply, fee);
    } else {
        assert(less * (1000 * reserve_in) <= lp_out * 1000 * reserve_in) by (nonlinear_arith)
            requires
                less <= lp_out,
        ;
        assert(less * (reserve_in + c) <= lp_out * (reserve_in + c)) by (nonlinear_arith)
            requires
                less <= lp_out,
        ;
        lemma_inverse_is_least(
            less,
            inverse_amount(lp_out, reserve_in, total_supply, fee),
            c,
            reserve_in,
            total_supply,
            fee,
        );
    }
}

/// Whether an input is so close to the closed form for `lp_out` that the pool's
/// roundings can account for the difference. With `a` the traded share, `t` the
/// weight of a unit in the split, `u` the price of a unit of output and `w` that
/// of a unit of liquidity: `a*ts*(A - closed) < 1000*(1 + u + w)*(ts + L)
/// + a*ts*(3 + t + u + w)`.
pub open spec fn is_near_closed_form(
    amount_in: nat,
    lp_out: nat,
    reserve_in: nat,
    reserve_out: nat,
    total_supply: nat,
    fee: nat,
) -> bool {
    let a = traded_per_1000(fee);
    let t = split_weight(amount_in, reserve_in, fee);
    let u = output_price(amount_in, reserve_in, reserve_out, fee);
    let w = liquidity_price(amount_in, reserve_in, total_supply, fee);
    (a * total_supply) * (amount_in - inverse_amount(lp_out, reserve_in, total_supply, fee)) < (1000
        * (1 + u + w)) * (total_supply + lp_out) + (a * total_supply) * (3 + t + u + w)
}

/// Only inputs near the closed form can fail to mint the target; every larger one
/// mints it.
pub proof fn law_far_inputs_mint(
    amount_in: nat,
    lp_out: nat,
    reserve_in: nat,
    reserve_out: nat,
    total_supply: nat,
    fee: nat,
)
    requires
        amount_in > 0,
        reserve_in > 0,
        reserve_out > 0,
        total_supply > 0,
        fee < 1000,
        reserve_in + amount_in <= u128::MAX,
        zap_mint(amount_in, reserve_in, reserve_out, total_supply, fee) <= u128::MAX,
    ensures
        predicted_lp(amount_in, reserve_in, reserve_out, total_supply, fee) >= lp_out
            || is_near_closed_form(
            amount_in,
            lp_out,
            reserve_in,
            reserve_out,
            total_supply,
            fee,
        ),
{
    let minted = predicted_lp(amount_in, reserve_in, reserve_out, total_supply, fee);
    if minted < lp_out {
        let a = traded_per_1000(fee) as int;
        let ts = total_supply as int;
        let s = optimal_split(amount_in, reserve_in, fee);
        let less = s - inverse_swap(minted, reserve_in, total_supply, fee);
        let low = amount_in - inverse_amount(minted, reserve_in, total_supply, fee);
        let x = amount_in - inverse_amount(lp_out, reserve_in, total_supply, fee);
        let t = split_weight(amount_in, reserve_in, fee);
        let u = output_price(amount_in, reserve_in, reserve_out, fee);
        let w = liquidity_price(amount_in, reserve_in, total_supply, fee);
        law_inverse_is_close(amount_in, reserve_in, reserve_out, total_supply, fee);
        lemma_inverse_monotone(minted, lp_out, reserve_in, total_supply, fee);
        let rate = 1000 * (1 + u + w);
        let rest = 3 + t + u + w;
        assert(x * ts <= low * ts) by (nonlinear_arith)
            requires
                x <= low,
                ts > 0,
        ;
        assert(a * (x * ts) < a * (less * (ts + minted) + ts * rest)) by (nonlinear_arith)
            requires
                x * ts < less * (ts + minted) + ts * rest,
                a > 0,
        ;
        assert((less * a) * (ts + minted) <= rate * (ts + lp_out)) by (nonlinear_arith)
            requires
                0 <= less * a <= rate,
                0 <= ts + minted <= ts + lp_out,
        ;
        assert(a * (less * (ts + minted) + ts * rest) == (less * a) * (ts + minted) + (a * ts)
            * rest) by (nonlinear_arith);
        assert(a * (x * ts) == (a * ts) * x) by (nonlinear_arith);
    }
}

/// The input for a liquidity target is the closed form, or an input tried before
/// it does not mint the target: the last one, which lies above the closed form by
/// the distance between the two less the first bump. Where reserves and mint fit
/// in 128 bits, that input is near the closed form. As no input below the closed
/// form mints the target, this is how far the result can lie above the least one.
pub proof fn law_exact_lp_overshoots_little(
    lp_out: nat,
    reserve_in: nat,
    reserve_out: nat,
    total_supply: nat,
    fee: nat,
)
    requires
        exact_lp_refusal(lp_out, reserve_in, reserve_out, total_supply, fee) is None,
    ensures
        ({
            let found = exact_lp_amount(lp_out, reserve_in, reserve_out, total_supply, fee)->0;
            let closed = inverse_amount(lp_out, reserve_in, total_supply, fee);
            let bump = first_bump(lp_out, reserve_in, total_supply, fee);
            found == closed || exists|tried: nat|
                {
                    &&& closed <= tried < found
                    &&& found - tried == tried - closed + bump
                    &&& #[trigger] predicted_lp(
                        tried,
                        reserve_in,
                        reserve_out,
                        total_supply,
                        fee,
                    ) < lp_out
                    &&& reserve_in + tried <= u128::MAX && zap_mint(
                        tried,
                        reserve_in,
                        reserve_out,
                        total_supply,
                        fee,
                    ) <= u128::MAX ==> is_near_closed_form(
                        tried,
                        lp_out,
                        reserve_in,
                        reserve_out,
                        total_supply,
                        fee,
                    )
                }
        }),
{
    let found = exact_lp_amount(lp_out, reserve_in, reserve_out, total_supply, fee)->0;
    let closed = inverse_amount(lp_out, reserve_in, total_supply, fee);
    let bump = first_bump(lp_out, reserve_in, total_supply, fee);
    let k = choose|k: nat|
        is_first_to_mint(k, lp_out, reserve_in, reserve_out, total_supply, fee);
    assert(is_first_to_mint(k, lp_out, reserve_in, reserve_out, total_supply, fee));
    lemma_first_to_mint(k, lp_out, reserve_in, reserve_out, total_supply, fee);
    lemma_tried_first(lp_out, reserve_in, total_supply, fee);
    if k > 0 {
        let before = (k - 1) as nat;
        let tried = tried_amount(before, lp_out, reserve_in, total_supply, fee);
        lemma_tried_next(before, lp_out, reserve_in, total_supply, fee);
        lemma_pow2_pos(before);
        let p = pow2(before);
        assert(bump * p == bump * ((p - 1) as nat) + bump && bump * ((p - 1) as nat) >= 0)
            by (nonlinear_arith)
            requires
                p >= 1,
        ;
        lemma_ceil_div(
            reserve_in + inverse_swap(lp_out, reserve_in, total_supply, fee),
            total_supply,
        );
        law_inverse_covers_target(lp_out, reserve_in, total_supply, fee);
        assert(predicted_lp(tried, reserve_in, reserve_out, total_supply, fee) < lp_out);
        if reserve_in + tried <= u128::MAX && zap_mint(
            tried,
            reserve_in,
            reserve_out,
            total_supply,
            fee,
        ) <= u128::MAX {
            law_far_inputs_mint(
                tried,
                lp_out,
                reserve_in,
                reserve_out,
                total_supply,
                fee,
            );
        }
    }
}

} // verus!
