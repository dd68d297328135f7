//! A zap and the unzap of everything that it minted: never a gain, and no loss
//! beyond the fees of the two swaps and a few rounded units.

use crate::amm_laws::{
    law_swap_keeps_product, law_zap_deposits_whole_output, lemma_floor, pool_burn, unzap_output,
};
use crate::amm_logic::{
    ceil_div, lemma_ceil_div, lemma_optimal_split_exists, lemma_planned_deposit, optimal_split,
    swap_out, traded_per_1000,
};
use crate::closeness::{
    lemma_deposit_matches, lemma_swap_rounding, zap_deposit, zap_mint, zap_output,
};
use vstd::prelude::*;

verus! {

/// What the unzap of everything that a zap minted pays back, against the reserves
/// and the supply that the zap left.
pub open spec fn paid_back(
    amount_in: nat,
    reserve_in: nat,
    reserve_out: nat,
    total_supply: nat,
    fee: nat,
) -> nat {
    let s = optimal_split(amount_in, reserve_in, fee);
    let out = zap_output(amount_in, reserve_in, reserve_out, fee);
    let deposit = zap_deposit(amount_in, reserve_in, reserve_out, fee);
    let minted = zap_mint(amount_in, reserve_in, reserve_out, total_supply, fee);
    unzap_output(
        minted,
        reserve_in + s + deposit.0,
        (reserve_out - out + deposit.1) as nat,
        total_supply + minted,
        fee,
    )
}

/// What a zap puts into the pool: the swapped and the deposited part of its input.
pub open spec fn put_in(amount_in: nat, reserve_in: nat, reserve_out: nat, fee: nat) -> nat {
    optimal_split(amount_in, reserve_in, fee) + zap_deposit(
        amount_in,
        reserve_in,
        reserve_out,
        fee,
    ).0
}

/// A zap followed by an unzap of everything that it minted never gains: the pool
/// pays back at most what the zap put in, and with a fee strictly less.
pub proof fn law_round_trip_never_gains(
    amount_in: nat,
    reserve_in: nat,
    reserve_out: nat,
    total_supply: nat,
    fee: nat,
)
    requires
        amount_in > 0,
        reserve_in > 0,
        reserve_out > 0,
        total_supply > 0,
        fee < 1000,
    ensures
        ({
            let put = put_in(amount_in, reserve_in, reserve_out, fee);
            let back = paid_back(amount_in, reserve_in, reserve_out, total_supply, fee);
            &&& back <= put <= amount_in
            &&& optimal_split(amount_in, reserve_in, fee) > 0 && fee > 0 ==> back < put
        }),
{
    let s = optimal_split(amount_in, reserve_in, fee);
    let out = zap_output(amount_in, reserve_in, reserve_out, fee);
    let new_in = reserve_in + s;
    let new_out = (reserve_out - out) as nat;
    let keep = (amount_in - s) as nat;
    let deposit = zap_deposit(amount_in, reserve_in, reserve_out, fee);
    let minted = zap_mint(amount_in, reserve_in, reserve_out, total_supply, fee);
    let full_in = new_in + deposit.0;
    let full_out = new_out + deposit.1;
    let supply = total_supply + minted;
    lemma_optimal_split_exists(amount_in, reserve_in, fee);
    lemma_planned_deposit(keep, out, new_in, new_out);
    law_swap_keeps_product(s, reserve_in, reserve_out, fee);
    let own = pool_burn(minted, full_in, supply);
    let other = pool_burn(minted, full_out, supply);
    lemma_mint_and_burn(deposit.0, new_in, minted, total_supply);
    lemma_mint_and_burn(deposit.1, new_out, minted, total_supply);
    let left_in = (full_in - own) as nat;
    let left_out = (full_out - other) as nat;
    law_swap_keeps_product(other, left_out, left_in, fee);
    let paid = swap_out(other, left_out, left_in, fee);
    let end_in = (left_in - paid) as nat;
    lemma_products_chain(new_in, new_out, left_in, left_out, end_in, full_out, reserve_out);
    assert(end_in >= reserve_in) by (nonlinear_arith)
        requires
            reserve_in * reserve_out <= end_in * reserve_out,
            reserve_out > 0,
    ;
    if s > 0 && fee > 0 {
        assert(end_in > reserve_in) by (nonlinear_arith)
            requires
                reserve_in * reserve_out < end_in * reserve_out,
                reserve_out > 0,
        ;
    }
}

/// The product of the reserves, from after one swap to after another, where the
/// output reserve ends at most where it began.
proof fn lemma_products_chain(
    new_in: nat,
    new_out: nat,
    left_in: nat,
    left_out: nat,
    end_in: nat,
    full_out: nat,
    reserve_out: nat,
)
    requires
        new_in <= left_in,
        new_out <= left_out,
        left_out * left_in <= full_out * end_in,
        full_out <= reserve_out,
    ensures
        new_in * new_out <= end_in * reserve_out,
{
    assert(new_in * new_out <= left_out * left_in) by (nonlinear_arith)
        requires
            new_in <= left_in,
            new_out <= left_out,
            new_in >= 0,
            new_out >= 0,
    ;
    assert(full_out * end_in <= end_in * reserve_out) by (nonlinear_arith)
        requires
            full_out <= reserve_out,
            end_in >= 0,
    ;
}

/// A deposit and the withdrawal of what it minted leave at least what was there
/// before, on either side.
proof fn lemma_mint_and_burn(deposit: nat, reserve: nat, minted: nat, total_supply: nat)
    requires
        reserve > 0,
        total_supply > 0,
        minted <= (deposit * total_supply) / reserve,
    ensures
        pool_burn(minted, reserve + deposit, total_supply + minted) <= deposit,
{
    let supply = total_supply + minted;
    let full = reserve + deposit;
    let paid = pool_burn(minted, full, supply);
    lemma_floor(deposit * total_supply, reserve);
    lemma_floor(minted * full, supply);
    let most = (deposit * total_supply) / reserve;
    assert(minted * reserve <= deposit * total_supply) by (nonlinear_arith)
        requires
            minted <= most,
            most * reserve <= deposit * total_supply,
            reserve >= 0,
    ;
    assert(minted * full <= deposit * supply) by (nonlinear_arith)
        requires
            minted * reserve <= deposit * total_supply,
            full == reserve + deposit,
            supply == total_supply + minted,
    ;
    assert(paid <= deposit) by (nonlinear_arith)
        requires
            paid * supply <= deposit * supply,
            supply > 0,
    ;
}

/// What a withdrawal of everything that a deposit of `x` (and `z` on the other
/// side) minted falls short of `x`, with the reserves `X` and `Z` and the supply
/// `T` after the mint: `T*Z*(x - paid) < T*Z + X*Z + X*T`. Either this side decided
/// the mint, or the other one did and matches this side up to one unit.
proof fn lemma_withdrawal_shortfall(
    x: nat,
    own_reserve: nat,
    z: nat,
    other_reserve: nat,
    minted: nat,
    total_supply: nat,
)
    requires
        own_reserve > 0,
        other_reserve > 0,
        total_supply > 0,
        x * total_supply < minted * own_reserve + own_reserve || (z * total_supply < minted
            * other_reserve + other_reserve && x * other_reserve < z * own_reserve + own_reserve),
    ensures
        ({
            let supply = total_supply + minted;
            let paid = pool_burn(minted, own_reserve + x, supply);
            (supply * other_reserve) * (x - paid) < supply * other_reserve + own_reserve
                * other_reserve + own_reserve * supply
        }),
{
    let ts = total_supply as int;
    let l = minted as int;
    let supply = ts + l;
    let r = own_reserve as int;
    let q = other_reserve as int;
    let paid = pool_burn(minted, own_reserve + x, (total_supply + minted) as nat) as int;
    lemma_floor(minted * (own_reserve + x), (total_supply + minted) as nat);
    let missing = x * ts - l * r;
    assert((x - paid) * supply < supply + missing) by (nonlinear_arith)
        requires
            l * (r + x) < paid * supply + supply,
            supply == ts + l,
            missing == x * ts - l * r,
    ;
    assert(q * missing < r * q + r * supply) by {
        assert(r * supply >= r * ts && r * ts > 0) by (nonlinear_arith)
            requires
                r > 0,
                ts > 0,
                supply >= ts,
        ;
        if missing < r {
            assert(q * missing < q * r) by (nonlinear_arith)
                requires
                    missing < r,
                    q > 0,
            ;
            assert(q * r == r * q) by (nonlinear_arith);
        } else {
            assert((x * q) * ts < (z * r + r) * ts) by (nonlinear_arith)
                requires
                    x * q < z * r + r,
                    ts > 0,
            ;
            assert((z * ts) * r < (l * q + q) * r) by (nonlinear_arith)
                requires
                    z * ts < l * q + q,
                    r > 0,
            ;
            assert(q * missing == (x * q) * ts - (l * q) * r) by (nonlinear_arith)
                requires
                    missing == x * ts - l * r,
            ;
            assert((z * r + r) * ts == (z * ts) * r + r * ts) by (nonlinear_arith);
            assert((l * q + q) * r == (l * q) * r + r * q) by (nonlinear_arith);
        }
    }
    assert(q * ((x - paid) * supply) < q * (supply + missing)) by (nonlinear_arith)
        requires
            (x - paid) * supply < supply + missing,
            q > 0,
    ;
    assert(q * (supply + missing) == supply * q + q * missing) by (nonlinear_arith);
    assert(q * ((x - paid) * supply) == (supply * q) * (x - paid)) by (nonlinear_arith);
}

/// The price of one unit of output in input once the swap is done, rounded up.
pub open spec fn swapped_price(amount_in: nat, reserve_in: nat, reserve_out: nat, fee: nat) -> nat {
    ceil_div(
        reserve_in + optimal_split(amount_in, reserve_in, fee),
        (reserve_out - zap_output(amount_in, reserve_in, reserve_out, fee)) as nat,
    )
}

/// The price of one unit of liquidity in input once the zap is done, rounded up.
pub open spec fn minted_price(
    amount_in: nat,
    reserve_in: nat,
    reserve_out: nat,
    total_supply: nat,
    fee: nat,
) -> nat {
    ceil_div(
        reserve_in + optimal_split(amount_in, reserve_in, fee),
        total_supply + zap_mint(amount_in, reserve_in, reserve_out, total_supply, fee),
    )
}

/// What the swap back pays. With `N` and `P` the reserves after the first swap,
/// `q` its payout and `e` what the withdrawal lacks of `q`, the payout of the second
/// swap is at least what two fees leave of the first one's input, less the price
/// of `e + 1` units of output and one unit.
proof fn lemma_swap_back(
    s: nat,
    reserve_in: nat,
    reserve_out: nat,
    fee: nat,
    e: nat,
    left_in: nat,
    units: nat,
)
    requires
        reserve_in > 0,
        reserve_out > 0,
        fee < 1000,
        e <= swap_out(s, reserve_in, reserve_out, fee),
        swap_out(s, reserve_in, reserve_out, fee) < reserve_out,
        reserve_in + s <= left_in,
        (e + 1) * (reserve_in + s) <= (reserve_out - swap_out(s, reserve_in, reserve_out, fee))
            * units,
    ensures
        ({
            let a = traded_per_1000(fee);
            let out = swap_out(s, reserve_in, reserve_out, fee);
            let back = swap_out(
                (out - e) as nat,
                (reserve_out - out + e) as nat,
                left_in,
                fee,
            );
            s * (a * a) < 1_000_000 * (back + 1 + units)
        }),
{
    let a = traded_per_1000(fee) as int;
    let out = swap_out(s, reserve_in, reserve_out, fee) as int;
    let n = reserve_in + s;
    let p = reserve_out - out;
    let v = out - e;
    let traded = v * a;
    let d = (p + e) * 1000 + traded;
    let back = swap_out((out - e) as nat, (reserve_out - out + e) as nat, left_in, fee) as int;
    let m = s * a;
    assert(traded >= 0 && m >= 0) by (nonlinear_arith)
        requires
            traded == v * a,
            m == s * a,
            v >= 0,
            a >= 0,
            s >= 0,
    ;
    lemma_floor((traded * left_in) as nat, d as nat);
    lemma_swap_rounding(s, reserve_in, reserve_out, fee);
    assert(traded * n <= traded * left_in) by (nonlinear_arith)
        requires
            n <= left_in,
            traded >= 0,
    ;
    // m * d < 10^6 * n * v + 1000 * (e + 1) * (1000 * R + m)
    let k = 1000 * reserve_in + m;
    assert(m * d == 1000 * (m * p) + 1000 * (m * e) + m * traded) by (nonlinear_arith)
        requires
            d == (p + e) * 1000 + traded,
    ;
    assert(1000 * (m * p) < 1000 * ((1000 * reserve_in) * (out + 1)) + 1000 * m);
    assert((1000 * reserve_in) * (out + 1) == (1000 * reserve_in) * v + (1000 * reserve_in) * (e
        + 1)) by (nonlinear_arith)
        requires
            v == out - e,
    ;
    assert(m * traded <= (1_000_000 * s) * v) by (nonlinear_arith)
        requires
            m == s * a,
            traded == v * a,
            0 <= a <= 1000,
            s >= 0,
            v >= 0,
    ;
    assert(k * (e + 1) == (1000 * reserve_in) * (e + 1) + m * e + m) by (nonlinear_arith)
        requires
            k == 1000 * reserve_in + m,
    ;
    assert(1000 * ((1000 * reserve_in) * v) + (1_000_000 * s) * v == 1_000_000 * (n * v))
        by (nonlinear_arith)
        requires
            n == reserve_in + s,
    ;
    assert(m * d < 1_000_000 * (n * v) + 1000 * (k * (e + 1)));
    // k <= 1000 * n, and 1000 * p <= d
    assert(k * (e + 1) <= (1000 * n) * (e + 1)) by (nonlinear_arith)
        requires
            k == 1000 * reserve_in + m,
            m == s * a,
            a <= 1000,
            s >= 0,
            n == reserve_in + s,
            e >= 0,
    ;
    assert((1000 * n) * (e + 1) == 1000 * ((e + 1) * n)) by (nonlinear_arith);
    assert(1000 * (p * units) <= d * units) by (nonlinear_arith)
        requires
            1000 * p <= d,
            units >= 0,
    ;
    assert(k * (e + 1) <= d * units);
    let spare = d * units;
    assert(a * (m * d) <= a * (1_000_000 * (n * v) + 1000 * spare)) by (nonlinear_arith)
        requires
            m * d < 1_000_000 * (n * v) + 1000 * spare,
            a >= 0,
    ;
    assert(a * (1_000_000 * (n * v) + 1000 * spare) == 1_000_000 * (traded * n) + (1000 * a)
        * spare) by (nonlinear_arith)
        requires
            traded == v * a,
    ;
    assert((1000 * a) * spare <= 1_000_000 * spare) by (nonlinear_arith)
        requires
            a <= 1000,
            spare == d * units,
            d >= 0,
            units >= 0,
    ;
    assert(traded * n < (back + 1) * d) by (nonlinear_arith)
        requires
            traded * n <= traded * left_in,
            traded * left_in < back * d + d,
    ;
    let square = s * (a * a);
    let total = 1_000_000 * (back + 1 + units);
    assert(a * (m * d) == square * d) by (nonlinear_arith)
        requires
            m == s * a,
            square == s * (a * a),
    ;
    assert(1_000_000 * ((back + 1) * d) + 1_000_000 * spare == total * d) by (nonlinear_arith)
        requires
            spare == d * units,
            total == 1_000_000 * (back + 1 + units),
    ;
    assert(square < total) by (nonlinear_arith)
        requires
            square * d < total * d,
            d > 0,
    ;
}

/// A zap followed by an unzap of everything that it minted loses no more than the
/// fees of the two swaps and a few rounded units: with `a` the traded share in
/// thousandths, what is paid back is what was put in, less `1 - (a/1000)^2` of the
/// swapped part, less two units, three times the price of a unit of output and
/// twice the price of a unit of liquidity at most.
pub proof fn law_round_trip_loses_only_fees(
    amount_in: nat,
    reserve_in: nat,
    reserve_out: nat,
    total_supply: nat,
    fee: nat,
)
    requires
        amount_in > 0,
        reserve_in > 0,
        reserve_out > 0,
        total_supply > 0,
        fee < 1000,
    ensures
        ({
            let a = traded_per_1000(fee);
            let s = optimal_split(amount_in, reserve_in, fee);
            let put = put_in(amount_in, reserve_in, reserve_out, fee);
            let back = paid_back(amount_in, reserve_in, reserve_out, total_supply, fee);
            let u = swapped_price(amount_in, reserve_in, reserve_out, fee);
            let w = minted_price(amount_in, reserve_in, reserve_out, total_supply, fee);
            1_000_000 * (put - back) < s * (1_000_000 - a * a) + 1_000_000 * (2 + 3 * u + 2 * w)
        }),
{
    let a = traded_per_1000(fee);
    let s = optimal_split(amount_in, reserve_in, fee);
    let out = zap_output(amount_in, reserve_in, reserve_out, fee);
    let n = reserve_in + s;
    let p = (reserve_out - out) as nat;
    let deposit = zap_deposit(amount_in, reserve_in, reserve_out, fee);
    let minted = zap_mint(amount_in, reserve_in, reserve_out, total_supply, fee);
    let supply = total_supply + minted;
    let u = swapped_price(amount_in, reserve_in, reserve_out, fee);
    let w = minted_price(amount_in, reserve_in, reserve_out, total_supply, fee);
    lemma_optimal_split_exists(amount_in, reserve_in, fee);
    law_swap_keeps_product(s, reserve_in, reserve_out, fee);
    law_zap_deposits_whole_output(amount_in, reserve_in, reserve_out, fee);
    lemma_deposit_matches(amount_in, reserve_in, reserve_out, fee);
    lemma_floor(deposit.0 * total_supply, n);
    lemma_floor(out * total_supply, p);
    lemma_ceil_div(n, p);
    lemma_ceil_div(n, supply);
    let own = pool_burn(minted, n + deposit.0, supply);
    let other = pool_burn(minted, p + out, supply);
    lemma_mint_and_burn(deposit.0, n, minted, total_supply);
    lemma_mint_and_burn(out, p, minted, total_supply);
    lemma_withdrawal_shortfall(deposit.0, n, out, p, minted, total_supply);
    lemma_withdrawal_shortfall(out, p, deposit.0, n, minted, total_supply);
    let lost = deposit.0 - own;
    let e = out - other;
    let tp = supply * p;
    assert(tp > 0 && supply > 0 && n > 0) by (nonlinear_arith)
        requires
            tp == supply * p,
            supply > 0,
            p > 0,
            n > 0,
    ;
    assert(n * p <= w * tp) by (nonlinear_arith)
        requires
            n <= w * supply,
            tp == supply * p,
            p > 0,
    ;
    assert(n * supply <= u * tp) by (nonlinear_arith)
        requires
            n <= u * p,
            tp == supply * p,
            supply > 0,
    ;
    assert(lost < 1 + w + u) by (nonlinear_arith)
        requires
            tp * lost < tp + n * p + n * supply,
            n * p <= w * tp,
            n * supply <= u * tp,
            tp > 0,
    ;
    let units = (1 + 2 * u + w) as nat;
    assert((e + 1) * n <= p * units) by {
        assert(p * n == n * p && p * supply == tp) by (nonlinear_arith)
            requires
                tp == supply * p,
        ;
        assert(supply * (e * n) == (supply * n) * e) by (nonlinear_arith);
        assert(supply * (n + p * w + p) == supply * n + w * tp + tp) by (nonlinear_arith)
            requires
                tp == supply * p,
        ;
        assert(e * n < n + p * w + p) by (nonlinear_arith)
            requires
                supply * (e * n) < supply * (n + p * w + p),
                supply > 0,
        ;
        assert((e + 1) * n == e * n + n) by (nonlinear_arith);
        assert(p * units == p + 2 * (u * p) + p * w) by (nonlinear_arith)
            requires
                units == 1 + 2 * u + w,
        ;
    }
    lemma_swap_back(
        s,
        reserve_in,
        reserve_out,
        fee,
        e as nat,
        (n + deposit.0 - own) as nat,
        units,
    );
    assert(own < n + deposit.0 && other < p + out);
    assert(s * (1_000_000 - a * a) == 1_000_000 * s - s * (a * a)) by (nonlinear_arith);
}

} // verus!
