//! What each formula of the pool mathematics means, said by the inequalities that
//! its result satisfies.
//!
//! The statements use plain arithmetic on the arguments. A result that is rounded
//! down is the largest number that satisfies its inequality, one that is rounded
//! up the least.

use crate::amm_laws::{law_inverse_covers_target, law_split_balances, lemma_floor, pool_burn};
use crate::amm_logic::{
    exact_lp_amount, exact_lp_refusal, first_bump, inverse_amount, inverse_refusal, inverse_swap,
    is_first_to_mint, is_isqrt, isqrt, lemma_ceil_div, lemma_first_to_mint, lemma_isqrt,
    lemma_planned_deposit, lemma_swap_out_below_reserve, lemma_tried_first, lemma_tried_monotone,
    lemma_tried_next, lemma_unzap_discriminant, mul_div_value, optimal_split, planned_deposit,
    pool_mint, predicted_lp, swap_out, tried_amount, unzap_coefficient, unzap_liquidity,
    unzap_refusal, unzap_root,
};
use crate::types::{capped, ZapError};
use vstd::arithmetic::power2::pow2;
use vstd::prelude::*;

verus! {

/// The share of a swap's input that is traded, in thousandths: what the fee
/// leaves, and nothing where the fee takes everything.
pub open spec fn share(fee: nat) -> int {
    if fee < 1000 {
        1000 - fee
    } else {
        0
    }
}

/// Whether `out` is what a constant-product pool owes for `paid`: the most that
/// does not shrink the product of the reserves, with the fee kept out of it.
pub open spec fn is_payout(
    out: int,
    paid: int,
    reserve_in: int,
    reserve_out: int,
    fee: nat,
) -> bool {
    let traded = paid * share(fee);
    &&& 0 <= out
    &&& out * (1000 * reserve_in + traded) <= traded * reserve_out
    &&& (out + 1) * (1000 * reserve_in + traded) > traded * reserve_out
}

/// Whether `s` is the part of `amount` to swap: the most that leaves at least as
/// much input as the payout can be matched with.
pub open spec fn is_split(s: int, amount: int, reserve_in: int, fee: nat) -> bool {
    let a = share(fee);
    let t = s + 1;
    &&& 0 <= s < amount
    &&& s * a * (reserve_in + s) <= 1000 * reserve_in * (amount - s)
    &&& t * a * (reserve_in + t) > 1000 * reserve_in * (amount - t)
}

/// Whether `(din, dout)` is the largest deposit in the ratio of the reserves that
/// `have_in` and `have_out` allow: one side goes in whole, and the other is what
/// matches it, rounded down.
pub open spec fn is_deposit(
    din: int,
    dout: int,
    have_in: int,
    have_out: int,
    reserve_in: int,
    reserve_out: int,
) -> bool {
    &&& 0 <= din <= have_in
    &&& 0 <= dout <= have_out
    &&& {
        ||| {
            &&& din == have_in
            &&& dout * reserve_in <= din * reserve_out < (dout + 1) * reserve_in
        }
        ||| {
            &&& dout == have_out
            &&& din * reserve_out <= dout * reserve_in < (din + 1) * reserve_out
            &&& have_in * reserve_out >= (have_out + 1) * reserve_in
        }
    }
}

/// Whether `minted` is what a deposit earns: the most whose share of the supply
/// neither side falls short of.
pub open spec fn is_mint(
    minted: int,
    din: int,
    dout: int,
    reserve_in: int,
    reserve_out: int,
    supply: int,
) -> bool {
    &&& minted * reserve_in <= din * supply
    &&& minted * reserve_out <= dout * supply
    &&& (minted + 1) * reserve_in > din * supply || (minted + 1) * reserve_out > dout * supply
}

/// A swap pays the rounded-down constant-product output.
pub proof fn law_swap_output(amount_in: nat, reserve_in: nat, reserve_out: nat, fee: nat)
    requires
        reserve_in > 0,
    ensures
        is_payout(
            swap_out(amount_in, reserve_in, reserve_out, fee) as int,
            amount_in as int,
            reserve_in as int,
            reserve_out as int,
            fee,
        ),
{
    let t = (amount_in * share(fee)) as nat;
    let d = reserve_in * 1000 + t;
    assert(amount_in * share(fee) >= 0) by (nonlinear_arith)
        requires
            share(fee) >= 0,
            amount_in >= 0,
    ;
    lemma_floor(t * reserve_out, d);
    let q = swap_out(amount_in, reserve_in, reserve_out, fee);
    assert((q + 1) * d == q * d + d) by (nonlinear_arith);
}

/// There is one payout.
pub proof fn lemma_payout_unique(
    x: int,
    y: int,
    paid: int,
    reserve_in: int,
    reserve_out: int,
    fee: nat,
)
    requires
        paid >= 0,
        reserve_in > 0,
        is_payout(x, paid, reserve_in, reserve_out, fee),
        is_payout(y, paid, reserve_in, reserve_out, fee),
    ensures
        x == y,
{
    let t = paid * share(fee);
    let d = 1000 * reserve_in + t;
    assert(t >= 0) by (nonlinear_arith)
        requires
            t == paid * share(fee),
            paid >= 0,
            share(fee) >= 0,
    ;
    assert(x == y) by (nonlinear_arith)
        requires
            x * d <= t * reserve_out < (x + 1) * d,
            y * d <= t * reserve_out < (y + 1) * d,
            d > 0,
    ;
}

/// The optimal split is the one that balances the deposit, and nothing is split
/// where there is no input, no reserve, or a fee that takes everything.
pub proof fn law_split(amount_in: nat, reserve_in: nat, fee: nat)
    ensures
        amount_in > 0 && reserve_in > 0 && fee < 1000 ==> is_split(
            optimal_split(amount_in, reserve_in, fee) as int,
            amount_in as int,
            reserve_in as int,
            fee,
        ),
        amount_in == 0 || reserve_in == 0 || fee >= 1000 ==> optimal_split(
            amount_in,
            reserve_in,
            fee,
        ) == 0,
{
    if amount_in > 0 && reserve_in > 0 && fee < 1000 {
        law_split_balances(amount_in, reserve_in, fee);
    }
}

/// There is one split.
pub proof fn lemma_split_unique(x: int, y: int, amount: int, reserve_in: int, fee: nat)
    requires
        reserve_in > 0,
        is_split(x, amount, reserve_in, fee),
        is_split(y, amount, reserve_in, fee),
    ensures
        x == y,
{
    if x < y {
        lemma_split_order(x + 1, y, amount, reserve_in, fee);
    } else if y < x {
        lemma_split_order(y + 1, x, amount, reserve_in, fee);
    }
}

/// Swapping less leaves more to match less.
proof fn lemma_split_order(t: int, y: int, amount: int, reserve_in: int, fee: nat)
    requires
        0 <= t <= y,
        reserve_in > 0,
        y * share(fee) * (reserve_in + y) <= 1000 * reserve_in * (amount - y),
    ensures
        t * share(fee) * (reserve_in + t) <= 1000 * reserve_in * (amount - t),
{
    let a = share(fee);
    let m = t * a;
    let k = y * a;
    assert(0 <= m <= k) by (nonlinear_arith)
        requires
            m == t * a,
            k == y * a,
            0 <= t <= y,
            a >= 0,
    ;
    assert(m * (reserve_in + t) <= k * (reserve_in + y)) by (nonlinear_arith)
        requires
            0 <= m <= k,
            0 <= t <= y,
            reserve_in > 0,
    ;
    assert(1000 * reserve_in * (amount - y) <= 1000 * reserve_in * (amount - t))
        by (nonlinear_arith)
        requires
            t <= y,
            reserve_in > 0,
    ;
}

/// `mul_div` gives the quotient rounded down, and zero where there is no quotient
/// or it does not fit in 128 bits.
pub proof fn law_mul_div(a: nat, b: nat, c: nat)
    ensures
        c == 0 ==> mul_div_value(a, b, c) == 0,
        c > 0 && a * b >= (u128::MAX + 1) * c ==> mul_div_value(a, b, c) == 0,
        c > 0 && a * b < (u128::MAX + 1) * c ==> mul_div_value(a, b, c) * c <= a * b < (
        mul_div_value(a, b, c) + 1) * c,
{
    if c > 0 {
        let q = (a * b) / c;
        lemma_floor(a * b, c);
        assert((q + 1) * c == q * c + c) by (nonlinear_arith);
        if a * b >= (u128::MAX + 1) * c {
            assert(q > u128::MAX) by (nonlinear_arith)
                requires
                    a * b >= (u128::MAX + 1) * c,
                    a * b < q * c + c,
                    c > 0,
            ;
        } else {
            assert(q <= u128::MAX) by (nonlinear_arith)
                requires
                    a * b < (u128::MAX + 1) * c,
                    q * c <= a * b,
                    c > 0,
            ;
        }
    }
}

/// An integer square root is the largest number whose square does not exceed the
/// given one.
pub proof fn law_square_root(r: nat, n: nat)
    requires
        is_isqrt(r, n),
    ensures
        r * r <= n,
        forall|x: nat| #![trigger x * x] x * x <= n ==> x <= r,
{
    assert forall|x: nat| #![trigger x * x] x * x <= n implies x <= r by {
        if x > r {
            assert((r + 1) * (r + 1) <= x * x) by (nonlinear_arith)
                requires
                    r + 1 <= x,
            ;
        }
    }
}

/// The inverse zap refuses exactly what has no answer, and its closed form is the
/// least swap that pays for `lp_out` and the least deposit that carries it.
pub proof fn law_inverse_zap(lp_out: nat, reserve_in: nat, total_supply: nat, fee: nat)
    ensures
        inverse_refusal(lp_out, reserve_in, total_supply, fee) is None <==> lp_out > 0 && reserve_in
            > 0 && total_supply > 0 && fee < 1000 && inverse_swap(
            lp_out,
            reserve_in,
            total_supply,
            fee,
        ) <= u128::MAX && inverse_amount(lp_out, reserve_in, total_supply, fee) <= u128::MAX,
        lp_out > 0 && reserve_in > 0 && total_supply > 0 && fee < 1000 ==> ({
            let s = inverse_swap(lp_out, reserve_in, total_supply, fee);
            let kept = inverse_amount(lp_out, reserve_in, total_supply, fee) - s;
            let d = (1000 - fee) * total_supply;
            &&& (s - 1) * d < 1000 * reserve_in * lp_out <= s * d
            &&& (kept - 1) * total_supply < lp_out * (reserve_in + s) <= kept * total_supply
        }),
{
    if lp_out > 0 && reserve_in > 0 && total_supply > 0 && fee < 1000 {
        law_inverse_covers_target(lp_out, reserve_in, total_supply, fee);
        assert(1000 * reserve_in * lp_out == lp_out * 1000 * reserve_in) by (nonlinear_arith);
    }
}

/// Each refusal of the inverse zap says what is missing: the target, the reserve,
/// the supply, or something left to trade, and then which number is too large.
pub proof fn law_inverse_zap_errors(lp_out: nat, reserve_in: nat, total_supply: nat, fee: nat)
    ensures
        ({
            let refusal = inverse_refusal(lp_out, reserve_in, total_supply, fee);
            let given = lp_out > 0 && reserve_in > 0 && total_supply > 0 && fee < 1000;
            let s = inverse_swap(lp_out, reserve_in, total_supply, fee);
            &&& lp_out == 0 ==> refusal == Some(ZapError::ZeroLpOut)
            &&& lp_out > 0 && reserve_in == 0 ==> refusal == Some(ZapError::ZeroInputReserve)
            &&& lp_out > 0 && reserve_in > 0 && total_supply == 0 ==> refusal == Some(
                ZapError::ZeroTotalSupply,
            )
            &&& lp_out > 0 && reserve_in > 0 && total_supply > 0 && fee >= 1000 ==> refusal == Some(
                ZapError::FeeTooHigh,
            )
            &&& given && s > u128::MAX ==> refusal == Some(ZapError::SwapAmountOverflow)
            &&& given && s <= u128::MAX < inverse_amount(lp_out, reserve_in, total_supply, fee)
                ==> refusal == Some(ZapError::AmountInOverflow)
        }),
{
}

/// The first bump of the search is the least input whose share of the pool's input
/// side is worth one unit of liquidity.
pub proof fn law_first_bump(lp_out: nat, reserve_in: nat, total_supply: nat, fee: nat)
    requires
        total_supply > 0,
    ensures
        ({
            let b = first_bump(lp_out, reserve_in, total_supply, fee);
            let n = reserve_in + inverse_swap(lp_out, reserve_in, total_supply, fee);
            (b - 1) * total_supply < n <= b * total_supply
        }),
{
    let n = reserve_in + inverse_swap(lp_out, reserve_in, total_supply, fee);
    let b = first_bump(lp_out, reserve_in, total_supply, fee);
    lemma_ceil_div(n, total_supply);
    assert((b - 1) * total_supply == b * total_supply - total_supply) by (nonlinear_arith);
}

/// The inputs that the search tries: the closed form first, and each time twice
/// the bump of the time before.
pub proof fn law_tried_amounts(k: nat, lp_out: nat, reserve_in: nat, total_supply: nat, fee: nat)
    ensures
        tried_amount(0, lp_out, reserve_in, total_supply, fee) == inverse_amount(
            lp_out,
            reserve_in,
            total_supply,
            fee,
        ),
        tried_amount(1, lp_out, reserve_in, total_supply, fee) == inverse_amount(
            lp_out,
            reserve_in,
            total_supply,
            fee,
        ) + first_bump(lp_out, reserve_in, total_supply, fee),
        tried_amount(k + 2, lp_out, reserve_in, total_supply, fee) - tried_amount(
            k + 1,
            lp_out,
            reserve_in,
            total_supply,
            fee,
        ) == 2 * (tried_amount(k + 1, lp_out, reserve_in, total_supply, fee) - tried_amount(
            k,
            lp_out,
            reserve_in,
            total_supply,
            fee,
        )),
{
    let bump = first_bump(lp_out, reserve_in, total_supply, fee);
    lemma_tried_first(lp_out, reserve_in, total_supply, fee);
    lemma_tried_next(0, lp_out, reserve_in, total_supply, fee);
    lemma_tried_next(k, lp_out, reserve_in, total_supply, fee);
    lemma_tried_next(k + 1, lp_out, reserve_in, total_supply, fee);
    assert(bump * 1 == bump) by (nonlinear_arith);
    assert(bump * (2 * pow2(k)) == 2 * (bump * pow2(k))) by (nonlinear_arith);
}

/// The search finds an input wherever one of those that it tries mints the target
/// and fits in 128 bits, and it finds the first of them.
pub proof fn law_search_finds_first(
    k: nat,
    lp_out: nat,
    reserve_in: nat,
    reserve_out: nat,
    total_supply: nat,
    fee: nat,
)
    requires
        tried_amount(k, lp_out, reserve_in, total_supply, fee) <= u128::MAX,
        predicted_lp(
            tried_amount(k, lp_out, reserve_in, total_supply, fee),
            reserve_in,
            reserve_out,
            total_supply,
            fee,
        ) >= lp_out,
    ensures
        exact_lp_amount(lp_out, reserve_in, reserve_out, total_supply, fee) matches Some(found)
            && found <= tried_amount(k, lp_out, reserve_in, total_supply, fee) && predicted_lp(
            found,
            reserve_in,
            reserve_out,
            total_supply,
            fee,
        ) >= lp_out,
    decreases k,
{
    if forall|j: nat|
        j < k ==> predicted_lp(
            #[trigger] tried_amount(j, lp_out, reserve_in, total_supply, fee),
            reserve_in,
            reserve_out,
            total_supply,
            fee,
        ) < lp_out {
        assert(is_first_to_mint(k, lp_out, reserve_in, reserve_out, total_supply, fee));
        lemma_first_to_mint(k, lp_out, reserve_in, reserve_out, total_supply, fee);
    } else {
        let j = choose|j: nat|
            j < k && predicted_lp(
                #[trigger] tried_amount(j, lp_out, reserve_in, total_supply, fee),
                reserve_in,
                reserve_out,
                total_supply,
                fee,
            ) >= lp_out;
        lemma_tried_monotone(j, k, lp_out, reserve_in, total_supply, fee);
        law_search_finds_first(j, lp_out, reserve_in, reserve_out, total_supply, fee);
    }
}

/// A liquidity target is refused exactly where the closed form is, where there is
/// nothing on the output side, or where the search finds nothing.
pub proof fn law_exact_lp_refusal(
    lp_out: nat,
    reserve_in: nat,
    reserve_out: nat,
    total_supply: nat,
    fee: nat,
)
    ensures
        exact_lp_refusal(lp_out, reserve_in, reserve_out, total_supply, fee) is None <==> lp_out
            > 0 && reserve_in > 0 && reserve_out > 0 && total_supply > 0 && fee < 1000
            && inverse_swap(lp_out, reserve_in, total_supply, fee) <= u128::MAX && inverse_amount(
            lp_out,
            reserve_in,
            total_supply,
            fee,
        ) <= u128::MAX && exact_lp_amount(
            lp_out,
            reserve_in,
            reserve_out,
            total_supply,
            fee,
        ) is Some,
{
    law_inverse_zap(lp_out, reserve_in, total_supply, fee);
}

/// The inverse unzap: with `B = R*(2000 - fee) + T*fee` and `r` the integer root of
/// `B^2 - 4*10^6*R*T`, the liquidity is the least `l` with `l*2000*R >= (B - r)*ts`.
pub proof fn law_inverse_unzap(output_amount: nat, reserve: nat, total_supply: nat, fee: nat)
    requires
        0 < output_amount < reserve,
        total_supply > 0,
        fee < 1000,
    ensures
        ({
            let l = unzap_liquidity(output_amount, reserve, total_supply, fee);
            let b = reserve * (2000 - fee) + output_amount * fee;
            let disc = b * b - 4_000_000 * reserve * output_amount;
            exists|r: nat|
                {
                    &&& #[trigger] (r * r) <= disc < (r + 1) * (r + 1)
                    &&& (l - 1) * (2000 * reserve) < (b - r) * total_supply <= l * (2000 * reserve)
                }
        }),
{
    let b = unzap_coefficient(output_amount, reserve, fee);
    let disc = (b * b - 4_000_000 * reserve * output_amount) as nat;
    let r = isqrt(disc);
    let l = unzap_liquidity(output_amount, reserve, total_supply, fee);
    lemma_unzap_discriminant(output_amount, reserve, fee);
    lemma_isqrt(disc);
    assert(4_000_000 * reserve * output_amount > 0) by (nonlinear_arith)
        requires
            reserve > 0,
            output_amount > 0,
    ;
    assert(r < b) by (nonlinear_arith)
        requires
            r * r < b * b,
            r >= 0,
            b >= 0,
    ;
    let n = unzap_root(output_amount, reserve, fee) * total_supply;
    lemma_ceil_div(n, 2000 * reserve);
    assert((l - 1) * (2000 * reserve) == l * (2000 * reserve) - 2000 * reserve)
        by (nonlinear_arith);
    assert(n == (b - r) * total_supply);
    assert(r * r <= disc);
}

/// An output target is refused exactly where it is zero, where a reserve or the
/// supply is, where it is not below the reserve, or where the fee takes everything.
pub proof fn law_inverse_unzap_refusal(
    output_amount: u128,
    reserve: u128,
    total_supply: u128,
    fee: u128,
)
    ensures
        unzap_refusal(output_amount, reserve, total_supply, fee) is None <==> 0 < output_amount
            < reserve && total_supply > 0 && fee < 1000,
        output_amount == 0 ==> unzap_refusal(output_amount, reserve, total_supply, fee) == Some(
            ZapError::ZeroOutputAmount,
        ),
        output_amount > 0 && reserve == 0 ==> unzap_refusal(
            output_amount,
            reserve,
            total_supply,
            fee,
        ) == Some(ZapError::ZeroOutputReserve),
        output_amount > 0 && reserve > 0 && total_supply == 0 ==> unzap_refusal(
            output_amount,
            reserve,
            total_supply,
            fee,
        ) == Some(ZapError::ZeroTotalSupply),
        0 < output_amount < reserve && total_supply > 0 && fee >= 1000 ==> unzap_refusal(
            output_amount,
            reserve,
            total_supply,
            fee,
        ) == Some(ZapError::FeeTooHigh),
        0 < reserve <= output_amount && total_supply > 0 ==> unzap_refusal(
            output_amount,
            reserve,
            total_supply,
            fee,
        ) == Some(ZapError::OutputExceedsReserve { output_amount, reserve }),
{
}

/// The planned deposit is the largest in the pool's ratio. Where the input reserve is
/// empty there is no ratio, and nothing goes in on the other side.
pub proof fn law_deposit(have_in: nat, have_out: nat, reserve_in: nat, reserve_out: nat)
    ensures
        ({
            let d = planned_deposit(have_in, have_out, reserve_in, reserve_out);
            &&& reserve_in > 0 ==> is_deposit(
                d.0 as int,
                d.1 as int,
                have_in as int,
                have_out as int,
                reserve_in as int,
                reserve_out as int,
            )
            &&& reserve_in == 0 ==> d.0 == have_in && d.1 == 0
        }),
{
    if reserve_in > 0 {
        lemma_deposit_in_ratio(have_in, have_out, reserve_in, reserve_out);
    }
}

/// The planned deposit is the largest in a ratio that is there.
proof fn lemma_deposit_in_ratio(
    have_in: nat,
    have_out: nat,
    reserve_in: nat,
    reserve_out: nat,
)
    requires
        reserve_in > 0,
    ensures
        ({
            let d = planned_deposit(have_in, have_out, reserve_in, reserve_out);
            is_deposit(
                d.0 as int,
                d.1 as int,
                have_in as int,
                have_out as int,
                reserve_in as int,
                reserve_out as int,
            )
        }),
{
    let n = have_in * reserve_out;
    let q = n / reserve_in;
    lemma_floor(n, reserve_in);
    lemma_planned_deposit(have_in, have_out, reserve_in, reserve_out);
    assert((q + 1) * reserve_in == q * reserve_in + reserve_in) by (nonlinear_arith);
    if q > have_out {
        let d = (have_out * reserve_in) / reserve_out;
        lemma_floor(have_out * reserve_in, reserve_out);
        assert((d + 1) * reserve_out == d * reserve_out + reserve_out) by (nonlinear_arith);
        assert((have_out + 1) * reserve_in <= n) by (nonlinear_arith)
            requires
                have_out + 1 <= q,
                q * reserve_in <= n,
                reserve_in > 0,
        ;
    }
}

/// A pool mints the most that neither side of the deposit falls short of.
pub proof fn law_mint(din: nat, dout: nat, reserve_in: nat, reserve_out: nat, total_supply: nat)
    requires
        reserve_in > 0,
        reserve_out > 0,
    ensures
        is_mint(
            pool_mint(din, dout, reserve_in, reserve_out, total_supply) as int,
            din as int,
            dout as int,
            reserve_in as int,
            reserve_out as int,
            total_supply as int,
        ),
{
    lemma_floor(din * total_supply, reserve_in);
    lemma_floor(dout * total_supply, reserve_out);
    let by_in = (din * total_supply) / reserve_in;
    let by_out = (dout * total_supply) / reserve_out;
    let m = pool_mint(din, dout, reserve_in, reserve_out, total_supply);
    assert((by_in + 1) * reserve_in == by_in * reserve_in + reserve_in) by (nonlinear_arith);
    assert((by_out + 1) * reserve_out == by_out * reserve_out + reserve_out) by (nonlinear_arith);
    assert(m * reserve_in <= by_in * reserve_in) by (nonlinear_arith)
        requires
            m <= by_in,
            reserve_in > 0,
    ;
    assert(m * reserve_out <= by_out * reserve_out) by (nonlinear_arith)
        requires
            m <= by_out,
            reserve_out > 0,
    ;
}

/// The prediction replays the pool: with the split, the payout, the deposit and the
/// mint that the inequalities single out, it is the mint where every part of it is
/// positive and it fits in 128 bits, and zero elsewhere.
pub proof fn law_prediction(
    amount_in: nat,
    reserve_in: nat,
    reserve_out: nat,
    total_supply: nat,
    fee: nat,
    s: int,
    out: int,
    din: int,
    dout: int,
    minted: int,
)
    requires
        amount_in > 0,
        reserve_in > 0,
        reserve_out > 0,
        fee < 1000,
        reserve_in <= u128::MAX,
        is_split(s, amount_in as int, reserve_in as int, fee),
        is_payout(out, s, reserve_in as int, reserve_out as int, fee),
        ({
            let new_in = if reserve_in + s > u128::MAX {
                u128::MAX as int
            } else {
                reserve_in + s
            };
            &&& is_deposit(din, dout, amount_in - s, out, new_in, reserve_out - out)
            &&& is_mint(minted, din, dout, new_in, reserve_out - out, total_supply as int)
        }),
    ensures
        predicted_lp(amount_in, reserve_in, reserve_out, total_supply, fee) == (if s > 0 && out > 0
            && din > 0 && dout > 0 && minted <= u128::MAX {
            minted
        } else {
            0
        }),
{
    let x = optimal_split(amount_in, reserve_in, fee);
    let y = swap_out(x, reserve_in, reserve_out, fee);
    let n = capped(reserve_in + x) as nat;
    let p = (reserve_out - y) as nat;
    let keep = (amount_in - x) as nat;
    let d = planned_deposit(keep, y, n, p);
    law_split(amount_in, reserve_in, fee);
    lemma_split_unique(s, x as int, amount_in as int, reserve_in as int, fee);
    law_swap_output(x, reserve_in, reserve_out, fee);
    lemma_payout_unique(out, y as int, s, reserve_in as int, reserve_out as int, fee);
    lemma_swap_out_below_reserve(x, reserve_in, reserve_out, fee);
    law_deposit(keep, y, n, p);
    lemma_deposit_unique(
        din,
        dout,
        d.0 as int,
        d.1 as int,
        keep as int,
        y as int,
        n as int,
        p as int,
    );
    lemma_floor(d.0 * total_supply, n);
    lemma_floor(d.1 * total_supply, p);
    let by_in = (d.0 * total_supply) / n;
    let by_out = (d.1 * total_supply) / p;
    let mint = pool_mint(d.0, d.1, n, p, total_supply);
    assert((by_in + 1) * n == by_in * n + n) by (nonlinear_arith);
    assert((by_out + 1) * p == by_out * p + p) by (nonlinear_arith);
    assert(minted <= by_in) by (nonlinear_arith)
        requires
            minted * n <= d.0 * total_supply,
            d.0 * total_supply < by_in * n + n,
            n > 0,
    ;
    assert(minted <= by_out) by (nonlinear_arith)
        requires
            minted * p <= d.1 * total_supply,
            d.1 * total_supply < by_out * p + p,
            p > 0,
    ;
    if (minted + 1) * n > d.0 * total_supply {
        assert(minted + 1 > by_in) by (nonlinear_arith)
            requires
                (minted + 1) * n > d.0 * total_supply,
                by_in * n <= d.0 * total_supply,
                n > 0,
        ;
    } else {
        assert(minted + 1 > by_out) by (nonlinear_arith)
            requires
                (minted + 1) * p > d.1 * total_supply,
                by_out * p <= d.1 * total_supply,
                p > 0,
        ;
    }
    assert(mint == minted);
}

/// Nothing is predicted where a reserve or the supply is empty, nothing is put in, or
/// the fee takes everything.
pub proof fn law_prediction_of_nothing(
    amount_in: nat,
    reserve_in: nat,
    reserve_out: nat,
    total_supply: nat,
    fee: nat,
)
    requires
        amount_in == 0 || reserve_in == 0 || reserve_out == 0 || total_supply == 0 || fee >= 1000,
    ensures
        predicted_lp(amount_in, reserve_in, reserve_out, total_supply, fee) == 0,
{
    law_split(amount_in, reserve_in, fee);
    if amount_in > 0 && reserve_in > 0 && reserve_out > 0 && fee < 1000 {
        let s = optimal_split(amount_in, reserve_in, fee);
        let out = swap_out(s, reserve_in, reserve_out, fee);
        let new_in = capped(reserve_in + s) as nat;
        let new_out = (reserve_out - out) as nat;
        let d = planned_deposit((amount_in - s) as nat, out, new_in, new_out);
        assert(d.0 * total_supply == 0 && d.1 * total_supply == 0) by (nonlinear_arith)
            requires
                total_supply == 0,
        ;
        lemma_swap_out_below_reserve(s, reserve_in, reserve_out, fee);
        lemma_floor(0, new_in);
        lemma_floor(0, new_out);
        let m = pool_mint(d.0, d.1, new_in, new_out, total_supply);
        assert(m == 0) by (nonlinear_arith)
            requires
                m * new_in <= 0,
                new_in > 0,
                m >= 0,
        ;
    }
}

/// There is one largest deposit.
pub proof fn lemma_deposit_unique(
    din: int,
    dout: int,
    ein: int,
    eout: int,
    have_in: int,
    have_out: int,
    reserve_in: int,
    reserve_out: int,
)
    requires
        reserve_in > 0,
        reserve_out >= 0,
        have_in >= 0,
        have_out >= 0,
        is_deposit(din, dout, have_in, have_out, reserve_in, reserve_out),
        is_deposit(ein, eout, have_in, have_out, reserve_in, reserve_out),
    ensures
        din == ein,
        dout == eout,
{
    lemma_deposit_branch(din, dout, have_in, have_out, reserve_in, reserve_out);
    lemma_deposit_branch(ein, eout, have_in, have_out, reserve_in, reserve_out);
    if have_in * reserve_out < (have_out + 1) * reserve_in {
        assert(dout == eout) by (nonlinear_arith)
            requires
                dout * reserve_in <= have_in * reserve_out < (dout + 1) * reserve_in,
                eout * reserve_in <= have_in * reserve_out < (eout + 1) * reserve_in,
                reserve_in > 0,
        ;
    } else {
        assert(reserve_out > 0) by (nonlinear_arith)
            requires
                have_in * reserve_out >= (have_out + 1) * reserve_in,
                reserve_in > 0,
                have_out >= 0,
                have_in >= 0,
                reserve_out >= 0,
        ;
        assert(din == ein) by (nonlinear_arith)
            requires
                din * reserve_out <= have_out * reserve_in < (din + 1) * reserve_out,
                ein * reserve_out <= have_out * reserve_in < (ein + 1) * reserve_out,
                reserve_out > 0,
        ;
    }
}

/// Which side of the deposit goes in whole is decided by the ratio.
proof fn lemma_deposit_branch(
    din: int,
    dout: int,
    have_in: int,
    have_out: int,
    reserve_in: int,
    reserve_out: int,
)
    requires
        reserve_in > 0,
        reserve_out >= 0,
        have_in >= 0,
        have_out >= 0,
        is_deposit(din, dout, have_in, have_out, reserve_in, reserve_out),
    ensures
        have_in * reserve_out < (have_out + 1) * reserve_in ==> din == have_in && dout * reserve_in
            <= have_in * reserve_out < (dout + 1) * reserve_in,
        have_in * reserve_out >= (have_out + 1) * reserve_in ==> dout == have_out && din
            * reserve_out <= have_out * reserve_in < (din + 1) * reserve_out,
{
    if have_in * reserve_out >= (have_out + 1) * reserve_in && din == have_in && dout * reserve_in
        <= din * reserve_out < (dout + 1) * reserve_in {
        assert(false) by (nonlinear_arith)
            requires
                dout <= have_out,
                have_in * reserve_out >= (have_out + 1) * reserve_in,
                have_in * reserve_out < (dout + 1) * reserve_in,
                reserve_in > 0,
        ;
    }
}

/// A withdrawal pays the rounded-down share of a reserve.
pub proof fn law_withdrawal_share(liquidity: nat, reserve: nat, total_supply: nat)
    requires
        total_supply > 0,
    ensures
        ({
            let paid = pool_burn(liquidity, reserve, total_supply);
            paid * total_supply <= liquidity * reserve < (paid + 1) * total_supply
        }),
{
    let paid = pool_burn(liquidity, reserve, total_supply);
    lemma_floor(liquidity * reserve, total_supply);
    assert((paid + 1) * total_supply == paid * total_supply + total_supply) by (nonlinear_arith);
}

} // verus!
