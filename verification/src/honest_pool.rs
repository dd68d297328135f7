//! What the router achieves with a pool that keeps to the constant product:
//! one that pays for a swap what `swap_out` says, mints what `pool_mint` says
//! and pays out for liquidity what `pool_burn` says.

use crate::amm_laws::{
    law_exact_lp_never_undershoots, law_exact_out_reaches_target, pool_burn,
    rounding_is_covered, unzap_output,
};
use crate::amm_logic::{
    lemma_optimal_split_exists, lemma_planned_deposit, lemma_swap_out_below_reserve, optimal_split,
    pool_mint, predicted_lp, swap_out, unzap_liquidity,
};
use crate::closeness::{law_zap_leftover_is_small, output_price, split_weight};
use crate::conservation::carried_by;
use crate::pool::{oriented_reserves, pair_in_order};
use crate::protocol::{Action, PoolState, Step, SwapPending};
use crate::transfers::{
    extract_refusal, law_aggregate_keeps_totals, lemma_total_concat, lemma_total_single,
    lemma_total_without, total_of, without,
};
use crate::types::{capped, AlkaneId, AlkaneTransfer, ZapError};
use crate::zap_in::{
    begins_exact_lp, begins_zap_in, continues_zap_in, deposit_after, deposit_parcel,
    exact_lp_input, exact_lp_input_refusal, finishes_zap_in, swap_received, zap_in_expected_out,
    zap_in_payout, zap_in_refusal, zap_in_split,
};
use crate::zap_out::{
    begins_exact_out, begins_zap_out, continues_zap_out, exact_out_liquidity, exact_out_refusal,
    finishes_zap_out, output_refusal, output_reserve, withdrawn,
};
use vstd::prelude::*;

verus! {

/// The predicted mint of a zap.
pub open spec fn zap_prediction(amount_in: u128, state: PoolState, input_is_a: bool) -> nat {
    let (reserve_in, reserve_out) = oriented_reserves(state, input_is_a);
    predicted_lp(
        amount_in as nat,
        reserve_in as nat,
        reserve_out as nat,
        state.total_supply as nat,
        state.fee_per_1000 as nat,
    )
}

/// What the pool mints for the deposit that an action carries, after a swap that
/// paid out `paid`.
pub open spec fn mint_for(action: Action, swap: SwapPending, paid: nat) -> nat {
    let (reserve_in, reserve_out) = oriented_reserves(swap.state, swap.input_is_a);
    pool_mint(
        carried_by(action, swap.input_token),
        carried_by(action, swap.output_token),
        (reserve_in + swap.swap_amount) as nat,
        (reserve_out - paid) as nat,
        swap.state.total_supply as nat,
    )
}

/// The prediction never diverges from the execution: a zap with a positive
/// prediction gets to its deposit, the pool mints exactly the predicted
/// liquidity for it, and the zap succeeds where that is the caller's minimum.
pub proof fn law_zap_mints_prediction(
    begin: Step,
    middle: Step,
    end: Step,
    pool: AlkaneId,
    input_token: AlkaneId,
    output_token: AlkaneId,
    amount_in: u128,
    min_lp_tokens: u128,
    state: PoolState,
    incoming: Seq<AlkaneTransfer>,
    swapped: Seq<AlkaneTransfer>,
    minted: Seq<AlkaneTransfer>,
)
    requires
        input_token != output_token,
        begins_zap_in(
            begin,
            pool,
            input_token,
            output_token,
            amount_in,
            min_lp_tokens,
            state,
            incoming,
        ),
        begin is Ask,
        continues_zap_in(middle, begin->pending->swap, swapped),
        middle is Ask ==> finishes_zap_in(end, middle->pending->deposit, minted),
        ({
            let input_is_a = pair_in_order(input_token, output_token, state);
            let paid = zap_in_expected_out(amount_in, state, input_is_a);
            &&& zap_prediction(amount_in, state, input_is_a) > 0
            &&& oriented_reserves(state, input_is_a).0 + zap_in_split(amount_in, state, input_is_a)
                <= u128::MAX
            &&& total_of(swapped, output_token) == paid
            &&& middle is Ask ==> total_of(minted, pool) == mint_for(
                middle->action,
                begin->pending->swap,
                paid as nat,
            )
        }),
    ensures
        middle is Ask,
        ({
            let predicted = zap_prediction(
                amount_in,
                state,
                pair_in_order(input_token, output_token, state),
            );
            &&& total_of(minted, pool) == predicted
            &&& predicted >= min_lp_tokens ==> end is Done && total_of(
                end->response.alkanes@,
                pool,
            ) >= predicted
            &&& predicted < min_lp_tokens ==> end == (Step::Revert {
                error: ZapError::InsufficientLp { got: predicted as u128, want: min_lp_tokens },
            })
        }),
{
    let input_is_a = pair_in_order(input_token, output_token, state);
    let (reserve_in, reserve_out) = oriented_reserves(state, input_is_a);
    let fee = state.fee_per_1000;
    let s = zap_in_split(amount_in, state, input_is_a);
    let paid = zap_in_expected_out(amount_in, state, input_is_a);
    let predicted = zap_prediction(amount_in, state, input_is_a);
    let swap = begin->pending->swap;
    lemma_split_is_exact(amount_in, state, input_is_a);
    lemma_swap_out_below_reserve(s as nat, reserve_in as nat, reserve_out as nat, fee as nat);
    let got = swap_received(swap, swapped);
    assert(got == paid);
    let planned = deposit_after(swap, got);
    lemma_planned_deposit(
        swap.have_input as nat,
        got as nat,
        (reserve_in + s) as nat,
        (reserve_out - paid) as nat,
    );
    assert(planned.0 > 0 && planned.1 > 0);
    assert(middle is Ask);
    let parcel = deposit_parcel(swap, planned);
    assert(parcel =~= seq![parcel[0]] + seq![parcel[1]]);
    lemma_total_single(parcel[0], input_token);
    lemma_total_single(parcel[1], input_token);
    lemma_total_concat(seq![parcel[0]], seq![parcel[1]], input_token);
    lemma_total_single(parcel[0], output_token);
    lemma_total_single(parcel[1], output_token);
    lemma_total_concat(seq![parcel[0]], seq![parcel[1]], output_token);
    assert(carried_by(middle->action, input_token) == planned.0);
    assert(carried_by(middle->action, output_token) == planned.1);
    if predicted >= min_lp_tokens {
        let deposit = middle->pending->deposit;
        let lp = capped(total_of(minted, pool));
        let first = seq![AlkaneTransfer { id: pool, value: lp }];
        let payout = zap_in_payout(deposit, minted);
        assert(payout =~= first + payout.skip(1));
        lemma_total_concat(first, payout.skip(1), pool);
        lemma_total_single(first[0], pool);
        law_aggregate_keeps_totals(payout, end->response.alkanes@, pool);
    }
}

/// A zap whose swap pays what it should leaves little over: nothing of the output,
/// and of the input at most two units, the weight of one unit in the split, and
/// the price of one unit of output.
pub proof fn law_zap_leaves_little(
    begin: Step,
    middle: Step,
    pool: AlkaneId,
    input_token: AlkaneId,
    output_token: AlkaneId,
    amount_in: u128,
    min_lp_tokens: u128,
    state: PoolState,
    incoming: Seq<AlkaneTransfer>,
    swapped: Seq<AlkaneTransfer>,
)
    requires
        begins_zap_in(
            begin,
            pool,
            input_token,
            output_token,
            amount_in,
            min_lp_tokens,
            state,
            incoming,
        ),
        begin is Ask,
        continues_zap_in(middle, begin->pending->swap, swapped),
        middle is Ask,
        ({
            let input_is_a = pair_in_order(input_token, output_token, state);
            &&& oriented_reserves(state, input_is_a).0 + zap_in_split(amount_in, state, input_is_a)
                <= u128::MAX
            &&& total_of(swapped, output_token) == zap_in_expected_out(
                amount_in,
                state,
                input_is_a,
            )
        }),
    ensures
        ({
            let (reserve_in, reserve_out) = oriented_reserves(
                state,
                pair_in_order(input_token, output_token, state),
            );
            let fee = state.fee_per_1000 as nat;
            let deposit = middle->pending->deposit;
            &&& deposit.residual_output == 0
            &&& deposit.residual_input <= 2 + split_weight(
                amount_in as nat,
                reserve_in as nat,
                fee,
            ) + output_price(amount_in as nat, reserve_in as nat, reserve_out as nat, fee)
        }),
{
    let input_is_a = pair_in_order(input_token, output_token, state);
    let (reserve_in, reserve_out) = oriented_reserves(state, input_is_a);
    let fee = state.fee_per_1000 as nat;
    let s = zap_in_split(amount_in, state, input_is_a);
    lemma_split_is_exact(amount_in, state, input_is_a);
    lemma_swap_out_below_reserve(s as nat, reserve_in as nat, reserve_out as nat, fee);
    law_zap_leftover_is_small(amount_in as nat, reserve_in as nat, reserve_out as nat, fee);
}

/// The split of a zap fits in 128 bits as it is.
proof fn lemma_split_is_exact(amount_in: u128, state: PoolState, input_is_a: bool)
    ensures
        zap_in_split(amount_in, state, input_is_a) == optimal_split(
            amount_in as nat,
            oriented_reserves(state, input_is_a).0 as nat,
            state.fee_per_1000 as nat,
        ),
{
    let reserve_in = oriented_reserves(state, input_is_a).0;
    if amount_in > 0 && reserve_in > 0 && state.fee_per_1000 < 1000 {
        lemma_optimal_split_exists(
            amount_in as nat,
            reserve_in as nat,
            state.fee_per_1000 as nat,
        );
    }
}

/// A zap for a liquidity target never undershoots: once the input is found and
/// has come in, the zap gets through its swap and its deposit and succeeds with
/// at least `lp_out`.
pub proof fn law_exact_lp_succeeds(
    begin: Step,
    middle: Step,
    end: Step,
    pool: AlkaneId,
    input_token: AlkaneId,
    output_token: AlkaneId,
    lp_out: u128,
    amount_in_max: u128,
    state: PoolState,
    incoming: Seq<AlkaneTransfer>,
    swapped: Seq<AlkaneTransfer>,
    minted: Seq<AlkaneTransfer>,
)
    requires
        input_token != output_token,
        begins_exact_lp(
            begin,
            pool,
            input_token,
            output_token,
            lp_out,
            amount_in_max,
            state,
            incoming,
        ),
        exact_lp_input_refusal(input_token, output_token, lp_out, amount_in_max, state) is None,
        extract_refusal(
            incoming,
            input_token,
            exact_lp_input(input_token, output_token, lp_out, state),
        ) is None,
        begin is Ask ==> continues_zap_in(middle, begin->pending->swap, swapped),
        middle is Ask ==> finishes_zap_in(end, middle->pending->deposit, minted),
        ({
            let amount_in = exact_lp_input(input_token, output_token, lp_out, state);
            let input_is_a = pair_in_order(input_token, output_token, state);
            let paid = zap_in_expected_out(amount_in, state, input_is_a);
            &&& oriented_reserves(state, input_is_a).0 + zap_in_split(amount_in, state, input_is_a)
                <= u128::MAX
            &&& total_of(swapped, output_token) == paid
            &&& middle is Ask ==> total_of(minted, pool) == mint_for(
                middle->action,
                begin->pending->swap,
                paid as nat,
            )
        }),
    ensures
        begin is Ask,
        middle is Ask,
        end is Done,
        total_of(end->response.alkanes@, pool) >= lp_out,
        exact_lp_input(input_token, output_token, lp_out, state) <= amount_in_max,
{
    let amount_in = exact_lp_input(input_token, output_token, lp_out, state);
    let input_is_a = pair_in_order(input_token, output_token, state);
    let (reserve_in, reserve_out) = oriented_reserves(state, input_is_a);
    law_exact_lp_never_undershoots(
        lp_out as nat,
        reserve_in as nat,
        reserve_out as nat,
        state.total_supply as nat,
        state.fee_per_1000 as nat,
    );
    lemma_split_is_exact(amount_in, state, input_is_a);
    assert(zap_prediction(amount_in, state, input_is_a) >= lp_out);
    assert(zap_in_refusal(input_token, output_token, amount_in, state, incoming) is None);
    law_zap_mints_prediction(
        begin,
        middle,
        end,
        pool,
        input_token,
        output_token,
        amount_in,
        lp_out,
        state,
        incoming,
        swapped,
        minted,
    );
}

/// The reserve of the token that an unzap swaps.
pub open spec fn other_reserve(output_token: AlkaneId, state: PoolState) -> u128 {
    if output_token == state.token_a {
        state.reserve_b
    } else {
        state.reserve_a
    }
}

/// The token that an unzap swaps.
pub open spec fn other_token(output_token: AlkaneId, state: PoolState) -> AlkaneId {
    if output_token == state.token_a {
        state.token_b
    } else {
        state.token_a
    }
}

/// What an unzap of `liquidity` yields.
pub open spec fn unzap_prediction(
    liquidity: u128,
    output_token: AlkaneId,
    state: PoolState,
) -> nat {
    unzap_output(
        liquidity as nat,
        output_reserve(output_token, state) as nat,
        other_reserve(output_token, state) as nat,
        state.total_supply as nat,
        state.fee_per_1000 as nat,
    )
}

/// What the withdrawal of an unzap pays: in the output token and in the other.
pub open spec fn withdrawal_pays(
    paid_out: Seq<AlkaneTransfer>,
    liquidity: u128,
    output_token: AlkaneId,
    state: PoolState,
) -> bool {
    &&& total_of(paid_out, output_token) == pool_burn(
        liquidity as nat,
        output_reserve(output_token, state) as nat,
        state.total_supply as nat,
    )
    &&& total_of(paid_out, other_token(output_token, state)) == pool_burn(
        liquidity as nat,
        other_reserve(output_token, state) as nat,
        state.total_supply as nat,
    )
}

/// What the swap of an unzap pays, after the withdrawal.
pub open spec fn unzap_swap_pays(
    swapped: Seq<AlkaneTransfer>,
    liquidity: u128,
    output_token: AlkaneId,
    state: PoolState,
) -> bool {
    let reserve = output_reserve(output_token, state) as nat;
    let other = other_reserve(output_token, state) as nat;
    let own_paid = pool_burn(liquidity as nat, reserve, state.total_supply as nat);
    let other_paid = pool_burn(liquidity as nat, other, state.total_supply as nat);
    total_of(swapped, output_token) == swap_out(
        other_paid,
        (other - other_paid) as nat,
        (reserve - own_paid) as nat,
        state.fee_per_1000 as nat,
    )
}

/// An unzap whose withdrawal pays on both sides yields exactly what the pool's
/// arithmetic says, and succeeds where that is the caller's minimum.
pub proof fn law_zap_out_yields_prediction(
    begin: Step,
    middle: Step,
    end: Step,
    pool: AlkaneId,
    output_token: AlkaneId,
    liquidity: u128,
    min_out: u128,
    state: PoolState,
    incoming: Seq<AlkaneTransfer>,
    paid_out: Seq<AlkaneTransfer>,
    swapped: Seq<AlkaneTransfer>,
)
    requires
        state.token_a != state.token_b,
        output_refusal(output_token, state) is None,
        0 < liquidity <= state.total_supply,
        begins_zap_out(begin, pool, output_token, liquidity, min_out, state, incoming),
        begin is Ask,
        continues_zap_out(middle, begin->pending->burn, paid_out),
        withdrawal_pays(paid_out, liquidity, output_token, state),
        total_of(paid_out, state.token_a) > 0,
        total_of(paid_out, state.token_b) > 0,
        middle is Ask ==> finishes_zap_out(end, middle->pending->unzap, swapped),
        middle is Ask ==> unzap_swap_pays(swapped, liquidity, output_token, state),
        !(middle is Ask) ==> end == middle,
    ensures
        ({
            let yielded = unzap_prediction(liquidity, output_token, state);
            &&& yielded >= min_out ==> end is Done && total_of(
                end->response.alkanes@,
                output_token,
            ) >= yielded
            &&& yielded < min_out ==> end == (Step::Revert {
                error: ZapError::InsufficientOutput { got: yielded as u128, want: min_out },
            })
        }),
{
    let reserve = output_reserve(output_token, state) as nat;
    let other = other_reserve(output_token, state) as nat;
    let supply = state.total_supply as nat;
    let fee = state.fee_per_1000 as nat;
    let own_paid = pool_burn(liquidity as nat, reserve, supply);
    let other_paid = pool_burn(liquidity as nat, other, supply);
    let yielded = unzap_prediction(liquidity, output_token, state);
    lemma_burn_fits(liquidity as nat, reserve, supply);
    lemma_burn_fits(liquidity as nat, other, supply);
    let burn = begin->pending->burn;
    lemma_total_without(paid_out, state.token_a, state.token_b);
    let (amt_a, amt_b, rest) = withdrawn(burn, paid_out);
    if output_token == state.token_a {
        assert(amt_a == own_paid && amt_b == other_paid);
    } else {
        assert(amt_b == own_paid && amt_a == other_paid);
    }
    let out = end->response.alkanes@;
    if middle is Ask {
        assert(own_paid < reserve && other_paid < other);
        let paid = swap_out(
            other_paid,
            (other - other_paid) as nat,
            (reserve - own_paid) as nat,
            fee,
        );
        lemma_swap_out_below_reserve(
            other_paid,
            (other - other_paid) as nat,
            (reserve - own_paid) as nat,
            fee,
        );
        assert(yielded == own_paid + paid);
        if yielded >= min_out {
            let unzap = middle->pending->unzap;
            let first = seq![AlkaneTransfer { id: output_token, value: yielded as u128 }];
            let others = unzap.leftovers@ + without(swapped, output_token);
            lemma_total_concat(first, others, output_token);
            lemma_total_single(first[0], output_token);
            law_aggregate_keeps_totals(first + others, out, output_token);
        }
    } else {
        assert(yielded == own_paid);
        if yielded >= min_out {
            let unwanted = AlkaneTransfer {
                id: other_token(output_token, state),
                value: other_paid as u128,
            };
            let first = seq![AlkaneTransfer { id: output_token, value: own_paid as u128 }];
            let others = burn.leftovers@ + rest + seq![unwanted];
            lemma_total_concat(first, others, output_token);
            lemma_total_single(first[0], output_token);
            law_aggregate_keeps_totals(first + others, out, output_token);
        }
    }
}

/// A withdrawal pays no more than the reserve.
proof fn lemma_burn_fits(liquidity: nat, reserve: nat, total_supply: nat)
    requires
        liquidity <= total_supply,
        total_supply > 0,
    ensures
        pool_burn(liquidity, reserve, total_supply) <= reserve,
{
    assert((liquidity * reserve) / total_supply <= reserve) by (nonlinear_arith)
        requires
            liquidity <= total_supply,
            total_supply > 0,
            liquidity >= 0,
            reserve >= 0,
    ;
}

/// An unzap for an output target reaches it, exactly where the liquidity makes up
/// for the roundings of both withdrawals together: once the liquidity is computed
/// and has come in, the unzap gets through its withdrawal and its swap and
/// succeeds with at least `output_amount`. Elsewhere it is refused.
pub proof fn law_exact_out_succeeds(
    begin: Step,
    middle: Step,
    end: Step,
    pool: AlkaneId,
    output_token: AlkaneId,
    output_amount: u128,
    max_lp: u128,
    state: PoolState,
    incoming: Seq<AlkaneTransfer>,
    paid_out: Seq<AlkaneTransfer>,
    swapped: Seq<AlkaneTransfer>,
)
    requires
        state.token_a != state.token_b,
        begins_exact_out(
            begin,
            pool,
            output_token,
            output_amount,
            max_lp,
            state,
            incoming,
        ),
        exact_out_refusal(output_token, output_amount, max_lp, state) is None,
        ({
            let liquidity = exact_out_liquidity(output_token, output_amount, state);
            let reserve = output_reserve(output_token, state) as nat;
            let other = other_reserve(output_token, state) as nat;
            let supply = state.total_supply as nat;
            let closed = unzap_liquidity(
                output_amount as nat,
                reserve,
                supply,
                state.fee_per_1000 as nat,
            );
            &&& extract_refusal(incoming, pool, liquidity) is None
            &&& other > 0
            &&& closed + 3 <= supply
            &&& total_of(paid_out, state.token_a) > 0
            &&& total_of(paid_out, state.token_b) > 0
            &&& withdrawal_pays(paid_out, liquidity, output_token, state)
            &&& middle is Ask ==> unzap_swap_pays(swapped, liquidity, output_token, state)
        }),
        begin is Ask ==> continues_zap_out(middle, begin->pending->burn, paid_out),
        middle is Ask ==> finishes_zap_out(end, middle->pending->unzap, swapped),
        !(middle is Ask) ==> end == middle,
    ensures
        begin is Ask,
        exact_out_liquidity(output_token, output_amount, state) <= max_lp,
        end is Done <==> rounding_is_covered(
            exact_out_liquidity(output_token, output_amount, state) as nat,
            output_amount as nat,
            output_reserve(output_token, state) as nat,
            other_reserve(output_token, state) as nat,
            state.total_supply as nat,
            state.fee_per_1000 as nat,
        ),
        end is Done ==> total_of(end->response.alkanes@, output_token) >= output_amount,
{
    let reserve = output_reserve(output_token, state) as nat;
    let other = other_reserve(output_token, state) as nat;
    let supply = state.total_supply as nat;
    let fee = state.fee_per_1000 as nat;
    law_exact_out_reaches_target(output_amount as nat, reserve, other, supply, fee);
    law_zap_out_yields_prediction(
        begin,
        middle,
        end,
        pool,
        output_token,
        exact_out_liquidity(output_token, output_amount, state),
        output_amount,
        state,
        incoming,
        paid_out,
        swapped,
    );
}

} // verus!
