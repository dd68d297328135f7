//! What each operation hands back, token by token.
//!
//! The statements count what came in, what went along with the calls and what the
//! calls returned. They hold for totals of any size: one that does not fit in 128
//! bits is handed back as the largest value that does.

use crate::conservation::lemma_deposit_fits;
use crate::promises::{
    at_most_max, bought_by, brought, facts_in, first_sent, lemma_unzap_is_burning,
    lemma_zap_is_swapping, other_than, pool_asked, sold_by, unzapped_to, zapped,
};
use crate::protocol::{DepositPending, Step, SwapPending, ZapMessage};
use crate::runs::{reaches, Round};
use crate::transfers::{
    lemma_total_concat, lemma_total_single, lemma_total_unless_zero, lemma_total_without, total_of,
    unless_zero, without,
};
use crate::types::{capped, AlkaneId, AlkaneTransfer};
use crate::value_laws::{law_aggregate, law_change, law_extraction};
use crate::zap_in::{continues_zap_in, deposit_after, deposit_parcel, swap_received, zap_in_payout};
use crate::zap_out::withdrawn;
use vstd::prelude::*;

verus! {

/// How much of `id` is left of what came in, once `amount` of `token` is taken out.
pub open spec fn left_in_hand(
    incoming: Seq<AlkaneTransfer>,
    token: AlkaneId,
    amount: int,
    id: AlkaneId,
) -> int {
    if id == token {
        at_most_max(total_of(incoming, token) as int) - amount
    } else {
        total_of(incoming, id) as int
    }
}

/// An amount, where it is of the token that is counted.
pub open spec fn if_same(one: AlkaneId, two: AlkaneId, amount: int) -> int {
    if one == two {
        amount
    } else {
        0
    }
}

/// What a call returned of `id`, where `id` is not the token that is counted apart.
pub open spec fn returned_besides(round: Round, apart: AlkaneId, id: AlkaneId) -> int {
    if id == apart {
        0
    } else {
        total_of(round.response.alkanes@, id) as int
    }
}

/// How much of the input a zap deposited.
pub open spec fn deposited_input(message: ZapMessage, rounds: Seq<Round>) -> u128 {
    let parcel = rounds[3].asked->action->parcel@;
    if sold_by(message) == facts_in(rounds).token_a {
        parcel[0].value
    } else {
        parcel[1].value
    }
}

/// How much of the output a zap deposited.
pub open spec fn deposited_output(message: ZapMessage, rounds: Seq<Round>) -> u128 {
    let parcel = rounds[3].asked->action->parcel@;
    if sold_by(message) == facts_in(rounds).token_a {
        parcel[1].value
    } else {
        parcel[0].value
    }
}

/// What a finished zap pays out, token by token.
proof fn lemma_zap_pays_out(deposit: DepositPending, received: Seq<AlkaneTransfer>, id: AlkaneId)
    ensures
        total_of(zap_in_payout(deposit, received), id) == if_same(
            id,
            deposit.pool,
            capped(total_of(received, deposit.pool)) as int,
        ) + if_same(id, deposit.input_token, deposit.residual_input as int) + if_same(
            id,
            deposit.output_token,
            deposit.residual_output as int,
        ) + total_of(deposit.leftovers@, id) + (if id == deposit.pool {
            0
        } else {
            total_of(received, id)
        }),
{
    let lp = capped(total_of(received, deposit.pool));
    let a = seq![AlkaneTransfer { id: deposit.pool, value: lp }];
    let b = unless_zero(deposit.input_token, deposit.residual_input);
    let c = unless_zero(deposit.output_token, deposit.residual_output);
    let d = deposit.leftovers@ + without(received, deposit.pool);
    lemma_total_single(a[0], id);
    lemma_total_unless_zero(deposit.input_token, deposit.residual_input, id);
    lemma_total_unless_zero(deposit.output_token, deposit.residual_output, id);
    lemma_total_without(received, deposit.pool, id);
    lemma_total_concat(deposit.leftovers@, without(received, deposit.pool), id);
    lemma_total_concat(a, b, id);
    lemma_total_concat(a + b, c, id);
    lemma_total_concat(a + b + c, d, id);
}

/// What a zap keeps once its deposit is asked for, token by token.
proof fn lemma_deposit_keeps(
    step: Step,
    swap: SwapPending,
    received: Seq<AlkaneTransfer>,
    id: AlkaneId,
)
    requires
        continues_zap_in(step, swap, received),
        step is Ask,
    ensures
        ({
            let deposit = step->pending->deposit;
            let parcel = step->action->parcel@;
            let (din, dout) = if swap.input_is_a {
                (parcel[0].value, parcel[1].value)
            } else {
                (parcel[1].value, parcel[0].value)
            };
            &&& step->pending is Deposit
            &&& deposit.pool == swap.pool
            &&& deposit.input_token == swap.input_token
            &&& deposit.output_token == swap.output_token
            &&& deposit.residual_input == swap.have_input - din
            &&& deposit.residual_output == swap_received(swap, received) - dout
            &&& total_of(deposit.leftovers@, id) == total_of(swap.leftovers@, id) + (if id
                == swap.output_token {
                0
            } else {
                total_of(received, id)
            })
        }),
{
    let got = swap_received(swap, received);
    let planned = deposit_after(swap, got);
    let parcel = step->action->parcel@;
    lemma_deposit_fits(swap, got);
    assert(parcel =~= deposit_parcel(swap, planned));
    assert(parcel[0] == deposit_parcel(swap, planned)[0]);
    assert(parcel[1] == deposit_parcel(swap, planned)[1]);
    lemma_total_without(received, swap.output_token, id);
    lemma_total_concat(swap.leftovers@, without(received, swap.output_token), id);
}

/// A zap hands back what was minted, what neither the swap nor the deposit used of the
/// input and of the output, the change, and whatever else the pool returned.
pub proof fn law_zap_hands_back(
    message: ZapMessage,
    height: u64,
    incoming: Seq<AlkaneTransfer>,
    rounds: Seq<Round>,
    step: Step,
    id: AlkaneId,
)
    requires
        reaches(message, height, incoming, rounds, step),
        message is ZapIn || message is ZapInForExactLp,
        rounds.len() == 4,
        step is Done,
    ensures
        ({
            let pool = pool_asked(message);
            let input = sold_by(message);
            let output = bought_by(message);
            let spent = zapped(message, facts_in(rounds));
            let sold = first_sent(rounds[2].asked).value;
            total_of(step->response.alkanes@, id) == at_most_max(
                if_same(id, pool, brought(rounds, 3, pool)) + if_same(
                    id,
                    input,
                    spent - sold - deposited_input(message, rounds),
                ) + if_same(
                    id,
                    output,
                    brought(rounds, 2, output) - deposited_output(message, rounds),
                ) + left_in_hand(incoming, input, spent, id) + returned_besides(
                    rounds[2],
                    output,
                    id,
                ) + returned_besides(rounds[3], pool, id),
            )
        }),
{
    let f = facts_in(rounds);
    let third = rounds.drop_last();
    let second = third.drop_last();
    reveal_with_fuel(reaches, 3);
    assert(second[0] == rounds[0] && second[1] == rounds[1]);
    let r = lemma_zap_is_swapping(message, height, incoming, second, third.last().asked);
    let swap = third.last().asked->pending->swap;
    let swapped = third.last().response.alkanes@;
    let deposit = rounds.last().asked->pending->deposit;
    let received = rounds.last().response.alkanes@;
    lemma_deposit_keeps(rounds.last().asked, swap, swapped, id);
    law_change(incoming, swap.input_token, zapped(message, f) as u128, id);
    lemma_zap_pays_out(deposit, received, id);
    law_aggregate(zap_in_payout(deposit, received), step->response.alkanes@, id);
}

/// What a withdrawal returned of `id`, where `id` is neither token of the pool.
pub open spec fn returned_outside_pair(rounds: Seq<Round>, id: AlkaneId) -> int {
    let f = facts_in(rounds);
    if id == f.token_a || id == f.token_b {
        0
    } else {
        total_of(rounds[2].response.alkanes@, id) as int
    }
}

/// An unzap that swapped hands back what the withdrawal and the swap brought of the
/// output, the change, and whatever else the pool returned.
pub proof fn law_unzap_hands_back(
    message: ZapMessage,
    height: u64,
    incoming: Seq<AlkaneTransfer>,
    rounds: Seq<Round>,
    step: Step,
    id: AlkaneId,
)
    requires
        reaches(message, height, incoming, rounds, step),
        message is ZapOut || message is ZapOutForExactOut,
        rounds.len() == 4,
        step is Done,
    ensures
        ({
            let pool = pool_asked(message);
            let output = unzapped_to(message);
            let burned = first_sent(rounds[2].asked).value as int;
            total_of(step->response.alkanes@, id) == at_most_max(
                if_same(
                    id,
                    output,
                    at_most_max(brought(rounds, 2, output) + brought(rounds, 3, output)),
                ) + left_in_hand(incoming, pool, burned, id) + returned_outside_pair(rounds, id)
                    + returned_besides(rounds[3], output, id),
            )
        }),
{
    let f = facts_in(rounds);
    let third = rounds.drop_last();
    let second = third.drop_last();
    reveal_with_fuel(reaches, 3);
    assert(second[0] == rounds[0] && second[1] == rounds[1]);
    lemma_unzap_is_burning(message, height, incoming, second, third.last().asked);
    let burn = third.last().asked->pending->burn;
    let withdrawal = third.last().response.alkanes@;
    let unzap = rounds.last().asked->pending->unzap;
    let received = rounds.last().response.alkanes@;
    let rest = withdrawn(burn, withdrawal).2;
    let not_a = without(withdrawal, burn.state.token_a);
    lemma_total_without(withdrawal, burn.state.token_a, burn.state.token_b);
    lemma_total_without(withdrawal, burn.state.token_a, id);
    lemma_total_without(not_a, burn.state.token_b, id);
    law_change(incoming, burn.pool, first_sent(third.last().asked).value, id);
    lemma_total_concat(burn.leftovers@, rest, id);
    let got = capped(total_of(received, unzap.output_token));
    let total = capped((unzap.own_side + got) as nat);
    let a = seq![AlkaneTransfer { id: unzap.output_token, value: total }];
    let b = unzap.leftovers@ + without(received, unzap.output_token);
    lemma_total_single(a[0], id);
    lemma_total_without(received, unzap.output_token, id);
    lemma_total_concat(unzap.leftovers@, without(received, unzap.output_token), id);
    lemma_total_concat(a, b, id);
    law_aggregate(a + b, step->response.alkanes@, id);
}

/// An unzap that found nothing to swap against hands back both sides of the
/// withdrawal, the change, and whatever else the pool returned.
pub proof fn law_unswapped_unzap_hands_back(
    message: ZapMessage,
    height: u64,
    incoming: Seq<AlkaneTransfer>,
    rounds: Seq<Round>,
    step: Step,
    id: AlkaneId,
)
    requires
        reaches(message, height, incoming, rounds, step),
        message is ZapOut || message is ZapOutForExactOut,
        rounds.len() == 3,
        step is Done,
    ensures
        ({
            let pool = pool_asked(message);
            let output = unzapped_to(message);
            let unwanted = other_than(output, facts_in(rounds));
            let burned = first_sent(rounds[2].asked).value as int;
            total_of(step->response.alkanes@, id) == at_most_max(
                if_same(id, output, brought(rounds, 2, output)) + if_same(
                    id,
                    unwanted,
                    brought(rounds, 2, unwanted),
                ) + left_in_hand(incoming, pool, burned, id) + returned_outside_pair(rounds, id),
            )
        }),
{
    let f = facts_in(rounds);
    let second = rounds.drop_last();
    reveal_with_fuel(reaches, 3);
    assert(second[0] == rounds[0] && second[1] == rounds[1]);
    lemma_unzap_is_burning(message, height, incoming, second, rounds.last().asked);
    let burn = rounds.last().asked->pending->burn;
    let withdrawal = rounds.last().response.alkanes@;
    let output = unzapped_to(message);
    let unwanted = other_than(output, f);
    let rest = withdrawn(burn, withdrawal).2;
    let not_a = without(withdrawal, burn.state.token_a);
    lemma_total_without(withdrawal, burn.state.token_a, burn.state.token_b);
    lemma_total_without(withdrawal, burn.state.token_a, id);
    lemma_total_without(not_a, burn.state.token_b, id);
    law_change(incoming, burn.pool, first_sent(rounds.last().asked).value, id);
    lemma_total_concat(burn.leftovers@, rest, id);
    let a = seq![AlkaneTransfer { id: output, value: brought(rounds, 2, output) as u128 }];
    let b = burn.leftovers@ + rest;
    let c = seq![AlkaneTransfer { id: unwanted, value: brought(rounds, 2, unwanted) as u128 }];
    lemma_total_single(a[0], id);
    lemma_total_single(c[0], id);
    lemma_total_concat(b, c, id);
    lemma_total_concat(a, b + c, id);
    law_aggregate(a + (b + c), step->response.alkanes@, id);
}

/// A stake or bond hands back what the other contract returned, and the change.
pub proof fn law_forwarding_hands_back(
    message: ZapMessage,
    height: u64,
    incoming: Seq<AlkaneTransfer>,
    rounds: Seq<Round>,
    step: Step,
    id: AlkaneId,
)
    requires
        reaches(message, height, incoming, rounds, step),
        message is Stake || message is Bond,
        rounds.len() == 1,
    ensures
        ({
            let liquidity = if message is Stake {
                message->Stake_liquidity
            } else {
                message->Bond_liquidity
            };
            total_of(step->response.alkanes@, id) == at_most_max(
                total_of(rounds[0].response.alkanes@, id) + left_in_hand(
                    incoming,
                    pool_asked(message),
                    liquidity as int,
                    id,
                ),
            )
        }),
{
    reveal_with_fuel(reaches, 2);
    let last = rounds.last();
    let pool = pool_asked(message);
    let liquidity = last.asked->pending->lp_amount;
    let held = last.asked->pending->leftovers@;
    law_extraction(incoming, pool, liquidity);
    law_change(incoming, pool, liquidity, id);
    lemma_total_concat(last.response.alkanes@, held, id);
    law_aggregate(last.response.alkanes@ + held, step->response.alkanes@, id);
}

} // verus!
