//! No token is lost on the way: what comes in and what the called contracts
//! return is kept, sent along or handed to the caller, at every step.

use crate::amm_logic::{lemma_optimal_split_exists, lemma_planned_deposit, traded_per_1000};
use crate::pool::{field_at, oriented_reserves, pair_in_order, state_with_fee};
use crate::protocol::{
    Action, BurnPending, DepositPending, Job, Pending, PoolState, Step, SwapPending, UnzapPending,
    ZapMessage,
};
use crate::transfers::{
    law_aggregate_keeps_totals, lemma_total_change, lemma_total_concat, lemma_total_single,
    lemma_total_unless_zero, lemma_total_without, total_of, unless_zero, without,
};
use crate::types::{capped, AlkaneId, AlkaneTransfer, CallResponse};
use crate::zap::{begins_job, continues, forwards_liquidity, starts};
use crate::zap_in::{
    begins_zap_in, continues_zap_in, deposit_after, deposit_parcel, exact_lp_input, swap_received,
    zap_in_payout, zap_in_split,
};
use crate::zap_out::{
    begins_zap_out, continues_zap_out, exact_out_liquidity, finishes_zap_out, output_refusal,
    withdrawn,
};
use vstd::prelude::*;

verus! {

/// An amount of one token, seen from another.
pub open spec fn counted(token: AlkaneId, value: nat, id: AlkaneId) -> nat {
    if token == id {
        value
    } else {
        0
    }
}

/// How much of `id` the router holds while it waits for a reply.
pub open spec fn held_by(pending: Pending, id: AlkaneId) -> nat {
    match pending {
        Pending::Details { incoming, .. } => total_of(incoming@, id),
        Pending::Fee { incoming, .. } => total_of(incoming@, id),
        Pending::Swap { swap } => counted(swap.input_token, swap.have_input as nat, id) + total_of(
            swap.leftovers@,
            id,
        ),
        Pending::Deposit { deposit } => counted(
            deposit.input_token,
            deposit.residual_input as nat,
            id,
        ) + counted(deposit.output_token, deposit.residual_output as nat, id) + total_of(
            deposit.leftovers@,
            id,
        ),
        Pending::Burn { burn } => total_of(burn.leftovers@, id),
        Pending::Unzap { unzap } => counted(unzap.output_token, unzap.own_side as nat, id)
            + total_of(unzap.leftovers@, id),
        Pending::Forwarded { leftovers, .. } => total_of(leftovers@, id),
    }
}

/// How much of `id` a call takes along.
pub open spec fn carried_by(action: Action, id: AlkaneId) -> nat {
    match action {
        Action::StaticCall { .. } => 0,
        Action::Call { parcel, .. } => total_of(parcel@, id),
    }
}

/// How much of `id` a step accounts for: what it sends and keeps, or what it
/// hands to the caller.
pub open spec fn balance(step: Step, id: AlkaneId) -> nat {
    match step {
        Step::Ask { action, pending } => held_by(pending, id) + carried_by(action, id),
        Step::Done { response } => total_of(response.alkanes@, id),
        Step::Revert { .. } => 0,
    }
}

/// Whether the router waits for a call that only reads.
pub open spec fn awaits_read(pending: Pending) -> bool {
    pending is Details || pending is Fee
}

/// Whether the router's notes are consistent: the pair of a zap is its pool's
/// pair, and the output of an unzap is in its pool's pair.
pub open spec fn pending_fits(pending: Pending) -> bool {
    match pending {
        Pending::Swap { swap } => if swap.input_is_a {
            pair_in_order(swap.input_token, swap.output_token, swap.state)
        } else {
            pair_in_order(swap.output_token, swap.input_token, swap.state)
        },
        Pending::Burn { burn } => output_refusal(burn.output_token, burn.state) is None,
        _ => true,
    }
}

/// Whether a step that asks for a call has consistent notes, and carries tokens
/// exactly where the call is not a read.
pub open spec fn step_fits(step: Step) -> bool {
    step matches Step::Ask { action, pending } ==> pending_fits(pending) && (awaits_read(pending)
        <==> action is StaticCall)
}

/// Every operation starts with consistent notes.
pub proof fn law_start_fits(
    step: Step,
    message: ZapMessage,
    height: u64,
    incoming: Seq<AlkaneTransfer>,
)
    requires
        starts(step, message, height, incoming),
    ensures
        step_fits(step),
{
}

/// Every reply leaves the notes consistent.
pub proof fn law_resume_fits(step: Step, pending: Pending, response: CallResponse)
    requires
        continues(step, pending, response),
        pending_fits(pending),
    ensures
        step_fits(step),
{
}

/// Whether a message only asks for a name and does not look at tokens.
pub open spec fn is_view(message: ZapMessage) -> bool {
    message is GetName || message is MadeIn
}

/// Forwarding liquidity keeps every token.
proof fn lemma_forward_conserves(
    step: Step,
    pool: AlkaneId,
    target: AlkaneId,
    liquidity: u128,
    inputs: Seq<u128>,
    incoming: Seq<AlkaneTransfer>,
    id: AlkaneId,
)
    requires
        forwards_liquidity(step, pool, target, liquidity, inputs, incoming),
        !(step is Revert),
        total_of(incoming, pool) <= u128::MAX,
    ensures
        balance(step, id) == total_of(incoming, id),
{
    lemma_total_change(incoming, pool, liquidity, id);
    lemma_total_single(AlkaneTransfer { id: pool, value: liquidity }, id);
}

/// No token is lost or made when an operation starts: what comes in is kept, sent
/// along or handed back. (The totals that come in are taken to fit in 128 bits,
/// and the two views are not meant to receive tokens.)
pub proof fn law_start_conserves(
    step: Step,
    message: ZapMessage,
    height: u64,
    incoming: Seq<AlkaneTransfer>,
    id: AlkaneId,
)
    requires
        starts(step, message, height, incoming),
        !(step is Revert),
        !is_view(message),
        forall|t: AlkaneId| #[trigger] total_of(incoming, t) <= u128::MAX,
    ensures
        balance(step, id) == total_of(incoming, id),
{
    match message {
        ZapMessage::Stake { pool, staking, liquidity, lock_duration, .. } => {
            lemma_forward_conserves(
                step,
                pool,
                staking,
                liquidity,
                seq![1u128, lock_duration, liquidity],
                incoming,
                id,
            );
        },
        ZapMessage::Bond { pool, bonding, liquidity, min_fire_out, .. } => {
            lemma_forward_conserves(
                step,
                pool,
                bonding,
                liquidity,
                seq![1u128, liquidity, min_fire_out],
                incoming,
                id,
            );
        },
        _ => {},
    }
}

/// Beginning a zap keeps every token.
proof fn lemma_zap_in_conserves(
    step: Step,
    pool: AlkaneId,
    input_token: AlkaneId,
    output_token: AlkaneId,
    amount_in: u128,
    min_lp_tokens: u128,
    state: PoolState,
    incoming: Seq<AlkaneTransfer>,
    id: AlkaneId,
)
    requires
        begins_zap_in(
            step,
            pool,
            input_token,
            output_token,
            amount_in,
            min_lp_tokens,
            state,
            incoming,
        ),
        !(step is Revert),
        total_of(incoming, input_token) <= u128::MAX,
    ensures
        balance(step, id) == total_of(incoming, id),
{
    let input_is_a = pair_in_order(input_token, output_token, state);
    let s = zap_in_split(amount_in, state, input_is_a);
    lemma_split_fits(amount_in, state, input_is_a);
    lemma_total_change(incoming, input_token, amount_in, id);
    lemma_total_single(AlkaneTransfer { id: input_token, value: s }, id);
}

/// The split of a zap is part of its input.
pub proof fn lemma_split_fits(amount_in: u128, state: PoolState, input_is_a: bool)
    ensures
        zap_in_split(amount_in, state, input_is_a) <= amount_in,
        amount_in > 0 ==> zap_in_split(amount_in, state, input_is_a) < amount_in,
{
    let (reserve_in, _) = oriented_reserves(state, input_is_a);
    if amount_in > 0 && reserve_in > 0 && traded_per_1000(state.fee_per_1000 as nat) > 0 {
        lemma_optimal_split_exists(
            amount_in as nat,
            reserve_in as nat,
            state.fee_per_1000 as nat,
        );
    }
}

/// Beginning an unzap keeps every token.
proof fn lemma_zap_out_conserves(
    step: Step,
    pool: AlkaneId,
    output_token: AlkaneId,
    liquidity: u128,
    min_out: u128,
    state: PoolState,
    incoming: Seq<AlkaneTransfer>,
    id: AlkaneId,
)
    requires
        begins_zap_out(step, pool, output_token, liquidity, min_out, state, incoming),
        !(step is Revert),
        total_of(incoming, pool) <= u128::MAX,
    ensures
        balance(step, id) == total_of(incoming, id),
{
    lemma_total_change(incoming, pool, liquidity, id);
    lemma_total_single(AlkaneTransfer { id: pool, value: liquidity }, id);
}

/// Beginning a job keeps every token.
proof fn lemma_job_conserves(
    step: Step,
    job: Job,
    state: PoolState,
    incoming: Seq<AlkaneTransfer>,
    id: AlkaneId,
)
    requires
        begins_job(step, job, state, incoming),
        !(step is Revert),
        forall|t: AlkaneId| #[trigger] total_of(incoming, t) <= u128::MAX,
    ensures
        balance(step, id) == total_of(incoming, id),
{
    match job {
        Job::ZapIn { pool, input_token, output_token, amount_in, min_lp_tokens } => {
            lemma_zap_in_conserves(
                step,
                pool,
                input_token,
                output_token,
                amount_in,
                min_lp_tokens,
                state,
                incoming,
                id,
            );
        },
        Job::ZapInForExactLp { pool, input_token, output_token, lp_out, .. } => {
            lemma_zap_in_conserves(
                step,
                pool,
                input_token,
                output_token,
                exact_lp_input(input_token, output_token, lp_out, state),
                lp_out,
                state,
                incoming,
                id,
            );
        },
        Job::ZapOut { pool, output_token, liquidity, min_out } => {
            lemma_zap_out_conserves(
                step,
                pool,
                output_token,
                liquidity,
                min_out,
                state,
                incoming,
                id,
            );
        },
        Job::ZapOutForExactOut { pool, output_token, output_amount, .. } => {
            lemma_zap_out_conserves(
                step,
                pool,
                output_token,
                exact_out_liquidity(output_token, output_amount, state),
                output_amount,
                state,
                incoming,
                id,
            );
        },
    }
}

/// Going on to the deposit keeps every token.
proof fn lemma_deposit_conserves(
    step: Step,
    swap: SwapPending,
    received: Seq<AlkaneTransfer>,
    id: AlkaneId,
)
    requires
        continues_zap_in(step, swap, received),
        pending_fits(Pending::Swap { swap }),
        !(step is Revert),
        total_of(received, swap.output_token) <= u128::MAX,
    ensures
        balance(step, id) == held_by(Pending::Swap { swap }, id) + total_of(received, id),
{
    let got = swap_received(swap, received);
    let planned = deposit_after(swap, got);
    lemma_deposit_fits(swap, got);
    lemma_total_concat(swap.leftovers@, without(received, swap.output_token), id);
    lemma_total_without(received, swap.output_token, id);
    let parcel = deposit_parcel(swap, planned);
    lemma_total_single(parcel[0], id);
    lemma_total_single(parcel[1], id);
    assert(parcel =~= seq![parcel[0]] + seq![parcel[1]]);
    lemma_total_concat(seq![parcel[0]], seq![parcel[1]], id);
}

/// The deposit takes no more than there is on either side.
pub proof fn lemma_deposit_fits(swap: SwapPending, got: u128)
    ensures
        deposit_after(swap, got).0 <= swap.have_input,
        deposit_after(swap, got).1 <= got,
{
    let (reserve_in, reserve_out) = oriented_reserves(swap.state, swap.input_is_a);
    let new_in = capped((reserve_in + swap.swap_amount) as nat);
    let new_out: nat = if got > reserve_out {
        0
    } else {
        (reserve_out - got) as nat
    };
    lemma_planned_deposit(swap.have_input as nat, got as nat, new_in as nat, new_out);
}

/// A zap pays out what it held and what its deposit brought.
proof fn lemma_zap_in_payout(deposit: DepositPending, received: Seq<AlkaneTransfer>, id: AlkaneId)
    requires
        total_of(received, deposit.pool) <= u128::MAX,
    ensures
        total_of(zap_in_payout(deposit, received), id) == held_by(
            Pending::Deposit { deposit },
            id,
        ) + total_of(received, id),
{
    let lp = capped(total_of(received, deposit.pool));
    let first = seq![AlkaneTransfer { id: deposit.pool, value: lp }];
    let second = unless_zero(deposit.input_token, deposit.residual_input);
    let third = unless_zero(deposit.output_token, deposit.residual_output);
    let rest = without(received, deposit.pool);
    let last = deposit.leftovers@ + rest;
    lemma_total_single(AlkaneTransfer { id: deposit.pool, value: lp }, id);
    lemma_total_unless_zero(deposit.input_token, deposit.residual_input, id);
    lemma_total_unless_zero(deposit.output_token, deposit.residual_output, id);
    lemma_total_without(received, deposit.pool, id);
    lemma_total_concat(deposit.leftovers@, rest, id);
    lemma_total_concat(first, second, id);
    lemma_total_concat(first + second, third, id);
    lemma_total_concat(first + second + third, last, id);
}

/// Going on from a withdrawal keeps every token.
proof fn lemma_withdrawal_conserves(
    step: Step,
    burn: BurnPending,
    received: Seq<AlkaneTransfer>,
    id: AlkaneId,
)
    requires
        continues_zap_out(step, burn, received),
        pending_fits(Pending::Burn { burn }),
        !(step is Revert),
        forall|t: AlkaneId|
            held_by(Pending::Burn { burn }, t) + #[trigger] total_of(received, t) <= u128::MAX,
    ensures
        balance(step, id) == held_by(Pending::Burn { burn }, id) + total_of(received, id),
{
    let a = burn.state.token_a;
    let b = burn.state.token_b;
    let (amt_a, amt_b, rest) = withdrawn(burn, received);
    let not_a = without(received, a);
    lemma_total_without(received, a, id);
    lemma_total_without(received, a, b);
    lemma_total_without(not_a, b, id);
    lemma_total_concat(burn.leftovers@, rest, id);
    assert(total_of(received, a) <= u128::MAX && total_of(received, b) <= u128::MAX);
    let (input_token, input_amt, own_side) = if burn.output_token == a {
        (b, amt_b, amt_a)
    } else {
        (a, amt_a, amt_b)
    };
    let unwanted = AlkaneTransfer { id: input_token, value: input_amt };
    lemma_total_single(unwanted, id);
    if step is Done {
        let own = AlkaneTransfer { id: burn.output_token, value: own_side };
        let kept = burn.leftovers@ + rest;
        lemma_total_single(own, id);
        lemma_total_concat(kept, seq![unwanted], id);
        lemma_total_concat(seq![own], kept + seq![unwanted], id);
        let payout = seq![own] + (kept + seq![unwanted]);
        law_aggregate_keeps_totals(payout, step->response.alkanes@, id);
    }
}

/// Ending an unzap keeps every token.
proof fn lemma_unzap_conserves(
    step: Step,
    unzap: UnzapPending,
    received: Seq<AlkaneTransfer>,
    id: AlkaneId,
)
    requires
        finishes_zap_out(step, unzap, received),
        !(step is Revert),
        forall|t: AlkaneId|
            held_by(Pending::Unzap { unzap }, t) + #[trigger] total_of(received, t) <= u128::MAX,
    ensures
        balance(step, id) == held_by(Pending::Unzap { unzap }, id) + total_of(received, id),
{
    let out = unzap.output_token;
    let got = capped(total_of(received, out));
    let total = capped((unzap.own_side + got) as nat);
    let rest = without(received, out);
    let first = AlkaneTransfer { id: out, value: total };
    assert(held_by(Pending::Unzap { unzap }, out) + total_of(received, out) <= u128::MAX);
    lemma_total_without(received, out, id);
    lemma_total_concat(unzap.leftovers@, rest, id);
    lemma_total_single(first, id);
    lemma_total_concat(seq![first], unzap.leftovers@ + rest, id);
    law_aggregate_keeps_totals(
        seq![first] + (unzap.leftovers@ + rest),
        step->response.alkanes@,
        id,
    );
}

/// No token is lost or made when an operation goes on: what the router held and
/// what the call brought is kept, sent along or handed to the caller, whatever
/// the other contract returned. (The totals are taken to fit in 128 bits; a read
/// brings no tokens.)
pub proof fn law_resume_conserves(
    step: Step,
    pending: Pending,
    response: CallResponse,
    id: AlkaneId,
)
    requires
        continues(step, pending, response),
        pending_fits(pending),
        !(step is Revert),
        awaits_read(pending) ==> forall|t: AlkaneId| #[trigger]
            held_by(pending, t) <= u128::MAX,
        !awaits_read(pending) ==> forall|t: AlkaneId|
            held_by(pending, t) + #[trigger] total_of(response.alkanes@, t) <= u128::MAX,
    ensures
        balance(step, id) == held_by(pending, id) + (if awaits_read(pending) {
            0
        } else {
            total_of(response.alkanes@, id)
        }),
{
    match pending {
        Pending::Details { .. } => {},
        Pending::Fee { job, details, incoming } => {
            assert forall|t: AlkaneId| #[trigger] total_of(incoming@, t) <= u128::MAX by {
                assert(held_by(pending, t) <= u128::MAX);
            }
            lemma_job_conserves(
                step,
                job,
                state_with_fee(details, field_at(response.data@, 0)),
                incoming@,
                id,
            );
        },
        Pending::Swap { swap } => {
            assert(total_of(response.alkanes@, swap.output_token) <= u128::MAX);
            lemma_deposit_conserves(step, swap, response.alkanes@, id);
        },
        Pending::Deposit { deposit } => {
            assert(total_of(response.alkanes@, deposit.pool) <= u128::MAX);
            assert(held_by(pending, id) + total_of(response.alkanes@, id) <= u128::MAX);
            lemma_zap_in_payout(deposit, response.alkanes@, id);
            law_aggregate_keeps_totals(
                zap_in_payout(deposit, response.alkanes@),
                step->response.alkanes@,
                id,
            );
        },
        Pending::Burn { burn } => {
            lemma_withdrawal_conserves(step, burn, response.alkanes@, id);
        },
        Pending::Unzap { unzap } => {
            lemma_unzap_conserves(step, unzap, response.alkanes@, id);
        },
        Pending::Forwarded { leftovers, .. } => {
            assert(held_by(pending, id) + total_of(response.alkanes@, id) <= u128::MAX);
            lemma_total_concat(response.alkanes@, leftovers@, id);
            law_aggregate_keeps_totals(
                response.alkanes@ + leftovers@,
                step->response.alkanes@,
                id,
            );
        },
    }
}

} // verus!
